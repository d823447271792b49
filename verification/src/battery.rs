//! The battery alarm ladder and the automatic sleep that guards a session.
//!
//! All alarms require discharging: plugging in clears everything. At or below
//! [`LOW_PCT`] the user is told once, at or below [`BEAT_PCT`] the bell beats,
//! at or below [`SUSPEND_PCT`] the machine suspends, and a machine that wakes
//! still critical hibernates after a pause. Moments are milliseconds on one
//! clock.
use vstd::prelude::*;

verus! {

/// Discharging at or below this: the bell turns red and the user is told.
pub const LOW_PCT: u8 = 10;

/// Discharging at or below this: the bell beats.
pub const BEAT_PCT: u8 = 7;

/// Discharging at or below this: suspend, and hibernate after a wake.
pub const SUSPEND_PCT: u8 = 5;

/// How long the warning shows before the hibernation after a wake, in
/// milliseconds.
pub const AWARE_MS: u64 = 5_000;

/// A gap between two readings longer than this means that the machine slept,
/// in milliseconds.
pub const WAKE_GAP: u64 = 60_000;

/// No automatic sleep this soon after the start, in milliseconds.
pub const BOOT_GRACE: u64 = 180_000;

/// How many critical readings in a row any automatic sleep takes.
pub const CRITICAL_STREAK: u8 = 3;

/// The alarm ladder, each rung above the one before it.
#[derive(Debug, Clone, Copy, PartialEq, Eq, PartialOrd, Ord, Default, Structural)]
pub enum BatteryAlarm {
    #[default]
    Calm,
    Low,
    Beating,
    Critical,
}

impl BatteryAlarm {
    /// The height of the rung.
    pub open spec fn level(self) -> int {
        match self {
            BatteryAlarm::Calm => 0,
            BatteryAlarm::Low => 1,
            BatteryAlarm::Beating => 2,
            BatteryAlarm::Critical => 3,
        }
    }
}

/// The rung that a reading stands for.
pub open spec fn rung(pct: Option<u8>, charging: bool) -> BatteryAlarm {
    match pct {
        None => BatteryAlarm::Calm,
        Some(p) => if charging {
            BatteryAlarm::Calm
        } else if p <= SUSPEND_PCT {
            BatteryAlarm::Critical
        } else if p <= BEAT_PCT {
            BatteryAlarm::Beating
        } else if p <= LOW_PCT {
            BatteryAlarm::Low
        } else {
            BatteryAlarm::Calm
        },
    }
}

/// The alarm for one reading: charging clears every rung whatever the gauge
/// claims, and a machine without a battery is calm.
pub fn alarm_for(pct: Option<u8>, charging: bool) -> (r: BatteryAlarm)
    ensures
        r == rung(pct, charging),
{
    match pct {
        None => BatteryAlarm::Calm,
        Some(p) => {
            if charging {
                BatteryAlarm::Calm
            } else if p <= SUSPEND_PCT {
                BatteryAlarm::Critical
            } else if p <= BEAT_PCT {
                BatteryAlarm::Beating
            } else if p <= LOW_PCT {
                BatteryAlarm::Low
            } else {
                BatteryAlarm::Calm
            }
        },
    }
}

/// What the sleep rungs do at one reading.
#[derive(Debug, Clone, Copy, PartialEq, Eq, Structural)]
pub enum SleepDecision {
    /// No automatic sleep.
    Stay,
    /// The first crossing while awake: suspend now.
    Suspend,
    /// Woken still critical: warn for [`AWARE_MS`], then hibernate.
    HibernateAfterAware,
}

/// Whether a critical reading is proven and the machine long enough up for any
/// automatic sleep.
pub open spec fn may_sleep(alarm: BatteryAlarm, since_start: u64, streak: u8) -> bool {
    alarm == BatteryAlarm::Critical && since_start >= BOOT_GRACE && streak >= CRITICAL_STREAK
}

/// The decision of the sleep rungs.
pub open spec fn decided(
    alarm: BatteryAlarm,
    woke: bool,
    armed: bool,
    since_start: u64,
    streak: u8,
) -> SleepDecision {
    if !may_sleep(alarm, since_start, streak) {
        SleepDecision::Stay
    } else if woke {
        SleepDecision::HibernateAfterAware
    } else if armed {
        SleepDecision::Suspend
    } else {
        SleepDecision::Stay
    }
}

/// Decide the sleep rung. `armed` is the latch that makes a suspend fire once
/// per critical episode.
pub fn sleep_decision(
    alarm: BatteryAlarm,
    woke: bool,
    armed: bool,
    since_start: u64,
    critical_streak: u8,
) -> (r: SleepDecision)
    ensures
        r == decided(alarm, woke, armed, since_start, critical_streak),
{
    if alarm != BatteryAlarm::Critical {
        return SleepDecision::Stay;
    }
    if since_start < BOOT_GRACE || critical_streak < CRITICAL_STREAK {
        return SleepDecision::Stay;
    }
    if woke {
        return SleepDecision::HibernateAfterAware;
    }
    if armed {
        return SleepDecision::Suspend;
    }
    SleepDecision::Stay
}

/// What is remembered between two readings.
#[derive(Debug, Clone, Copy, PartialEq, Eq)]
pub struct BatteryState {
    /// When the daemon started.
    pub started: u64,
    /// When the last reading came.
    pub last_snapshot: Option<u64>,
    pub alarm: BatteryAlarm,
    /// Critical readings in a row, up to the end of the range.
    pub critical_streak: u8,
    /// Whether the next crossing suspends.
    pub suspend_armed: bool,
    /// Until when the warning before a hibernation shows.
    pub aware_until: Option<u64>,
    /// Since when the bell beats.
    pub beat_epoch: Option<u64>,
    /// Whether a frame of the beat is already scheduled.
    pub beat_pending: bool,
}

/// What a reading asks for.
#[derive(Debug, Clone, Copy, PartialEq, Eq)]
pub struct BatteryStep {
    /// Tell the user that the battery is at this percentage.
    pub notify: Option<u8>,
    /// Draw the bar again.
    pub redraw: bool,
    /// Schedule a frame of the beat.
    pub start_beat: bool,
    pub sleep: SleepDecision,
}

/// How long ago `then` was; 0 for a moment still to come.
pub open spec fn ago(now: u64, then: u64) -> u64 {
    if now >= then {
        (now - then) as u64
    } else {
        0
    }
}

/// `a + b`, or the end of the range.
pub open spec fn plus(a: u64, b: u64) -> u64 {
    if a + b <= u64::MAX {
        (a + b) as u64
    } else {
        u64::MAX
    }
}

/// Whether the gap since the last reading means that the machine slept.
pub open spec fn woken(s: BatteryState, now: u64) -> bool {
    s.last_snapshot matches Some(t) && ago(now, t) > WAKE_GAP
}

/// The state after the alarm alone has changed to `alarm`.
pub open spec fn with_alarm(s: BatteryState, alarm: BatteryAlarm, now: u64) -> BatteryState {
    if s.alarm == alarm {
        s
    } else if alarm.level() >= BatteryAlarm::Beating.level() {
        BatteryState {
            alarm,
            beat_epoch: if s.beat_epoch is Some {
                s.beat_epoch
            } else {
                Some(now)
            },
            beat_pending: true,
            ..s
        }
    } else {
        BatteryState { alarm, beat_epoch: None, ..s }
    }
}

/// Whether a change to `alarm` schedules a frame of the beat.
pub open spec fn starts_beat(s: BatteryState, alarm: BatteryAlarm) -> bool {
    s.alarm != alarm && alarm.level() >= BatteryAlarm::Beating.level() && !s.beat_pending
}

/// The critical readings in a row after one more reading.
pub open spec fn next_streak(streak: u8, alarm: BatteryAlarm) -> u8 {
    if alarm == BatteryAlarm::Critical {
        if streak < u8::MAX {
            (streak + 1) as u8
        } else {
            streak
        }
    } else {
        0
    }
}

/// How a reading takes the state from `before` to `after`, and what it asks for.
pub open spec fn checked(
    before: BatteryState,
    after: BatteryState,
    pct: Option<u8>,
    charging: bool,
    now: u64,
    step: BatteryStep,
) -> bool {
    let alarm = rung(pct, charging);
    let streak = next_streak(before.critical_streak, alarm);
    let armed = before.suspend_armed || alarm != BatteryAlarm::Critical;
    let sleep = decided(alarm, woken(before, now), armed, ago(now, before.started), streak);
    let aware = sleep == SleepDecision::HibernateAfterAware;
    &&& after == BatteryState {
        last_snapshot: Some(now),
        critical_streak: streak,
        suspend_armed: armed && sleep != SleepDecision::Suspend,
        aware_until: if aware {
            Some(plus(now, AWARE_MS))
        } else {
            before.aware_until
        },
        ..with_alarm(before, alarm, now)
    }
    &&& step.sleep == sleep
    &&& step.notify == (if before.alarm == BatteryAlarm::Calm && alarm != BatteryAlarm::Calm {
        pct
    } else {
        None
    })
    &&& step.redraw == (before.alarm != alarm || aware)
    &&& step.start_beat == starts_beat(before, alarm)
}

impl BatteryState {
    /// The state of a daemon that starts at `now`.
    pub fn new(now: u64) -> (r: BatteryState)
        ensures
            r == (BatteryState {
                started: now,
                last_snapshot: None,
                alarm: BatteryAlarm::Calm,
                critical_streak: 0,
                suspend_armed: true,
                aware_until: None,
                beat_epoch: None,
                beat_pending: false,
            }),
    {
        BatteryState {
            started: now,
            last_snapshot: None,
            alarm: BatteryAlarm::Calm,
            critical_streak: 0,
            suspend_armed: true,
            aware_until: None,
            beat_epoch: None,
            beat_pending: false,
        }
    }

    /// Take in one reading at `now`.
    pub fn check_battery(&mut self, pct: Option<u8>, charging: bool, now: u64) -> (r: BatteryStep)
        ensures
            checked(*old(self), *final(self), pct, charging, now, r),
    {
        let woke: bool = match self.last_snapshot {
            Some(t) => now.saturating_sub(t) > WAKE_GAP,
            None => false,
        };
        self.last_snapshot = Some(now);
        let alarm = alarm_for(pct, charging);
        let prev = self.alarm;
        let start_beat = self.set_battery_alarm(alarm, now);
        self.critical_streak = if alarm == BatteryAlarm::Critical {
            self.critical_streak.saturating_add(1)
        } else {
            0
        };
        let notify = if prev == BatteryAlarm::Calm && alarm != BatteryAlarm::Calm {
            pct
        } else {
            None
        };
        if alarm != BatteryAlarm::Critical {
            self.suspend_armed = true;
        }
        let sleep = sleep_decision(
            alarm,
            woke,
            self.suspend_armed,
            now.saturating_sub(self.started),
            self.critical_streak,
        );
        let mut redraw = prev != alarm;
        match sleep {
            SleepDecision::Stay => {},
            SleepDecision::HibernateAfterAware => {
                self.aware_until = Some(now.saturating_add(AWARE_MS));
                redraw = true;
            },
            SleepDecision::Suspend => {
                self.suspend_armed = false;
            },
        }
        BatteryStep { notify, redraw, start_beat, sleep }
    }

    /// Change the alarm. Returns whether a frame of the beat is to be
    /// scheduled.
    pub fn set_battery_alarm(&mut self, alarm: BatteryAlarm, now: u64) -> (r: bool)
        ensures
            *final(self) == with_alarm(*old(self), alarm, now),
            r == starts_beat(*old(self), alarm),
    {
        if self.alarm == alarm {
            return false;
        }
        self.alarm = alarm;
        if alarm == BatteryAlarm::Beating || alarm == BatteryAlarm::Critical {
            if self.beat_epoch.is_none() {
                self.beat_epoch = Some(now);
            }
            if self.beat_pending {
                return false;
            }
            self.beat_pending = true;
            return true;
        }
        self.beat_epoch = None;
        false
    }

    /// A scheduled frame of the beat has come. Returns whether to draw it and
    /// to schedule the next one.
    pub fn beat_frame(&mut self) -> (r: bool)
        ensures
            r == (old(self).alarm.level() >= BatteryAlarm::Beating.level()),
            *final(self) == (BatteryState { beat_pending: r, ..*old(self) }),
    {
        let beats: bool = self.alarm == BatteryAlarm::Beating || self.alarm
            == BatteryAlarm::Critical;
        self.beat_pending = beats;
        beats
    }

    /// The pause before a hibernation is over. Returns whether to hibernate:
    /// only where the battery is still critical.
    pub fn aware_over(&mut self) -> (r: bool)
        ensures
            r == (old(self).alarm == BatteryAlarm::Critical),
            *final(self) == (BatteryState { aware_until: None, ..*old(self) }),
    {
        self.aware_until = None;
        self.alarm == BatteryAlarm::Critical
    }

    /// Whether the bell shows the warning: at critical, and in the pause
    /// before a hibernation.
    pub fn battery_warning(&self) -> (r: bool)
        ensures
            r == (self.alarm == BatteryAlarm::Critical || self.aware_until is Some),
    {
        self.alarm == BatteryAlarm::Critical || self.aware_until.is_some()
    }
}

/// Charging clears every rung, and a machine that charges never sleeps by
/// itself.
pub proof fn law_charging_clears_everything(
    before: BatteryState,
    after: BatteryState,
    pct: Option<u8>,
    now: u64,
    step: BatteryStep,
)
    requires
        checked(before, after, pct, true, now, step),
    ensures
        after.alarm == BatteryAlarm::Calm,
        after.critical_streak == 0,
        after.suspend_armed,
        step.sleep == SleepDecision::Stay,
        step.notify is None,
{
}

/// A lower charge never lowers the alarm.
pub proof fn law_the_ladder_is_monotone(lower: u8, higher: u8, charging: bool)
    requires
        lower <= higher,
    ensures
        rung(Some(lower), charging).level() >= rung(Some(higher), charging).level(),
{
}

/// Nothing sleeps by itself within [`BOOT_GRACE`] of the start.
pub proof fn law_boot_grace_holds(
    before: BatteryState,
    after: BatteryState,
    pct: Option<u8>,
    charging: bool,
    now: u64,
    step: BatteryStep,
)
    requires
        checked(before, after, pct, charging, now, step),
        ago(now, before.started) < BOOT_GRACE,
    ensures
        step.sleep == SleepDecision::Stay,
{
}

/// A streak shorter than [`CRITICAL_STREAK`] never sleeps, and one reading
/// that is not critical starts the count over.
pub proof fn law_sleep_takes_a_streak(
    before: BatteryState,
    after: BatteryState,
    pct: Option<u8>,
    charging: bool,
    now: u64,
    step: BatteryStep,
)
    requires
        checked(before, after, pct, charging, now, step),
    ensures
        before.critical_streak + 1 < CRITICAL_STREAK ==> step.sleep == SleepDecision::Stay,
        rung(pct, charging) != BatteryAlarm::Critical ==> after.critical_streak == 0 && step.sleep
            == SleepDecision::Stay,
{
}

/// A suspend fires once per critical episode: it disarms itself, and while the
/// readings stay critical nothing arms it again.
pub proof fn law_suspend_fires_once_per_episode(
    s0: BatteryState,
    s1: BatteryState,
    s2: BatteryState,
    pct1: Option<u8>,
    charging1: bool,
    now1: u64,
    step1: BatteryStep,
    pct2: Option<u8>,
    charging2: bool,
    now2: u64,
    step2: BatteryStep,
)
    requires
        checked(s0, s1, pct1, charging1, now1, step1),
        checked(s1, s2, pct2, charging2, now2, step2),
        step1.sleep == SleepDecision::Suspend || !s0.suspend_armed && rung(pct1, charging1)
            == BatteryAlarm::Critical,
        rung(pct2, charging2) == BatteryAlarm::Critical,
    ensures
        step2.sleep != SleepDecision::Suspend,
        !s2.suspend_armed,
{
}

/// The user is told once on entering the ladder, not at every step on it.
pub proof fn law_told_once_per_descent(
    s0: BatteryState,
    s1: BatteryState,
    s2: BatteryState,
    pct1: Option<u8>,
    now1: u64,
    step1: BatteryStep,
    pct2: Option<u8>,
    now2: u64,
    step2: BatteryStep,
)
    requires
        checked(s0, s1, pct1, false, now1, step1),
        checked(s1, s2, pct2, false, now2, step2),
        rung(pct1, false) != BatteryAlarm::Calm,
    ensures
        step2.notify is None,
{
}

/// Which percentages are which rung on battery: five and below are critical, seven and
/// below beat, ten and below are low, and above that it is calm. A machine that
/// charges, or has no battery, is calm.
pub proof fn law_where_the_rungs_are(p: u8)
    ensures
        rung(None, false) == BatteryAlarm::Calm,
        rung(None, true) == BatteryAlarm::Calm,
        rung(Some(p), true) == BatteryAlarm::Calm,
        rung(Some(p), false) == BatteryAlarm::Critical <==> p <= 5,
        rung(Some(p), false) == BatteryAlarm::Beating <==> 5 < p <= 7,
        rung(Some(p), false) == BatteryAlarm::Low <==> 7 < p <= 10,
        rung(Some(p), false) == BatteryAlarm::Calm <==> 10 < p,
{
}

/// When a machine is put to sleep: with the third critical reading in a row and three
/// minutes after the start at the earliest. Woken within a minute it suspends, once
/// until a reading is not critical; after a longer gap it warns for five seconds and
/// hibernates.
pub proof fn law_when_the_machine_sleeps(
    before: BatteryState,
    after: BatteryState,
    p: u8,
    now: u64,
    step: BatteryStep,
)
    requires
        checked(before, after, Some(p), false, now, step),
        p <= 5,
        now <= u64::MAX - 5_000,
    ensures
        ({
            let proven = before.critical_streak >= 2 && now >= before.started + 180_000;
            let woke = before.last_snapshot matches Some(t) && now > t + 60_000;
            &&& !proven ==> step.sleep == SleepDecision::Stay
            &&& proven && woke ==> step.sleep == SleepDecision::HibernateAfterAware
                && after.aware_until == Some((now + 5_000) as u64) && step.redraw
            &&& proven && !woke && before.suspend_armed ==> step.sleep == SleepDecision::Suspend
                && !after.suspend_armed
            &&& proven && !woke && !before.suspend_armed ==> step.sleep == SleepDecision::Stay
            &&& step.sleep != SleepDecision::HibernateAfterAware ==> after.aware_until
                == before.aware_until
            &&& step.sleep != SleepDecision::Suspend ==> after.suspend_armed == before.suspend_armed
            &&& after.critical_streak == (if before.critical_streak < 255 {
                before.critical_streak + 1
            } else {
                255
            })
        }),
{
}

/// A reading that is not critical starts the count over, arms the suspend again and
/// puts nothing to sleep.
pub proof fn law_a_reading_above_critical_starts_over(
    before: BatteryState,
    after: BatteryState,
    pct: Option<u8>,
    charging: bool,
    now: u64,
    step: BatteryStep,
)
    requires
        checked(before, after, pct, charging, now, step),
        charging || pct is None || pct->Some_0 > 5,
    ensures
        after.critical_streak == 0,
        after.suspend_armed,
        after.aware_until == before.aware_until,
        step.sleep == SleepDecision::Stay,
{
}

/// What a reading always leaves: its own moment and rung, and the start as it was. The
/// user is told on leaving calm, the bar is drawn again where the rung changes, and
/// the bell begins to beat on the two upper rungs, goes on beating from where it began,
/// and stops below them.
pub proof fn law_what_a_reading_shows(
    before: BatteryState,
    after: BatteryState,
    pct: Option<u8>,
    charging: bool,
    now: u64,
    step: BatteryStep,
)
    requires
        checked(before, after, pct, charging, now, step),
    ensures
        ({
            let now_on = rung(pct, charging);
            let beats = now_on == BatteryAlarm::Beating || now_on == BatteryAlarm::Critical;
            &&& after.last_snapshot == Some(now)
            &&& after.started == before.started
            &&& after.alarm == now_on
            &&& before.alarm == BatteryAlarm::Calm && now_on != BatteryAlarm::Calm ==> step.notify
                == pct
            &&& before.alarm != BatteryAlarm::Calm || now_on == BatteryAlarm::Calm ==> step.notify
                is None
            &&& before.alarm != now_on ==> step.redraw
            &&& before.alarm == now_on ==> step.redraw == (step.sleep
                == SleepDecision::HibernateAfterAware) && !step.start_beat && after.beat_epoch
                == before.beat_epoch && after.beat_pending == before.beat_pending
            &&& before.alarm != now_on && beats ==> after.beat_pending && step.start_beat
                == !before.beat_pending
            &&& before.alarm != now_on && beats && before.beat_epoch is None ==> after.beat_epoch
                == Some(now)
            &&& before.alarm != now_on && beats && before.beat_epoch is Some ==> after.beat_epoch
                == before.beat_epoch
            &&& before.alarm != now_on && !beats ==> after.beat_epoch is None && !step.start_beat
                && after.beat_pending == before.beat_pending
        }),
{
}

} // verus!

use waverunner::battery::{
    alarm_for, sleep_decision, BatteryAlarm, BatteryState, SleepDecision, BOOT_GRACE,
    CRITICAL_STREAK,
};

#[test]
fn alarm_ladder_boundaries_and_clears() {
    assert_eq!(alarm_for(None, false), BatteryAlarm::Calm);
    assert_eq!(alarm_for(Some(100), false), BatteryAlarm::Calm);
    assert_eq!(alarm_for(Some(11), false), BatteryAlarm::Calm);
    assert_eq!(alarm_for(Some(10), false), BatteryAlarm::Low);
    assert_eq!(alarm_for(Some(8), false), BatteryAlarm::Low);
    assert_eq!(alarm_for(Some(7), false), BatteryAlarm::Beating);
    assert_eq!(alarm_for(Some(6), false), BatteryAlarm::Beating);
    assert_eq!(alarm_for(Some(5), false), BatteryAlarm::Critical);
    assert_eq!(alarm_for(Some(0), false), BatteryAlarm::Critical);
    for pct in [0, 3, 5, 7, 10] {
        assert_eq!(alarm_for(Some(pct), true), BatteryAlarm::Calm, "{pct}%");
    }
}

#[test]
fn boot_grace_blocks_every_sleep_rung() {
    let just_booted = 3_000;
    for woke in [false, true] {
        assert_eq!(
            sleep_decision(BatteryAlarm::Critical, woke, true, just_booted, 200),
            SleepDecision::Stay,
            "woke={woke}"
        );
    }
    assert_eq!(
        sleep_decision(BatteryAlarm::Critical, false, true, BOOT_GRACE - 1, CRITICAL_STREAK),
        SleepDecision::Stay
    );
    assert_eq!(
        sleep_decision(BatteryAlarm::Critical, false, true, BOOT_GRACE, CRITICAL_STREAK),
        SleepDecision::Suspend
    );
}

#[test]
fn critical_streak_blocks_until_proven() {
    let up = BOOT_GRACE * 2;
    for streak in 0..CRITICAL_STREAK {
        for woke in [false, true] {
            assert_eq!(
                sleep_decision(BatteryAlarm::Critical, woke, true, up, streak),
                SleepDecision::Stay,
                "streak={streak} woke={woke}"
            );
        }
    }
    assert_eq!(
        sleep_decision(BatteryAlarm::Critical, false, true, up, CRITICAL_STREAK),
        SleepDecision::Suspend
    );
}

#[test]
fn sleep_rungs_past_the_guards() {
    let up = BOOT_GRACE * 2;
    for armed in [true, false] {
        assert_eq!(
            sleep_decision(BatteryAlarm::Critical, true, armed, up, CRITICAL_STREAK),
            SleepDecision::HibernateAfterAware,
            "armed={armed}"
        );
    }
    assert_eq!(
        sleep_decision(BatteryAlarm::Critical, false, true, up, CRITICAL_STREAK),
        SleepDecision::Suspend
    );
    assert_eq!(
        sleep_decision(BatteryAlarm::Critical, false, false, up, CRITICAL_STREAK),
        SleepDecision::Stay
    );
    for alarm in [BatteryAlarm::Calm, BatteryAlarm::Low, BatteryAlarm::Beating] {
        assert_eq!(
            sleep_decision(alarm, true, true, up, 200),
            SleepDecision::Stay,
            "{alarm:?}"
        );
    }
}

#[test]
fn an_episode_suspends_once_and_tells_once() {
    let mut b = BatteryState::new(0);
    let mut now = BOOT_GRACE;
    let first = b.check_battery(Some(9), false, now);
    assert_eq!(first.notify, Some(9));
    let mut suspends = 0;
    for _ in 0..6 {
        now += 1_000;
        let step = b.check_battery(Some(4), false, now);
        assert_eq!(step.notify, None);
        if step.sleep == SleepDecision::Suspend {
            suspends += 1;
        }
    }
    assert_eq!(suspends, 1);
    now += 1_000;
    let plugged = b.check_battery(Some(4), true, now);
    assert_eq!(plugged.sleep, SleepDecision::Stay);
    assert_eq!(b.alarm, BatteryAlarm::Calm);
    assert_eq!(b.critical_streak, 0);
}

#[test]
fn waking_still_critical_hibernates() {
    let mut b = BatteryState::new(0);
    let mut now = BOOT_GRACE;
    for _ in 0..3 {
        now += 1_000;
        b.check_battery(Some(3), false, now);
    }
    now += 120_000;
    let step = b.check_battery(Some(3), false, now);
    assert_eq!(step.sleep, SleepDecision::HibernateAfterAware);
    assert!(b.battery_warning());
    assert!(b.aware_over());
}

#[test]
fn the_beat_runs_while_the_bell_beats() {
    let mut b = BatteryState::new(0);
    assert_eq!(b.alarm, BatteryAlarm::default());
    assert!(!b.beat_frame());
    let step = b.check_battery(Some(7), false, 1_000);
    assert!(step.start_beat && step.redraw);
    assert_eq!(b.beat_epoch, Some(1_000));
    assert!(b.beat_frame());
    let step = b.check_battery(Some(5), false, 2_000);
    assert!(!step.start_beat);
    assert_eq!(b.beat_epoch, Some(1_000));
    b.check_battery(Some(5), true, 3_000);
    assert_eq!(b.beat_epoch, None);
    assert!(!b.beat_frame());
}

//! Motion: whether there is any, how long a timeline runs, and the grace a part
//! gets when the pointer leaves it.
use vstd::prelude::*;
use crate::config::CurveKind;

verus! {

/// How long a part stays when the pointer has left it, in milliseconds: long
/// enough to cross to another part, too short to read by.
pub const LEAVE_HOLD: u64 = 300;

/// Whether motion is reduced to its outcome.
#[derive(Debug, Clone, Copy, PartialEq, Eq)]
pub struct Motion {
    pub reduced: bool,
}

impl Motion {
    /// Motion as it begins: not reduced.
    pub fn new() -> (r: Motion)
        ensures
            !r.reduced,
    {
        Motion { reduced: false }
    }
}

impl Default for Motion {
    fn default() -> (r: Motion)
        ensures
            !r.reduced,
    {
        Motion::new()
    }
}

/// Reduce motion, or not.
pub fn set_reduce_motion(motion: &mut Motion, on: bool)
    ensures
        final(motion).reduced == on,
{
    motion.reduced = on;
}

/// Whether motion is reduced.
pub fn reduce_motion(motion: &Motion) -> (r: bool)
    ensures
        r == motion.reduced,
{
    motion.reduced
}

/// A motion of fixed length, in nanoseconds.
#[derive(Debug, Clone, Copy, PartialEq, Eq)]
pub struct Timed {
    pub kind: CurveKind,
    pub duration: u64,
    pub elapsed: u64,
}

impl Timed {
    /// A timeline for a curve, of at least a millisecond; a spring has none.
    pub fn new(kind: CurveKind, duration_ms: u32) -> (r: Option<Timed>)
        ensures
            match r {
                Some(t) => {
                    &&& kind != CurveKind::Spring
                    &&& t.kind == kind
                    &&& t.duration == (if duration_ms >= 1 {
                        duration_ms as int
                    } else {
                        1
                    }) * 1_000_000
                    &&& t.elapsed == 0
                },
                None => kind == CurveKind::Spring,
            },
    {
        match kind {
            CurveKind::Spring => None,
            _ => {
                let ms: u64 = if duration_ms >= 1 {
                    duration_ms as u64
                } else {
                    1
                };
                Some(Timed { kind, duration: ms * 1_000_000, elapsed: 0 })
            },
        }
    }

    /// Let time pass. Where motion is reduced, the timeline is at its end.
    pub fn step(&mut self, dt: u64, motion: &Motion)
        ensures
            *final(self) == (Timed {
                elapsed: if motion.reduced {
                    old(self).duration
                } else if old(self).elapsed + dt <= u64::MAX {
                    (old(self).elapsed + dt) as u64
                } else {
                    u64::MAX
                },
                ..*old(self)
            }),
    {
        if motion.reduced {
            self.elapsed = self.duration;
        } else {
            self.elapsed = self.elapsed.saturating_add(dt);
        }
    }

    /// Whether the timeline is at its end.
    pub fn is_settled(&self) -> (r: bool)
        ensures
            r == (self.elapsed >= self.duration),
    {
        self.elapsed >= self.duration
    }
}

/// A timeline that is at its end stays there, and reduced motion ends it at
/// once.
pub proof fn law_a_settled_timeline_stays(before: Timed, after: Timed, dt: u64, reduced: bool)
    requires
        after == (Timed {
            elapsed: if reduced {
                before.duration
            } else if before.elapsed + dt <= u64::MAX {
                (before.elapsed + dt) as u64
            } else {
                u64::MAX
            },
            ..before
        }),
    ensures
        reduced || before.elapsed >= before.duration ==> after.elapsed >= after.duration,
{
}

} // verus!

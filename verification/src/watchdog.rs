//! Watches over a source and has its pipeline made anew when no frames come any more.

use crate::time;
use crate::time::Timestamp;
use vstd::prelude::*;

verus! {

/// After this many milliseconds without a frame the connection counts as lost.
pub const CONNECTION_LOST_THRESHOLD_MS: i64 = 30_000;

/// How many milliseconds to wait before looking for a frame again.
pub const POLL_INTERVAL_MS: u64 = 100;

/// How many frames are held for each reader.
pub const FRAME_CHANNEL_CAPACITY: usize = 16;

/// What looking for a frame brought.
#[derive(Clone, Copy, PartialEq, Eq, Structural, Debug)]
pub enum FrameEvent {
    /// A frame.
    Received,
    /// No frame yet, or some were missed.
    Missing,
    /// There will be no frames any more.
    Closed,
}

/// What to do next.
#[derive(Clone, Copy, PartialEq, Eq, Structural, Debug)]
pub enum WatchdogAction {
    /// Look for the next frame at once.
    Poll,
    /// Wait, then look again.
    Wait,
    /// Stop the pipeline, make it anew and start it.
    Reconnect,
    /// Stop watching.
    Stop,
}

/// Remembers when the last frame came, or the pipeline was last started.
#[derive(Clone, Copy, PartialEq, Eq, Structural, Debug)]
pub struct Watchdog {
    pub last_frame_time: Timestamp,
}

impl Watchdog {
    /// Whether the time of the last frame can be represented.
    pub open spec fn wf(self) -> bool {
        self.last_frame_time.wf()
    }

    /// Whether no frame has come for too long.
    pub open spec fn is_lost(self, now: Timestamp) -> bool {
        time::elapsed_nanos(now, self.last_frame_time) >= CONNECTION_LOST_THRESHOLD_MS * 1_000_000
    }

    /// Starts to watch, or starts over once the pipeline runs again.
    pub fn started(now: Timestamp) -> (r: Watchdog)
        ensures
            r.last_frame_time == now,
    {
        Watchdog { last_frame_time: now }
    }

    /// Decides what to do once a frame was looked for.
    pub fn step(&mut self, event: FrameEvent, now: Timestamp) -> (r: WatchdogAction)
        requires
            old(self).wf(),
            now.wf(),
        ensures
            final(self).wf(),
            r == WatchdogAction::Poll <==> event == FrameEvent::Received,
            r == WatchdogAction::Stop <==> event == FrameEvent::Closed,
            r == WatchdogAction::Reconnect <==> event == FrameEvent::Missing && time::elapsed_nanos(
                now,
                old(self).last_frame_time,
            ) >= 30_000_000_000,
            r == match event {
                FrameEvent::Received => WatchdogAction::Poll,
                FrameEvent::Missing => if old(self).is_lost(now) {
                    WatchdogAction::Reconnect
                } else {
                    WatchdogAction::Wait
                },
                FrameEvent::Closed => WatchdogAction::Stop,
            },
            final(self).last_frame_time == if event == FrameEvent::Received {
                now
            } else {
                old(self).last_frame_time
            },
    {
        match event {
            FrameEvent::Received => {
                self.last_frame_time = now;
                WatchdogAction::Poll
            },
            FrameEvent::Missing => if time::elapsed_at_least(
                &now,
                &self.last_frame_time,
                CONNECTION_LOST_THRESHOLD_MS,
            ) {
                WatchdogAction::Reconnect
            } else {
                WatchdogAction::Wait
            },
            FrameEvent::Closed => WatchdogAction::Stop,
        }
    }
}

/// The connection counts as lost once half a minute has passed since the last frame, or since the
/// pipeline was started, and not before. Leap seconds apart, that is the difference of the times,
/// and a connection that is lost stays lost until a frame comes.
pub proof fn law_connection_is_lost_after_half_a_minute(w: Watchdog, now: Timestamp, later: Timestamp)
    requires
        w.last_frame_time.wf() && now.wf() && later.wf(),
    ensures
        w.is_lost(now) <==> time::elapsed_nanos(now, w.last_frame_time) >= 30_000_000_000,
        !w.last_frame_time.is_leap() && !now.is_leap() ==> (w.is_lost(now) <==> (now.secs
            - w.last_frame_time.secs) * 1_000_000_000 + now.nanos - w.last_frame_time.nanos
            >= 30_000_000_000),
        !w.last_frame_time.is_leap() && !now.is_leap() && !later.is_leap() && now.le(later)
            && w.is_lost(now) ==> w.is_lost(later),
{
}

/// A frame is looked for ten times a second, and sixteen frames are held for each reader.
pub proof fn law_pace_of_the_watch()
    ensures
        POLL_INTERVAL_MS * 10 == 1000,
        FRAME_CHANNEL_CAPACITY == 16,
        CONNECTION_LOST_THRESHOLD_MS == 300 * POLL_INTERVAL_MS,
{
}

} // verus!

//! Repaint timing and frame-completion classification.
//!
//! After a frame is submitted, the next repaint timer is armed only once the
//! kernel reports completion.  The delay then depends on GPU locality: a
//! surface rendered on the primary GPU waits roughly 60% of one refresh
//! interval, while a cross-GPU surface repaints immediately because the extra
//! copy/convert step already consumes the slack.  A frame that produced no
//! damage instead re-tests after approximately one full refresh interval.

use vstd::prelude::*;

verus! {

/// Delay before the next repaint of a surface whose render node is the
/// primary GPU: `floor(1_000_000 / refresh_hz * 0.6)` microseconds,
/// which is exactly `600_000 / refresh_hz` rounded down.
pub open spec fn spec_repaint_delay_micros(refresh_hz: u64) -> int
    recommends
        refresh_hz > 0,
{
    600_000int / (refresh_hz as int)
}

/// Delay before re-testing for damage after a repaint that produced none:
/// approximately one refresh interval, `floor(1_000_000 / refresh_hz)`
/// microseconds.
pub open spec fn spec_retry_delay_micros(refresh_hz: u64) -> int
    recommends
        refresh_hz > 0,
{
    1_000_000int / (refresh_hz as int)
}

/// Repaint delay, in microseconds, after a submitted frame completes.
/// `same_gpu` states whether the surface's render node is the primary GPU.
pub fn repaint_delay_micros(refresh_hz: u64, same_gpu: bool) -> (delay: u64)
    requires
        refresh_hz > 0,
    ensures
        same_gpu ==> delay == spec_repaint_delay_micros(refresh_hz),
        !same_gpu ==> delay == 0,
{
    if same_gpu {
        600_000u64 / refresh_hz
    } else {
        0
    }
}

/// Delay, in microseconds, before re-testing a surface whose last repaint
/// reported no damage.
pub fn retry_delay_micros(refresh_hz: u64) -> (delay: u64)
    requires
        refresh_hz > 0,
    ensures
        delay == spec_retry_delay_micros(refresh_hz),
{
    1_000_000u64 / refresh_hz
}

/// A failure reported by the kernel mode-setting layer when a submitted
/// frame completes (or fails to).
#[derive(Clone, Copy, PartialEq, Eq, Structural, Debug)]
pub enum SwapError {
    /// The frame had already been swapped: a double-submission race,
    /// harmless for scheduling.
    AlreadySwapped,
    /// The device is inactive (for example, the session switched away to
    /// another virtual terminal).
    DeviceInactive,
    /// Permission was denied mid-transition; transient.
    PermissionDenied,
    /// Any other temporary failure.
    Temporary,
    /// The render context was lost (GPU reset or driver crash).
    ContextLost,
}

/// What the completion handler decides to do next for one surface.
#[derive(Clone, Copy, PartialEq, Eq, Structural, Debug)]
pub enum CompletionDecision {
    /// Arm a new repaint timer.
    Reschedule,
    /// Do not arm a timer; the surface stays intact and resumes on a later
    /// device-changed event.
    Halt,
    /// Unrecoverable: the render context cannot be rebuilt at this layer.
    Fatal,
}

/// Classification of a completion error into a scheduling decision.
///
/// "Device inactive" is recoverable but must not re-arm the timer;
/// "already swapped" counts as success; a lost context is fatal; every other
/// transient failure reschedules.
pub open spec fn spec_classify_swap_error(err: SwapError) -> CompletionDecision {
    match err {
        SwapError::AlreadySwapped => CompletionDecision::Reschedule,
        SwapError::DeviceInactive => CompletionDecision::Halt,
        SwapError::PermissionDenied => CompletionDecision::Reschedule,
        SwapError::Temporary => CompletionDecision::Reschedule,
        SwapError::ContextLost => CompletionDecision::Fatal,
    }
}

/// Classify a completion error into what the repaint loop does next.
pub fn classify_swap_error(err: SwapError) -> (decision: CompletionDecision)
    ensures
        decision == spec_classify_swap_error(err),
{
    match err {
        SwapError::AlreadySwapped => CompletionDecision::Reschedule,
        SwapError::DeviceInactive => CompletionDecision::Halt,
        SwapError::PermissionDenied => CompletionDecision::Reschedule,
        SwapError::Temporary => CompletionDecision::Reschedule,
        SwapError::ContextLost => CompletionDecision::Fatal,
    }
}

/// Presentation-feedback flags attached to a completed frame.
#[derive(Clone, Copy, PartialEq, Eq, Structural, Debug)]
pub struct PresentationFlags {
    pub vsync: bool,
    pub hw_clock: bool,
    pub hw_completion: bool,
}

/// The timestamp and flags a completed frame is presented with.
#[derive(Clone, Copy, PartialEq, Eq, Structural, Debug)]
pub struct PresentationStamp {
    pub time: u64,
    pub flags: PresentationFlags,
}

/// Expected stamp: a monotonic hardware timestamp enables the full
/// vsync + hardware-clock + hardware-completion flag set; otherwise the
/// software clock is used with vsync alone.
pub open spec fn spec_presentation_stamp(hw_time: Option<u64>, software_clock: u64)
    -> PresentationStamp {
    match hw_time {
        Some(t) => PresentationStamp {
            time: t,
            flags: PresentationFlags { vsync: true, hw_clock: true, hw_completion: true },
        },
        None => PresentationStamp {
            time: software_clock,
            flags: PresentationFlags { vsync: true, hw_clock: false, hw_completion: false },
        },
    }
}

/// Choose the presentation timestamp and flags for a completed frame.
/// `hw_time` is the monotonic hardware timestamp from the completion event,
/// when the kernel delivered one; `software_clock` is the compositor's own
/// clock reading, the fallback.
pub fn presentation_stamp(hw_time: Option<u64>, software_clock: u64) -> (stamp: PresentationStamp)
    ensures
        stamp == spec_presentation_stamp(hw_time, software_clock),
{
    match hw_time {
        Some(t) => PresentationStamp {
            time: t,
            flags: PresentationFlags { vsync: true, hw_clock: true, hw_completion: true },
        },
        None => PresentationStamp {
            time: software_clock,
            flags: PresentationFlags { vsync: true, hw_clock: false, hw_completion: false },
        },
    }
}

} // verus!

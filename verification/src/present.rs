//! Presentation plumbing: the acquired image index, the per-frame error
//! taxonomy, the classification of raw device result codes, and the
//! timeline decisions of the acquire and present steps.
//!
//! The device layer performs the actual swapchain calls and hands their
//! raw result codes back as plain integers; classification of those codes
//! into the error taxonomy lives here.

use vstd::prelude::*;
use crate::compile::spec_sat64;
use crate::sync::{TIMELINE_STAGES, RENDER_COMPLETE_STAGE};

verus! {

/// The swapchain image index acquired for the current frame; every
/// consumer of the frame observes this one value.
#[derive(Debug, Clone, Copy, PartialEq, Eq, Structural)]
pub struct ImageIndex(pub u32);

impl Default for ImageIndex {
    fn default() -> (r: Self)
        ensures
            r == ImageIndex(0),
    {
        ImageIndex(0)
    }
}

/// Why a frame failed. `SwapchainOutOfDate` is expected during a resize
/// and asks the caller to recompile the graph; the others are fatal and
/// must end the render loop after a clean shutdown.
#[derive(Debug, Clone, Copy, PartialEq, Eq, Structural)]
pub enum FrameError {
    /// The swapchain no longer matches the surface; recompile before the
    /// next frame.
    SwapchainOutOfDate,
    /// The device was lost; unrecoverable.
    DeviceLost,
    /// The device ran out of memory; unrecoverable.
    AllocationFailure,
    /// A wait on a fence or timeline value timed out; the device is
    /// considered wedged.
    FenceWaitTimeout,
}

/// Raw device result codes, as the device layer reports them.
pub const DEVICE_SUCCESS: i32 = 0;

pub const DEVICE_TIMEOUT: i32 = 2;

pub const DEVICE_SUBOPTIMAL: i32 = 1000001003;

pub const DEVICE_ERROR_OUT_OF_HOST_MEMORY: i32 = -1;

pub const DEVICE_ERROR_OUT_OF_DEVICE_MEMORY: i32 = -2;

pub const DEVICE_ERROR_DEVICE_LOST: i32 = -4;

pub const DEVICE_ERROR_OUT_OF_DATE: i32 = -1000001004;

/// How a raw device result code maps into the error taxonomy: success and
/// the suboptimal warning succeed, an out-of-date swapchain is the one
/// recoverable error, memory exhaustion and device loss are fatal, a
/// timeout means a wedged device, and any unrecognized code is treated as
/// a lost device.
pub open spec fn spec_classify(code: i32) -> Result<(), FrameError> {
    if code == DEVICE_SUCCESS || code == DEVICE_SUBOPTIMAL {
        Ok(())
    } else if code == DEVICE_ERROR_OUT_OF_DATE {
        Err(FrameError::SwapchainOutOfDate)
    } else if code == DEVICE_ERROR_OUT_OF_HOST_MEMORY || code == DEVICE_ERROR_OUT_OF_DEVICE_MEMORY {
        Err(FrameError::AllocationFailure)
    } else if code == DEVICE_TIMEOUT {
        Err(FrameError::FenceWaitTimeout)
    } else {
        Err(FrameError::DeviceLost)
    }
}

fn classify(code: i32) -> (r: Result<(), FrameError>)
    ensures
        r == spec_classify(code),
{
    if code == DEVICE_SUCCESS || code == DEVICE_SUBOPTIMAL {
        Ok(())
    } else if code == DEVICE_ERROR_OUT_OF_DATE {
        Err(FrameError::SwapchainOutOfDate)
    } else if code == DEVICE_ERROR_OUT_OF_HOST_MEMORY || code == DEVICE_ERROR_OUT_OF_DEVICE_MEMORY {
        Err(FrameError::AllocationFailure)
    } else if code == DEVICE_TIMEOUT {
        Err(FrameError::FenceWaitTimeout)
    } else {
        Err(FrameError::DeviceLost)
    }
}

/// Classifies the device's answer to a swapchain acquire: on success the
/// acquired index is returned, and every failure maps to exactly one
/// error kind as [`spec_classify`] states.
pub fn classify_acquire(code: i32, index: u32) -> (r: Result<ImageIndex, FrameError>)
    ensures
        r == (match spec_classify(code) {
            Ok(()) => Ok::<ImageIndex, FrameError>(ImageIndex(index)),
            Err(e) => Err::<ImageIndex, FrameError>(e),
        }),
{
    match classify(code) {
        Ok(()) => Ok(ImageIndex(index)),
        Err(e) => Err(e),
    }
}

/// Classifies the device's answer to a present call.
pub fn classify_present(code: i32) -> (r: Result<(), FrameError>)
    ensures
        r == spec_classify(code),
{
    classify(code)
}

/// Classifies the device's answer to a fence or timeline wait.
pub fn classify_wait(code: i32) -> (r: Result<(), FrameError>)
    ensures
        r == spec_classify(code),
{
    classify(code)
}

/// The timeline value at which the given frame's work begins; each frame
/// owns [`TIMELINE_STAGES`] consecutive timeline steps.
pub open spec fn spec_frame_base(frame_number: u64) -> u64 {
    spec_sat64(frame_number * TIMELINE_STAGES)
}

fn frame_base(frame_number: u64) -> (r: u64)
    ensures
        r == spec_frame_base(frame_number),
{
    match frame_number.checked_mul(TIMELINE_STAGES) {
        Some(x) => x,
        None => u64::MAX,
    }
}

/// The timeline value marking the previous frame's completion: one step
/// before this frame's base, clamped at zero for the first frame.
pub open spec fn spec_prior_wait(frame_number: u64) -> u64 {
    if spec_frame_base(frame_number) == 0 {
        0
    } else {
        (spec_frame_base(frame_number) - 1) as u64
    }
}

/// The synchronization decisions of the acquire step, as plain values.
#[derive(Debug, Clone, Copy, PartialEq)]
pub struct AcquirePlan {
    /// The timeline value to wait for before reusing the slot's command
    /// buffer, when the slot holds a prior recording.
    pub wait_value: Option<u64>,
    /// The timeline value to bump the counter to with an empty
    /// submission, when the observed counter lags the frame's base.
    pub bump_to: Option<u64>,
}

/// Acquires the next swapchain image and hands its index on. The device
/// calls live in the device layer; this type decides the waits around
/// them.
pub struct AcquireFramebuffer;

impl AcquireFramebuffer {
    /// What the acquire step must do for `frame_number`: wait for the
    /// previous frame's completion if the slot holds a prior recording,
    /// and bump a lagging timeline counter up to this frame's base.
    pub fn plan(frame_number: u64, have_prior: bool, observed_counter: u64) -> (r: AcquirePlan)
        ensures
            r.wait_value == (if have_prior {
                Some(spec_prior_wait(frame_number))
            } else {
                None::<u64>
            }),
            r.bump_to == (if observed_counter < spec_frame_base(frame_number) {
                Some(spec_frame_base(frame_number))
            } else {
                None::<u64>
            }),
    {
        let base = frame_base(frame_number);
        let wait_value = if have_prior {
            Some(base.saturating_sub(1))
        } else {
            None
        };
        let bump_to = if observed_counter < base {
            Some(base)
        } else {
            None
        };
        AcquirePlan { wait_value, bump_to }
    }
}

/// Presents the acquired image once rendering completes. The device calls
/// live in the device layer; this type decides the wait before them.
pub struct PresentFramebuffer;

impl PresentFramebuffer {
    /// The timeline value whose completion the present submission waits
    /// on: the render-complete step of this frame's timeline span.
    pub fn wait_value(frame_number: u64) -> (r: u64)
        ensures
            r == spec_sat64(frame_number * TIMELINE_STAGES + RENDER_COMPLETE_STAGE),
    {
        let base = frame_base(frame_number);
        base.saturating_add(RENDER_COMPLETE_STAGE)
    }
}

} // verus!

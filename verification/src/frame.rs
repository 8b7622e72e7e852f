//! Frame pacing of the window renderer: which set of per-frame resources a
//! frame uses, and what it does after acquiring and after presenting a
//! swapchain image.
use vstd::prelude::*;

verus! {

/// How many frames may be in flight at once; each has its own fence,
/// semaphore and command buffer.
pub const FRAMES_IN_FLIGHT: usize = 2;

/// How acquiring the next swapchain image came back.
#[derive(Debug, Clone, Copy, PartialEq, Eq)]
pub enum AcquireOutcome {
    /// An image was handed out (whether or not the swapchain is suboptimal).
    Image { index: u32 },
    /// The swapchain no longer matches the surface.
    OutOfDate,
    /// Any other error.
    Failed,
}

/// What a frame does once the acquire came back.
#[derive(Debug, Clone, Copy, PartialEq, Eq)]
pub enum AcquireStep {
    /// Record and submit into this image.
    Draw { image: u32 },
    /// Recreate the swapchain and end the frame without drawing; the frame
    /// counter stays where it is.
    RecreateAndSkip,
    /// End the frame with the error.
    Fail,
}

/// How presenting the image came back.
#[derive(Debug, Clone, Copy, PartialEq, Eq)]
pub enum PresentOutcome {
    Presented,
    Suboptimal,
    OutOfDate,
    Failed,
}

/// What a frame does once the present came back.
#[derive(Debug, Clone, Copy, PartialEq, Eq)]
pub enum PresentStep {
    /// The frame is done: move on to the next frame.
    Advance,
    /// Recreate the swapchain, then move on to the next frame.
    RecreateThenAdvance,
    /// End the frame with the error; the frame counter stays where it is.
    Fail,
}

/// The step after an acquire.
pub open spec fn acquire_step_spec(outcome: AcquireOutcome) -> AcquireStep {
    match outcome {
        AcquireOutcome::Image { index } => AcquireStep::Draw { image: index },
        AcquireOutcome::OutOfDate => AcquireStep::RecreateAndSkip,
        AcquireOutcome::Failed => AcquireStep::Fail,
    }
}

/// The step after a present: a suboptimal swapchain is kept.
pub open spec fn present_step_spec(outcome: PresentOutcome) -> PresentStep {
    match outcome {
        PresentOutcome::Presented => PresentStep::Advance,
        PresentOutcome::Suboptimal => PresentStep::Advance,
        PresentOutcome::OutOfDate => PresentStep::RecreateThenAdvance,
        PresentOutcome::Failed => PresentStep::Fail,
    }
}

/// Decides what a frame does after acquiring an image.
pub fn acquire_step(outcome: AcquireOutcome) -> (s: AcquireStep)
    ensures
        s == acquire_step_spec(outcome),
{
    match outcome {
        AcquireOutcome::Image { index } => AcquireStep::Draw { image: index },
        AcquireOutcome::OutOfDate => AcquireStep::RecreateAndSkip,
        AcquireOutcome::Failed => AcquireStep::Fail,
    }
}

/// Decides what a frame does after presenting its image.
pub fn present_step(outcome: PresentOutcome) -> (s: PresentStep)
    ensures
        s == present_step_spec(outcome),
{
    match outcome {
        PresentOutcome::Presented => PresentStep::Advance,
        PresentOutcome::Suboptimal => PresentStep::Advance,
        PresentOutcome::OutOfDate => PresentStep::RecreateThenAdvance,
        PresentOutcome::Failed => PresentStep::Fail,
    }
}

/// The slot of per-frame resources that frame number `frame` uses.
pub open spec fn slot_of(frame: int) -> int {
    frame % (FRAMES_IN_FLIGHT as int)
}

/// The frame number after `frame`, wrapping around at the top of `usize`.
pub open spec fn next_frame(frame: usize) -> usize {
    if frame == usize::MAX {
        0
    } else {
        (frame + 1) as usize
    }
}

/// The running frame counter of the window renderer.
pub struct FramePacer {
    frame: usize,
}

impl View for FramePacer {
    type V = usize;

    closed spec fn view(&self) -> usize {
        self.frame
    }
}

impl FramePacer {
    /// A counter at the first frame.
    pub fn new() -> (p: Self)
        ensures
            p@ == 0,
    {
        FramePacer { frame: 0 }
    }

    /// The slot of per-frame resources the current frame uses.
    pub fn slot(&self) -> (s: usize)
        ensures
            s == slot_of(self@ as int),
            s < FRAMES_IN_FLIGHT,
    {
        self.frame % FRAMES_IN_FLIGHT
    }

    /// Moves on to the next frame.
    pub fn advance(&mut self)
        ensures
            final(self)@ == next_frame(old(self)@),
    {
        self.frame = self.frame.wrapping_add(1);
    }
}

/// Two frames in a row never use the same slot, so a frame never waits on
/// the fence of the frame just before it, across the wrap of the counter too.
pub proof fn lemma_consecutive_frames_differ(frame: usize)
    ensures
        slot_of(next_frame(frame) as int) != slot_of(frame as int),
{
    assert(usize::MAX % 2 == 1) by {
        assert(usize::MAX == 0xffff_ffff || usize::MAX == 0xffff_ffff_ffff_ffff);
    }
}

} // verus!

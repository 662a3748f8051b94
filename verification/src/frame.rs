//! What the engine does with each frame and each change of window size.

use vstd::prelude::*;

verus! {

/// What getting the next surface texture to draw on gave.
#[derive(Clone, Copy, Debug, PartialEq, Eq, Structural)]
pub enum SurfaceStatus {
    /// A texture is ready.
    Ready,
    /// Getting the texture took too long.
    Timeout,
    /// The surface changed and must be configured again.
    Outdated,
    /// The surface is gone.
    Lost,
    /// There is no memory left for a new texture.
    OutOfMemory,
}

/// What the engine does next in a frame.
#[derive(Clone, Copy, Debug, PartialEq, Eq, Structural)]
pub enum FrameAction {
    /// Render the frame.
    Render,
    /// Configure the surface again at the current window size.
    ForceResize,
    /// Ask the event loop to exit.
    Exit,
    /// Skip drawing this frame.
    Skip,
}

/// The action that follows the attempt to start a render pass: render when
/// a texture is ready, configure the surface again when it was lost, exit
/// when memory ran out, and otherwise skip the frame.
pub fn frame_action(status: SurfaceStatus) -> (r: FrameAction)
    ensures
        r == (match status {
            SurfaceStatus::Ready => FrameAction::Render,
            SurfaceStatus::Lost => FrameAction::ForceResize,
            SurfaceStatus::OutOfMemory => FrameAction::Exit,
            _ => FrameAction::Skip,
        }),
{
    match status {
        SurfaceStatus::Ready => FrameAction::Render,
        SurfaceStatus::Lost => FrameAction::ForceResize,
        SurfaceStatus::OutOfMemory => FrameAction::Exit,
        SurfaceStatus::Timeout => FrameAction::Skip,
        SurfaceStatus::Outdated => FrameAction::Skip,
    }
}

/// Whether a new window size is used to configure the surface: only when
/// neither side is zero.
pub fn should_resize(width: u32, height: u32) -> (r: bool)
    ensures
        r == (width > 0 && height > 0),
{
    width > 0 && height > 0
}

} // verus!

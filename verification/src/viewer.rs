//! What the viewer window does with each window event: the decisions of the
//! event loop, apart from the work of carrying them out.
use vstd::prelude::*;

verus! {

/// The keys the viewer itself reacts to; every other key is `Other`.
#[derive(Debug, Clone, Copy, PartialEq, Eq, Structural)]
pub enum ViewerKey {
    Escape,
    Tab,
    Backquote,
    Other,
}

/// A window event, as far as the viewer's decisions go.
#[derive(Debug, Clone, Copy, PartialEq, Eq)]
pub enum WindowInput {
    CloseRequested,
    Resized { width: u32, height: u32 },
    /// A mouse button went down.
    MousePressed,
    /// A key with a physical key code went down (`pressed`) or up.
    Key { key: ViewerKey, pressed: bool },
    RedrawRequested,
    /// Anything else.
    Other,
}

/// What the event loop does next.
#[derive(Debug, Clone, Copy, PartialEq, Eq)]
pub enum ViewerAction {
    /// Leave the event loop.
    Exit,
    /// Recreate the swapchain at this size.
    Resize { width: u32, height: u32 },
    GrabCursor,
    ReleaseCursor,
    ToggleOverlay,
    /// Hand the key to the fly camera.
    CameraKey { pressed: bool },
    /// Run one frame: tick the clock, move the camera, draw.
    Frame,
    Nothing,
}

/// The viewer's decision. While the cursor is free, events that the overlay
/// consumed go no further. Escape releases a grabbed cursor and otherwise
/// quits; Tab grabs or releases the cursor; the backquote key shows or hides
/// the overlay; other keys move the camera, but only while the cursor is
/// grabbed; a click grabs a free cursor; a resize never asks for an empty
/// swapchain.
pub open spec fn decide_spec(cursor_grabbed: bool, overlay_consumed: bool, input: WindowInput)
    -> ViewerAction {
    if !cursor_grabbed && overlay_consumed {
        ViewerAction::Nothing
    } else {
        match input {
            WindowInput::CloseRequested => ViewerAction::Exit,
            WindowInput::Resized { width, height } => ViewerAction::Resize {
                width: if width >= 1 {
                    width
                } else {
                    1
                },
                height: if height >= 1 {
                    height
                } else {
                    1
                },
            },
            WindowInput::MousePressed => if !cursor_grabbed {
                ViewerAction::GrabCursor
            } else {
                ViewerAction::Nothing
            },
            WindowInput::Key { key, pressed } => if pressed && key == ViewerKey::Escape {
                if cursor_grabbed {
                    ViewerAction::ReleaseCursor
                } else {
                    ViewerAction::Exit
                }
            } else if pressed && key == ViewerKey::Tab {
                if cursor_grabbed {
                    ViewerAction::ReleaseCursor
                } else {
                    ViewerAction::GrabCursor
                }
            } else if pressed && key == ViewerKey::Backquote {
                ViewerAction::ToggleOverlay
            } else if cursor_grabbed {
                ViewerAction::CameraKey { pressed }
            } else {
                ViewerAction::Nothing
            },
            WindowInput::RedrawRequested => ViewerAction::Frame,
            WindowInput::Other => ViewerAction::Nothing,
        }
    }
}

/// Decides what the viewer does with a window event, given whether the
/// cursor is grabbed and whether the overlay consumed the event.
pub fn decide(cursor_grabbed: bool, overlay_consumed: bool, input: WindowInput) -> (a:
    ViewerAction)
    ensures
        a == decide_spec(cursor_grabbed, overlay_consumed, input),
{
    if !cursor_grabbed && overlay_consumed {
        return ViewerAction::Nothing;
    }
    match input {
        WindowInput::CloseRequested => ViewerAction::Exit,
        WindowInput::Resized { width, height } => ViewerAction::Resize {
            width: if width >= 1 {
                width
            } else {
                1
            },
            height: if height >= 1 {
                height
            } else {
                1
            },
        },
        WindowInput::MousePressed => {
            if !cursor_grabbed {
                ViewerAction::GrabCursor
            } else {
                ViewerAction::Nothing
            }
        },
        WindowInput::Key { key, pressed } => {
            if pressed && key == ViewerKey::Escape {
                if cursor_grabbed {
                    ViewerAction::ReleaseCursor
                } else {
                    ViewerAction::Exit
                }
            } else if pressed && key == ViewerKey::Tab {
                if cursor_grabbed {
                    ViewerAction::ReleaseCursor
                } else {
                    ViewerAction::GrabCursor
                }
            } else if pressed && key == ViewerKey::Backquote {
                ViewerAction::ToggleOverlay
            } else if cursor_grabbed {
                ViewerAction::CameraKey { pressed }
            } else {
                ViewerAction::Nothing
            }
        },
        WindowInput::RedrawRequested => ViewerAction::Frame,
        WindowInput::Other => ViewerAction::Nothing,
    }
}

/// While the cursor is grabbed, Escape gives it back instead of quitting,
/// and the camera only ever moves while it is grabbed.
pub proof fn lemma_grabbed_cursor_protects(
    cursor_grabbed: bool,
    overlay_consumed: bool,
    input: WindowInput,
)
    ensures
        cursor_grabbed && input == (WindowInput::Key { key: ViewerKey::Escape, pressed: true })
            ==> decide_spec(cursor_grabbed, overlay_consumed, input) == ViewerAction::ReleaseCursor,
        decide_spec(cursor_grabbed, overlay_consumed, input) is CameraKey ==> cursor_grabbed,
        decide_spec(cursor_grabbed, overlay_consumed, input) is GrabCursor ==> !cursor_grabbed,
        decide_spec(cursor_grabbed, overlay_consumed, input) is ReleaseCursor ==> cursor_grabbed,
{
}

/// A resize never asks for a swapchain without pixels.
pub proof fn lemma_resize_never_empty(
    cursor_grabbed: bool,
    overlay_consumed: bool,
    input: WindowInput,
)
    ensures
        decide_spec(cursor_grabbed, overlay_consumed, input) matches ViewerAction::Resize {
            width,
            height,
        } ==> width >= 1 && height >= 1,
{
}

/// An event the overlay did not take reaches the viewer: a close request
/// always leaves the loop, a redraw always runs a frame, the backquote key
/// always shows or hides the overlay, and a resize to a non-empty size asks
/// for exactly that size. Only an event the overlay took while the cursor is
/// free does nothing. While the cursor is grabbed, every other key goes to
/// the camera, pressed or released.
pub proof fn lemma_unconsumed_events_reach_viewer(
    cursor_grabbed: bool,
    overlay_consumed: bool,
    width: u32,
    height: u32,
    input: WindowInput,
)
    ensures
        !(!cursor_grabbed && overlay_consumed) ==> {
            &&& decide_spec(cursor_grabbed, overlay_consumed, WindowInput::CloseRequested)
                == ViewerAction::Exit
            &&& decide_spec(cursor_grabbed, overlay_consumed, WindowInput::RedrawRequested)
                == ViewerAction::Frame
            &&& decide_spec(
                cursor_grabbed,
                overlay_consumed,
                WindowInput::Key { key: ViewerKey::Backquote, pressed: true },
            ) == ViewerAction::ToggleOverlay
            &&& width >= 1 && height >= 1 ==> decide_spec(
                cursor_grabbed,
                overlay_consumed,
                WindowInput::Resized { width, height },
            ) == (ViewerAction::Resize { width, height })
        },
        !cursor_grabbed && overlay_consumed ==> decide_spec(
            cursor_grabbed,
            overlay_consumed,
            input,
        ) == ViewerAction::Nothing,
        !cursor_grabbed && !overlay_consumed ==> decide_spec(
            cursor_grabbed,
            overlay_consumed,
            WindowInput::Key { key: ViewerKey::Escape, pressed: true },
        ) == ViewerAction::Exit,
        forall|pressed: bool|
            cursor_grabbed ==> #[trigger] decide_spec(
                cursor_grabbed,
                overlay_consumed,
                WindowInput::Key { key: ViewerKey::Other, pressed },
            ) == (ViewerAction::CameraKey { pressed }),
{
}

} // verus!

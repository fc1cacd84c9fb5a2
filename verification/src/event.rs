//! Plain types of the visual planner and the routing decision of its event
//! manager: which component each kind of event is forwarded to.
use vstd::prelude::*;

verus! {

/// A scroll direction.
#[derive(Debug, PartialEq, Eq, PartialOrd, Clone, Copy, Structural)]
pub enum ScrollDirection {
    Up,
    Down,
}

/// The identity of a widget of the interface.
#[derive(Debug, PartialEq, Eq, PartialOrd, Clone, Copy, Hash, Structural)]
pub struct GuiWidgetID(pub usize);

/// The kinds of message that reach the event manager.
#[derive(Debug, PartialEq, Eq, Clone, Copy, Structural)]
pub enum MessageKind {
    RendererScreenResize,
    RendererScroll,
    RendererClick,
    RendererMotion,
    Redraw,
    DialogRedraw,
    SetDialogInputState,
    SetCursor,
    WindowMove,
    BoxConstructRequest,
    ConstructResult,
    DialogTimer,
}

/// The components the event manager forwards messages to.
#[derive(Debug, PartialEq, Eq, Clone, Copy, Structural)]
pub enum Destination {
    Renderer,
    Gui,
}

/// Where a message of kind `kind` goes: resize, scroll, click, motion and
/// dialog-state messages to the renderer; redraw and cursor messages to the
/// interface; every other kind nowhere.
pub open spec fn destination(kind: MessageKind) -> Option<Destination> {
    match kind {
        MessageKind::RendererScreenResize | MessageKind::RendererScroll | MessageKind::RendererClick
        | MessageKind::RendererMotion | MessageKind::SetDialogInputState => Some(Destination::Renderer),
        MessageKind::Redraw | MessageKind::SetCursor => Some(Destination::Gui),
        _ => None,
    }
}

/// Decides where the event manager forwards a message of kind `kind`,
/// given which outgoing channels are connected: nowhere when its
/// destination has no channel.
pub fn route(kind: MessageKind, renderer_connected: bool, gui_connected: bool) -> (d: Option<Destination>)
    ensures
        d == match destination(kind) {
            Some(Destination::Renderer) => if renderer_connected {
                Some(Destination::Renderer)
            } else {
                None
            },
            Some(Destination::Gui) => if gui_connected {
                Some(Destination::Gui)
            } else {
                None
            },
            None => None,
        },
{
    match kind {
        MessageKind::RendererScreenResize | MessageKind::RendererScroll | MessageKind::RendererClick
        | MessageKind::RendererMotion | MessageKind::SetDialogInputState => {
            if renderer_connected {
                Some(Destination::Renderer)
            } else {
                None
            }
        },
        MessageKind::Redraw | MessageKind::SetCursor => {
            if gui_connected {
                Some(Destination::Gui)
            } else {
                None
            }
        },
        _ => None,
    }
}

} // verus!

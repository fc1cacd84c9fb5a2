use workbench::event::{route, Destination, GuiWidgetID, MessageKind, ScrollDirection};
use workbench::id::IDError;

#[test]
fn renderer_events_go_to_the_renderer() {
    for kind in [
        MessageKind::RendererScreenResize,
        MessageKind::RendererScroll,
        MessageKind::RendererClick,
        MessageKind::RendererMotion,
        MessageKind::SetDialogInputState,
    ] {
        assert_eq!(route(kind, true, true), Some(Destination::Renderer));
        assert_eq!(route(kind, false, true), None);
    }
}

#[test]
fn interface_events_go_to_the_interface() {
    for kind in [MessageKind::Redraw, MessageKind::SetCursor] {
        assert_eq!(route(kind, true, true), Some(Destination::Gui));
        assert_eq!(route(kind, true, false), None);
    }
}

#[test]
fn other_events_go_nowhere() {
    for kind in [
        MessageKind::DialogRedraw,
        MessageKind::WindowMove,
        MessageKind::BoxConstructRequest,
        MessageKind::ConstructResult,
        MessageKind::DialogTimer,
    ] {
        assert_eq!(route(kind, true, true), None);
    }
}

#[test]
fn plain_types_compare_by_value() {
    assert_eq!(GuiWidgetID(3), GuiWidgetID(3));
    assert!(GuiWidgetID(2) < GuiWidgetID(3));
    assert_ne!(ScrollDirection::Up, ScrollDirection::Down);
    assert_eq!(IDError::IDOutDated.name(), "IDOutDated");
    assert_eq!(IDError::IDOutOfRange.name(), "IDOutOfRange");
    assert_eq!(IDError::IDDeleted.name(), "IDDeleted");
}

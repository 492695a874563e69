use way_cooler::compositor::{
    drag_geometry, resize_edges_at, Compositor, Modifiers, PointerEffect, ResizeEdge, ViewAction,
    BUTTON_LEFT, BUTTON_RIGHT,
};
use way_cooler::container::{Container, ContainerType, Geometry, Handle, Point, Size};
use way_cooler::handlers::{MouseState, OutputManager, RootState};
use way_cooler::registry::{RegistryAccess, RegistryError};
use way_cooler::tree::{FocusRequest, LayoutError, LayoutTree};

const OUTPUT: u64 = 1;

fn size() -> Size {
    Size { h: 800, w: 600 }
}

fn geometry() -> Geometry {
    Geometry { size: size(), origin: Point { x: 0, y: 0 } }
}

fn workspace_name(tree: &LayoutTree, ix: usize) -> String {
    tree.tree().get(ix).unwrap().get_name().unwrap().clone()
}

/// One output and two workspaces: the first holds one view, which is
/// active; the second holds two views.
fn basic_tree() -> LayoutTree {
    let mut tree = LayoutTree::new();
    tree.add_output(OUTPUT, size()).unwrap();
    tree.add_view(10, geometry()).unwrap();
    tree.switch_to_workspace("2").unwrap();
    tree.add_view(20, geometry()).unwrap();
    tree.add_view(21, geometry()).unwrap();
    tree.switch_to_workspace("1").unwrap();
    tree
}

/// Ensures that getting the active container always returns either
/// a view, a container, or nothing.
#[test]
fn active_container_tests() {
    let simple_tree = basic_tree();
    {
        let active_container = simple_tree.get_active_container().unwrap();
        let view_ix = simple_tree.active_ix_of(ContainerType::View).unwrap();
        assert_eq!(active_container.get_type(), ContainerType::View);
        assert_eq!(simple_tree.tree().get(view_ix).unwrap().get_handle(), Some(Handle::View(10)));
        match *active_container {
            Container::View { .. } | Container::Container { .. } => {}
            _ => panic!("Active container was not a view or container!"),
        }
    }
    {
        let active_workspace = simple_tree.get_active_workspace().unwrap();
        let workspace_ix = simple_tree.active_ix_of(ContainerType::Workspace).unwrap();
        assert_eq!(workspace_name(&simple_tree, workspace_ix), "1");
        match *active_workspace {
            Container::Workspace { ref name, .. } => assert_eq!(name.as_str(), "1"),
            _ => panic!("get_active_workspace did not return a workspace"),
        }
    }
    {
        let active_output = simple_tree.get_active_output().unwrap();
        match *active_output {
            Container::Output { ref handle, .. } => assert_eq!(*handle, OUTPUT),
            _ => panic!("get_active_output did not return an output"),
        }
    }
}

/// Tests workspace functions, ensuring we can get workspaces and new
/// ones are properly generated with a root container when we request one
/// that doesn't yet exist
#[test]
fn workspace_tests() {
    let tree = basic_tree();
    let workspace_1_ix = tree.workspace_ix_by_name("1").expect("Workspace 1 did not exist");
    assert_eq!(tree.tree().node_type(workspace_1_ix), Some(ContainerType::Workspace));
    assert_eq!(workspace_name(&tree, workspace_1_ix), "1");
    let workspace_2_ix = tree.workspace_ix_by_name("2").expect("Workspace 2 did not exist");
    assert_eq!(tree.tree().node_type(workspace_2_ix), Some(ContainerType::Workspace));
    assert_eq!(workspace_name(&tree, workspace_2_ix), "2");
    assert!(tree.workspace_ix_by_name("3").is_none(), "Workspace three existed, expected it not to");
    let _output_ix = tree.active_ix_of(ContainerType::Output).expect("No active output");
}

/// Tests the view functions
#[test]
fn view_tests() {
    let mut tree = basic_tree();
    let active_container = tree.active_ix().expect("No active container");
    let parent_container = tree.tree().parent_of(active_container).unwrap();
    // When the active container is a view, add it as a sibling
    assert_eq!(tree.tree().children_of(parent_container).len(), 1);
    tree.add_view(11, geometry()).unwrap();
    assert_eq!(tree.tree().children_of(parent_container).len(), 2);
}

#[test]
fn output_scenario_switch_away_and_back() {
    let mut tree = LayoutTree::new();
    tree.add_output(OUTPUT, size()).unwrap();
    // workspace "1" with one empty container, which is active
    let ws1 = tree.workspace_ix_by_name("1").unwrap();
    let ws1_children = tree.tree().children_of(ws1);
    assert_eq!(ws1_children.len(), 1);
    let root_container_1 = ws1_children[0];
    assert_eq!(tree.tree().node_type(root_container_1), Some(ContainerType::Container));
    assert_eq!(tree.tree().children_of(root_container_1).len(), 0);
    assert_eq!(tree.active_ix(), Some(root_container_1));

    // view A becomes a child of that container and active
    tree.add_view(100, geometry()).unwrap();
    let view_a = tree.active_ix().unwrap();
    assert_eq!(tree.tree().parent_of(view_a), Some(root_container_1));
    assert_eq!(tree.tree().node_type(view_a), Some(ContainerType::View));

    // switching to "2": "1" is hidden but kept, "2" is made with a root container
    tree.switch_to_workspace("2").unwrap();
    assert!(tree.tree().contains(ws1));
    assert!(!tree.tree().get(ws1).unwrap().is_visible());
    assert!(!tree.tree().get(view_a).unwrap().is_visible());
    let ws2 = tree.workspace_ix_by_name("2").unwrap();
    let ws2_children = tree.tree().children_of(ws2);
    assert_eq!(ws2_children.len(), 1);
    assert_eq!(tree.active_ix(), Some(ws2_children[0]));
    assert!(tree.tree().get(ws2).unwrap().is_visible());

    // switching back: the empty "2" is deleted, "1" shows again, A is active
    tree.switch_to_workspace("1").unwrap();
    assert!(tree.workspace_ix_by_name("2").is_none());
    assert!(tree.tree().get(ws1).unwrap().is_visible());
    assert!(tree.tree().get(view_a).unwrap().is_visible());
    assert_eq!(tree.active_ix(), Some(view_a));
    assert_eq!(tree.take_focus_requests().last(), Some(&FocusRequest::View(100)));
}

#[test]
fn send_scenario_moves_only_the_active_view() {
    let mut tree = LayoutTree::new();
    tree.add_output(OUTPUT, size()).unwrap();
    tree.add_view(1, geometry()).unwrap();
    let view_a = tree.active_ix().unwrap();
    tree.add_view(2, geometry()).unwrap();
    let view_b = tree.active_ix().unwrap();
    let ws1 = tree.workspace_ix_by_name("1").unwrap();
    let root_container_1 = tree.tree().children_of(ws1)[0];
    assert_eq!(tree.tree().children_of(root_container_1), vec![view_a, view_b]);

    tree.send_active_to_workspace("2").unwrap();
    // "1" still holds A, visible and not deleted
    assert!(tree.tree().contains(ws1));
    assert_eq!(tree.tree().children_of(root_container_1), vec![view_a]);
    assert!(tree.tree().get(ws1).unwrap().is_visible());
    assert!(tree.tree().get(view_a).unwrap().is_visible());
    // "2" holds B below its fresh root container
    let ws2 = tree.workspace_ix_by_name("2").unwrap();
    let ws2_children = tree.tree().children_of(ws2);
    assert_eq!(ws2_children.len(), 1);
    assert_eq!(tree.tree().node_type(ws2_children[0]), Some(ContainerType::Container));
    assert_eq!(tree.tree().children_of(ws2_children[0]), vec![view_b]);
    // focus went back to A
    assert_eq!(tree.active_ix(), Some(view_a));
    assert_eq!(tree.take_focus_requests(), vec![FocusRequest::View(1)]);
}

#[test]
fn switching_twice_is_a_no_op() {
    let mut tree = basic_tree();
    tree.switch_to_workspace("2").unwrap();
    let active = tree.active_ix();
    let queued = tree.take_focus_requests().len();
    assert!(queued > 0);
    tree.switch_to_workspace("2").unwrap();
    assert_eq!(tree.active_ix(), active);
    assert!(tree.take_focus_requests().is_empty());
    let ws2 = tree.workspace_ix_by_name("2").unwrap();
    assert!(tree.tree().get(ws2).unwrap().is_visible());
}

#[test]
fn removing_the_only_view_leaves_an_empty_root_container() {
    let mut tree = LayoutTree::new();
    tree.add_output(OUTPUT, size()).unwrap();
    tree.add_view(5, geometry()).unwrap();
    tree.remove_view(5).unwrap();
    let ws1 = tree.workspace_ix_by_name("1").unwrap();
    let children = tree.tree().children_of(ws1);
    assert_eq!(children.len(), 1);
    assert_eq!(tree.tree().node_type(children[0]), Some(ContainerType::Container));
    assert_eq!(tree.tree().children_of(children[0]).len(), 0);
    // focus recovery put the active pointer on that container
    assert_eq!(tree.active_ix(), Some(children[0]));
    assert_eq!(tree.take_focus_requests(), vec![FocusRequest::Root]);
}

#[test]
fn removing_the_active_view_focuses_a_sibling() {
    let mut tree = LayoutTree::new();
    tree.add_output(OUTPUT, size()).unwrap();
    tree.add_view(5, geometry()).unwrap();
    let first = tree.active_ix().unwrap();
    tree.add_view(6, geometry()).unwrap();
    tree.remove_view(6).unwrap();
    assert_eq!(tree.active_ix(), Some(first));
    assert_eq!(tree.take_focus_requests(), vec![FocusRequest::View(5)]);
    // removing a view that is not active leaves the active pointer alone
    tree.add_view(7, geometry()).unwrap();
    let seven = tree.active_ix().unwrap();
    tree.remove_view(5).unwrap();
    assert_eq!(tree.active_ix(), Some(seven));
}

#[test]
fn removing_an_unknown_view_is_reported() {
    let mut tree = basic_tree();
    assert_eq!(tree.remove_view(999), Err(LayoutError::ViewNotFound(999)));
    assert_eq!(tree.active_ix_of(ContainerType::View).is_some(), true);
}

#[test]
fn operations_without_an_output() {
    let mut tree = LayoutTree::new();
    assert_eq!(tree.add_view(1, geometry()), Err(LayoutError::NoActiveContainer));
    assert_eq!(tree.switch_to_workspace("1"), Err(LayoutError::NoActiveContainer));
    assert_eq!(tree.send_active_to_workspace("1"), Err(LayoutError::NoActiveContainer));
    assert!(tree.get_active_container().is_none());
    assert!(tree.get_active_workspace().is_none());
    assert!(tree.get_active_output().is_none());
}

#[test]
fn sending_refusals() {
    let mut tree = LayoutTree::new();
    tree.add_output(OUTPUT, size()).unwrap();
    // the active container is the workspace's root container
    assert_eq!(tree.send_active_to_workspace("2"), Err(LayoutError::RootContainerMove));
    tree.add_view(3, geometry()).unwrap();
    assert_eq!(tree.send_active_to_workspace("1"), Err(LayoutError::SameWorkspace));
    assert!(tree.workspace_ix_by_name("2").is_none());
}

#[test]
fn an_emptied_only_workspace_is_kept() {
    let mut tree = LayoutTree::new();
    tree.add_output(1, size()).unwrap();
    tree.add_output(2, size()).unwrap();
    // each output has a workspace "1"; the active one is on output 2
    let first = tree.workspace_ix_by_name("1").unwrap();
    let on_second = tree.active_ix_of(ContainerType::Workspace).unwrap();
    assert_ne!(first, on_second);
    // switching to "1" goes to the first one found, on output 1; the empty
    // workspace on output 2 stays, as it is that output's only workspace
    tree.switch_to_workspace("1").unwrap();
    assert_eq!(tree.active_ix_of(ContainerType::Workspace), Some(first));
    assert!(tree.tree().contains(on_second));
}

#[test]
fn drag_geometry_moves_and_resizes() {
    let geo = Geometry { origin: Point { x: 10, y: 20 }, size: Size { w: 200, h: 100 } };
    // a move
    let moved = drag_geometry(geo, ResizeEdge::empty(), 5, -7);
    assert_eq!(moved, Geometry { origin: Point { x: 15, y: 13 }, size: Size { w: 200, h: 100 } });
    // pulling the left edge left grows the view and moves its origin
    let left = ResizeEdge { left: true, ..ResizeEdge::empty() };
    let grown = drag_geometry(geo, left, -30, 0);
    assert_eq!(grown, Geometry { origin: Point { x: -20, y: 20 }, size: Size { w: 230, h: 100 } });
    // the bottom edge below the minimum height leaves the height alone
    let bottom = ResizeEdge { bottom: true, ..ResizeEdge::empty() };
    let kept = drag_geometry(geo, bottom, 0, -61);
    assert_eq!(kept, geo);
    let shrunk = drag_geometry(geo, bottom, 0, -60);
    assert_eq!(shrunk.size, Size { w: 200, h: 40 });
    // a width that would fall below 80 is refused on the right edge too
    let right = ResizeEdge { right: true, ..ResizeEdge::empty() };
    assert_eq!(drag_geometry(geo, right, -121, 0), geo);
    assert_eq!(drag_geometry(geo, right, -120, 0).size.w, 80);
    // moves clamp at the edge of the coordinate range
    let far = Geometry { origin: Point { x: i32::MAX - 1, y: 0 }, size: geo.size };
    assert_eq!(drag_geometry(far, ResizeEdge::empty(), 10, 0).origin.x, i32::MAX);
}

#[test]
fn resize_edges_follow_the_pointer() {
    let geo = Geometry { origin: Point { x: 0, y: 0 }, size: Size { w: 100, h: 50 } };
    let e = resize_edges_at(geo, Point { x: 10, y: 40 });
    assert_eq!(e, ResizeEdge { left: true, right: false, top: false, bottom: true });
    let centre = resize_edges_at(geo, Point { x: 50, y: 25 });
    assert!(centre.is_empty());
}

#[test]
fn interactive_drag_state_machine() {
    let mut comp = Compositor::new();
    let geo = Geometry { origin: Point { x: 0, y: 0 }, size: Size { w: 100, h: 100 } };
    assert!(comp.start_interactive_move(4, Point { x: 10, y: 10 }));
    // only one drag at a time
    assert!(!comp.start_interactive_move(5, Point { x: 0, y: 0 }));
    let step = comp.on_pointer_motion(Point { x: 15, y: 12 }, geo).unwrap();
    assert_eq!(step.0, 4);
    assert_eq!(step.2.origin, Point { x: 5, y: 2 });
    assert_eq!(comp.grab, Point { x: 15, y: 12 });
    assert_eq!(comp.stop_interactive_action(), Some(4));
    assert!(comp.on_pointer_motion(Point { x: 0, y: 0 }, geo).is_none());
    // a stale view is tolerated on release
    assert_eq!(comp.stop_interactive_action(), None);
}

#[test]
fn pointer_buttons_start_and_end_drags() {
    let mut comp = Compositor::new();
    let geo = Geometry { origin: Point { x: 0, y: 0 }, size: Size { w: 100, h: 100 } };
    let ctrl = Modifiers { ctrl: true, shift: false };
    let out = Size { w: 1920, h: 1080 };
    let (dragging, effects) =
        comp.on_pointer_button(8, false, ctrl, BUTTON_RIGHT, true, Point { x: 90, y: 5 }, geo, out);
    assert!(dragging);
    assert_eq!(
        effects,
        vec![
            PointerEffect::Focus(8),
            PointerEffect::BringToFront(8),
            PointerEffect::SetResizing(8, true)
        ]
    );
    assert_eq!(comp.edges, ResizeEdge { left: false, right: true, top: true, bottom: false });
    let (dragging, effects) =
        comp.on_pointer_button(8, false, ctrl, BUTTON_RIGHT, false, Point { x: 90, y: 5 }, geo, out);
    assert!(!dragging);
    assert_eq!(effects, vec![PointerEffect::SetResizing(8, false)]);
    // a press on the root window does nothing
    let (dragging, effects) =
        comp.on_pointer_button(0, true, ctrl, BUTTON_LEFT, true, Point { x: 1, y: 1 }, geo, out);
    assert!(!dragging);
    assert!(effects.is_empty());
    // Ctrl+Shift maximizes to the output
    let both = Modifiers { ctrl: true, shift: true };
    let (dragging, effects) =
        comp.on_pointer_button(8, false, both, 0, true, Point { x: 1, y: 1 }, geo, out);
    assert!(!dragging);
    assert_eq!(
        effects[3],
        PointerEffect::SetGeometry(8, ResizeEdge::empty(), Geometry { origin: Point { x: 0, y: 0 }, size: out })
    );
}

#[test]
fn small_types() {
    assert!(ViewAction::Move.is_some());
    assert!(!ViewAction::NoAction.is_some());
    assert_eq!(RootState::default().dummy, 0);
    assert_eq!(MouseState::default().dummy, 0);
    assert_eq!(OutputManager::new(), OutputManager);
    assert_ne!(RegistryAccess::Public, RegistryAccess::Private);
    assert_ne!(RegistryError::InvalidJson, RegistryError::KeyNotFound);
}

#[test]
fn a_drag_updates_the_view_geometry_only() {
    let mut tree = basic_tree();
    let view = tree.active_ix().unwrap();
    let parent = tree.tree().parent_of(view);
    let g = Geometry { origin: Point { x: 3, y: 4 }, size: Size { w: 90, h: 50 } };
    tree.set_view_geometry(10, g).unwrap();
    assert_eq!(tree.tree().get(view).unwrap().get_geometry(), Some(g));
    assert_eq!(tree.tree().parent_of(view), parent);
    assert_eq!(tree.active_ix(), Some(view));
    assert_eq!(tree.set_view_geometry(77, g), Err(LayoutError::ViewNotFound(77)));
}

#[test]
fn validate_succeeds_after_every_call() {
    let mut tree = LayoutTree::new();
    assert!(tree.validate());
    tree.add_output(1, size()).unwrap();
    assert!(tree.validate());
    tree.add_output(2, size()).unwrap();
    assert!(tree.validate());
    tree.add_view(10, geometry()).unwrap();
    assert!(tree.validate());
    tree.add_view(11, geometry()).unwrap();
    assert!(tree.validate());
    tree.send_active_to_workspace("3").unwrap();
    assert!(tree.validate());
    tree.switch_to_workspace("3").unwrap();
    assert!(tree.validate());
    tree.remove_view(11).unwrap();
    assert!(tree.validate());
    tree.switch_to_workspace("1").unwrap();
    assert!(tree.validate());
    assert_eq!(tree.remove_view(11), Err(LayoutError::ViewNotFound(11)));
    assert!(tree.validate());
    assert!(tree.tree().is_well_formed());
}

#[test]
fn grab_follows_the_pointer_when_the_view_is_gone() {
    let mut comp = Compositor::new();
    assert!(comp.start_interactive_move(4, Point { x: 1, y: 1 }));
    comp.follow_pointer(Point { x: 9, y: 8 });
    assert_eq!(comp.grab, Point { x: 9, y: 8 });
    assert_eq!(comp.view, Some(4));
}

use way_cooler::container::{Container, ContainerType};
use way_cooler::node::Node;

/// Nodes can have children added to them
#[test]
fn add_child() {
    let mut root = Node::new(Container::Root);
    root.new_child(Container::Root);
    root.new_child(Container::Root); // This is okay
    {
        let third_child = root.new_child(Container::Root);
        third_child.new_child(Container::Root);
    }
    root.new_child(Container::Root); // Now this works
    assert_eq!(root.get_children().len(), 4);
}

#[test]
fn has_get_parent() {
    let mut root = Node::new(Container::Root);
    assert!(!root.has_parent(), "Root has a parent");

    let child = root.new_child(Container::Root);
    assert!(child.has_parent(), "Child does not have parent");
    assert_eq!(child.get_container_type(), ContainerType::Root);
    assert_eq!(root.get_container_type(), ContainerType::Root);
}

#[test]
fn removed_child_has_no_parent() {
    let mut root = Node::new(Container::Root);
    root.new_child(Container::Root);
    root.new_child(Container::Root);
    let child = root.remove_child_at(0);
    assert!(!child.has_parent());
    assert_eq!(root.get_children().len(), 1);
}

#[test]
fn moved_node_is_attached_last() {
    let mut root = Node::new(Container::Root);
    root.new_child(Container::Root);
    let other = Node::new(Container::Root);
    assert!(!other.has_parent());
    other.move_to(&mut root);
    assert_eq!(root.get_children().len(), 2);
    assert!(root.get_children()[1].has_parent());
}

#[test]
fn ancestor_of_type_along_a_path() {
    let size = way_cooler::container::Size { w: 800, h: 600 };
    let mut root = Node::new(Container::Root);
    {
        let output = root.new_child(Container::new_output(1, size));
        output.new_child(Container::new_workspace("1".to_string(), size));
    }
    // the workspace is at [0, 0]; its closest output ancestor is at depth 1
    assert_eq!(root.get_ancestor_of_type(&vec![0, 0], ContainerType::Output), Some(1));
    assert_eq!(root.get_ancestor_of_type(&vec![0, 0], ContainerType::Root), Some(0));
    assert_eq!(root.get_ancestor_of_type(&vec![0, 0], ContainerType::View), None);
    // a path that leads nowhere
    assert_eq!(root.get_ancestor_of_type(&vec![0, 3], ContainerType::Root), None);
    assert_eq!(root.get_ancestor_of_type(&vec![], ContainerType::Root), None);
}

#[test]
fn children_can_be_edited_in_place() {
    let mut root = Node::new(Container::Root);
    root.new_child(Container::Root);
    root.get_children_mut().clear();
    assert_eq!(root.get_children().len(), 0);
    assert_eq!(root.get_val().get_type(), ContainerType::Root);
}

fn small_tree() -> Node {
    let size = way_cooler::container::Size { w: 800, h: 600 };
    let geo = way_cooler::container::Geometry {
        origin: way_cooler::container::Point { x: 0, y: 0 },
        size,
    };
    let mut root = Node::new(Container::Root);
    {
        let output = root.new_child(Container::new_output(1, size));
        let workspace = output.new_child(Container::new_workspace("1".to_string(), size));
        let container = workspace.new_child(Container::new_container(geo));
        container.new_child(Container::new_view(40, geo));
        container.new_child(Container::new_view(41, geo));
    }
    root
}

#[test]
fn views_are_found_by_handle() {
    let root = small_tree();
    let found = root.find_view_by_handle(41).expect("view 41 is in the tree");
    assert_eq!(found.get_container_type(), ContainerType::View);
    assert!(found.has_parent());
    assert!(root.find_view_by_handle(42).is_none());
}

#[test]
fn removing_from_parent_by_path() {
    let mut root = small_tree();
    let path = vec![0, 0, 0, 0];
    let view = root.remove_from_parent(&path).expect("the path leads to view 40");
    assert!(!view.has_parent());
    assert_eq!(view.get_container_type(), ContainerType::View);
    assert!(root.find_view_by_handle(40).is_none());
    assert!(root.find_view_by_handle(41).is_some());
    // the root has no parent, and a path that leads nowhere removes nothing
    assert!(root.remove_from_parent(&vec![]).is_none());
    assert!(root.remove_from_parent(&vec![0, 5]).is_none());
}

#[test]
fn adding_a_sibling_by_path() {
    let mut root = small_tree();
    let geo = way_cooler::container::Geometry {
        origin: way_cooler::container::Point { x: 0, y: 0 },
        size: way_cooler::container::Size { w: 10, h: 10 },
    };
    let extra = Node::new(Container::new_view(50, geo));
    assert_eq!(root.add_sibling(&vec![0, 0, 0, 1], extra), Ok(()));
    assert!(root.find_view_by_handle(50).unwrap().has_parent());
    let container = &root.get_children()[0].get_children()[0].get_children()[0];
    assert_eq!(container.get_children().len(), 3);
    let lonely = Node::new(Container::new_view(51, geo));
    assert_eq!(root.add_sibling(&vec![], lonely), Err(()));
}

use way_cooler::container::{Container, ContainerType, Geometry, Point, Size};
use way_cooler::graph_tree::{NodeIndex, Tree, TreeError};

fn fake_size() -> Size {
    Size { h: 800, w: 600 }
}

fn fake_geometry() -> Geometry {
    Geometry { size: fake_size(), origin: Point { x: 0, y: 0 } }
}

/// One output, two workspaces; the first workspace has a single view in its
/// root container, the second a container with two views in it below its
/// root container.
fn basic_tree() -> (Tree, Vec<NodeIndex>) {
    let mut tree = Tree::new();
    let root_ix = tree.root_ix();
    let output_ix = tree.add_child(root_ix, Container::new_output(1, fake_size())).unwrap();
    let workspace_1_ix =
        tree.add_child(output_ix, Container::new_workspace("1".to_string(), fake_size())).unwrap();
    let root_container_1_ix =
        tree.add_child(workspace_1_ix, Container::new_container(fake_geometry())).unwrap();
    let workspace_2_ix =
        tree.add_child(output_ix, Container::new_workspace("2".to_string(), fake_size())).unwrap();
    let root_container_2_ix =
        tree.add_child(workspace_2_ix, Container::new_container(fake_geometry())).unwrap();
    let wkspc_1_view =
        tree.add_child(root_container_1_ix, Container::new_view(7, fake_geometry())).unwrap();
    let wkspc_2_container =
        tree.add_child(root_container_2_ix, Container::new_container(fake_geometry())).unwrap();
    let wkspc_2_sub_view_1 =
        tree.add_child(wkspc_2_container, Container::new_view(8, fake_geometry())).unwrap();
    let wkspc_2_sub_view_2 =
        tree.add_child(wkspc_2_container, Container::new_view(9, fake_geometry())).unwrap();
    let ixs = vec![
        output_ix,
        workspace_1_ix,
        root_container_1_ix,
        workspace_2_ix,
        root_container_2_ix,
        wkspc_1_view,
        wkspc_2_container,
        wkspc_2_sub_view_1,
        wkspc_2_sub_view_2,
    ];
    (tree, ixs)
}

#[test]
fn test_descendents_of() {
    let (basic_tree, _) = basic_tree();
    let children_of_root = basic_tree.all_descendants_of(&basic_tree.root_ix());
    assert_eq!(children_of_root.len(), 9);
    let simple_view = basic_tree
        .descendant_of_type(basic_tree.root_ix(), ContainerType::View)
        .expect("No view in the basic test tree");
    let children_of_view = basic_tree.all_descendants_of(&simple_view);
    assert_eq!(children_of_view.len(), 0);
}

#[test]
fn children_come_in_attach_order() {
    let (tree, ixs) = basic_tree();
    assert_eq!(tree.children_of(ixs[0]), vec![ixs[1], ixs[3]]);
    assert_eq!(tree.children_of(ixs[6]), vec![ixs[7], ixs[8]]);
    assert_eq!(tree.children_of(ixs[5]), Vec::<NodeIndex>::new());
    assert_eq!(tree.children_of(1000), Vec::<NodeIndex>::new());
}

#[test]
fn moving_a_child_puts_it_last() {
    let (mut tree, ixs) = basic_tree();
    // move the first sub view to the end of its own container
    tree.move_node(ixs[7], ixs[6]).unwrap();
    assert_eq!(tree.children_of(ixs[6]), vec![ixs[8], ixs[7]]);
}

#[test]
fn detach_and_reattach_keeps_place_after_older_siblings() {
    let (mut tree, ixs) = basic_tree();
    tree.detach(ixs[8]);
    assert!(!tree.has_parent(ixs[8]));
    assert_eq!(tree.children_of(ixs[6]), vec![ixs[7]]);
    tree.attach_child(ixs[6], ixs[8]).unwrap();
    assert_eq!(tree.children_of(ixs[6]), vec![ixs[7], ixs[8]]);
    assert_eq!(tree.parent_of(ixs[8]), Some(ixs[6]));
}

#[test]
fn illegal_children_are_refused() {
    let (mut tree, ixs) = basic_tree();
    let view = ixs[5];
    assert_eq!(
        tree.add_child(view, Container::new_container(fake_geometry())),
        Err(TreeError::InvalidChild { parent: ContainerType::View, child: ContainerType::Container })
    );
    assert_eq!(
        tree.add_child(tree.root_ix(), Container::new_view(3, fake_geometry())),
        Err(TreeError::InvalidChild { parent: ContainerType::Root, child: ContainerType::View })
    );
    assert_eq!(tree.add_child(1000, Container::Root), Err(TreeError::NodeNotFound));
    // attaching a node that has a parent
    assert_eq!(tree.attach_child(ixs[6], ixs[7]), Err(TreeError::HasParent));
}

#[test]
fn moving_a_node_below_itself_is_refused() {
    let (mut tree, ixs) = basic_tree();
    let before = tree.children_of(ixs[4]);
    assert_eq!(tree.move_node(ixs[6], ixs[6]), Err(TreeError::WouldCycle));
    // nothing changed
    assert_eq!(tree.parent_of(ixs[6]), Some(ixs[4]));
    assert_eq!(tree.children_of(ixs[4]), before);
}

#[test]
fn ancestors_and_handles() {
    let (tree, ixs) = basic_tree();
    assert_eq!(tree.ancestor_of_type(ixs[7], ContainerType::Workspace), Some(ixs[3]));
    assert_eq!(tree.ancestor_of_type(ixs[7], ContainerType::Container), Some(ixs[6]));
    assert_eq!(tree.ancestor_of_type(ixs[7], ContainerType::Root), Some(0));
    assert_eq!(tree.ancestor_of_type(ixs[7], ContainerType::View), None);
    assert_eq!(tree.descendant_with_handle(0, 9), Some(ixs[8]));
    assert_eq!(tree.descendant_with_handle(ixs[1], 9), None);
    assert_eq!(tree.descendant_of_type(ixs[3], ContainerType::View), Some(ixs[7]));
    assert_eq!(tree.node_type(ixs[2]), Some(ContainerType::Container));
}

#[test]
fn remove_frees_the_slot_and_cuts_links() {
    let (mut tree, ixs) = basic_tree();
    assert!(tree.remove(0).is_none());
    let removed = tree.remove(ixs[6]).unwrap();
    assert_eq!(removed.get_type(), ContainerType::Container);
    assert!(!tree.contains(ixs[6]));
    assert!(!tree.has_parent(ixs[7]));
    assert!(tree.remove(ixs[6]).is_none());
    // a new node takes the freed slot; other indices are untouched
    let again = tree.add_child(ixs[4], Container::new_container(fake_geometry())).unwrap();
    assert_eq!(again, ixs[6]);
    assert_eq!(tree.parent_of(ixs[5]), Some(ixs[2]));
}

#[test]
fn remove_subtree_takes_everything_below() {
    let (mut tree, ixs) = basic_tree();
    tree.remove_subtree(ixs[3]);
    for i in 3..9 {
        if i != 5 {
            assert!(!tree.contains(ixs[i]));
        }
    }
    assert!(tree.contains(ixs[5]));
    assert_eq!(tree.children_of(ixs[0]), vec![ixs[1]]);
    assert_eq!(tree.all_descendants_of(&0).len(), 4);
}

#[test]
fn visibility_reaches_the_whole_family() {
    let (mut tree, ixs) = basic_tree();
    tree.set_family_visible(ixs[3], false);
    for i in [3, 4, 6, 7, 8] {
        assert!(!tree.get(ixs[i]).unwrap().is_visible());
    }
    assert!(tree.get(ixs[5]).unwrap().is_visible());
    tree.set_family_visible(ixs[3], true);
    assert!(tree.get(ixs[8]).unwrap().is_visible());
}

#[test]
fn last_index() {
    let (tree, ixs) = basic_tree();
    assert!(tree.is_last_ix(ixs[8]));
    assert!(!tree.is_last_ix(ixs[0]));
    assert_eq!(tree.len(), 10);
}

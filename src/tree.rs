//! Window-manager rules on top of the arena: outputs, workspaces, views,
//! the active container, and focus recovery after structural change.
use vstd::prelude::*;

use crate::container::{
    legal_child, Container, ContainerType, Geometry, OutputHandle, Point, Size, ViewHandle,
};
use crate::graph_tree::{
    above, ancestor_of, attached, chain_ends, child_list, children_listed, desc_within, lemma_above_child,
    is_child, kind_at, lemma_attached_facts, lemma_max_key_frame, preorder_first, Target,
    lemma_fresh_facts, live, max_key, par, parent_at, slot, wf_slots, with_fresh, NodeIndex, Slot,
    Tree, TreeError,
};

verus! {

/// A request that a window (or the display root) take input focus. The tree
/// only queues these; the caller hands them to the display server once the
/// tree is released.
#[derive(Debug, Clone, Copy, PartialEq, Eq, Structural)]
pub enum FocusRequest {
    View(ViewHandle),
    Root,
}

/// Why a layout operation did nothing.
#[derive(Debug, Clone, Copy, PartialEq, Eq, Structural)]
pub enum LayoutError {
    /// There is no active container to act on.
    NoActiveContainer,
    /// No view holds this window handle.
    ViewNotFound(ViewHandle),
    /// The active container is its workspace's root container.
    RootContainerMove,
    /// The target workspace is the one the active container is on.
    SameWorkspace,
    /// The arena refused a structural change.
    Tree(TreeError),
}

/// Every node other than the root hangs below a parent.
pub open spec fn attached_all(s: Seq<Option<Slot>>) -> bool {
    forall|i: int| #[trigger] live(s, i) && i != 0 ==> parent_at(s, i) is Some
}

/// The shape of the layout: a well-formed arena where every node but the
/// root is attached, every output and workspace has a child, a workspace has
/// exactly one (its root container), and containers stand directly below
/// workspaces.
pub open spec fn layout_ok(s: Seq<Option<Slot>>) -> bool {
    &&& wf_slots(s)
    &&& attached_all(s)
    &&& forall|o: int|
        #[trigger] live(s, o) && (kind_at(s, o) == ContainerType::Output || kind_at(s, o)
            == ContainerType::Workspace) ==> exists|c: int| #[trigger] is_child(s, o, c)
    &&& forall|w: int, c1: int, c2: int|
        #[trigger] is_child(s, w, c1) && #[trigger] is_child(s, w, c2) && kind_at(s, w)
            == ContainerType::Workspace ==> c1 == c2
    &&& forall|c: int|
        #[trigger] live(s, c) && kind_at(s, c) == ContainerType::Container ==> kind_at(
            s,
            par(s, c),
        ) == ContainerType::Workspace
}

/// The active pointer, when set, names a live container or view.
pub open spec fn active_ok(s: Seq<Option<Slot>>, a: Option<NodeIndex>) -> bool {
    a matches Some(i) ==> live(s, i as int) && (kind_at(s, i as int) == ContainerType::Container
        || kind_at(s, i as int) == ContainerType::View)
}

/// The workspace a node is on.
pub open spec fn workspace_of(s: Seq<Option<Slot>>, n: int) -> Option<NodeIndex> {
    if live(s, n) && kind_at(s, n) == ContainerType::Workspace {
        Some(n as NodeIndex)
    } else {
        ancestor_of(s, n, ContainerType::Workspace)
    }
}

/// The layout tree: an arena, the active container, and the focus requests
/// not yet handed to the display server.
#[derive(Debug)]
pub struct LayoutTree {
    tree: Tree,
    active_container: Option<NodeIndex>,
    focus_requests: Vec<FocusRequest>,
}

/// A live node's chain ends at the root when every other node is attached.
pub proof fn lemma_reaches_root(s: Seq<Option<Slot>>, i: int, k: nat)
    requires
        wf_slots(s),
        attached_all(s),
        chain_ends(s, i, k),
    ensures
        desc_within(s, 0, i, k),
    decreases k,
{
    if i != 0 {
        let p = par(s, i);
        lemma_reaches_root(s, p, (k - 1) as nat);
    }
}

/// Every live node lies below the root.
pub proof fn lemma_below_root(s: Seq<Option<Slot>>, i: int)
    requires
        wf_slots(s),
        attached_all(s),
        live(s, i),
    ensures
        above(s, 0, i),
{
    let k = choose|k: nat| chain_ends(s, i, k);
    lemma_reaches_root(s, i, k);
}

proof fn lemma_max_key_none(s: Seq<Option<Slot>>, p: int, n: int)
    requires
        forall|j: int| 0 <= j < n ==> !#[trigger] is_child(s, p, j),
    ensures
        max_key(s, p, n) == 0,
    decreases n,
{
    if n > 0 {
        lemma_max_key_none(s, p, n - 1);
    }
}

/// `s2` is `s0` with the workspace `w` named `name` added below the output
/// `o`, after its other workspaces, holding one empty root container `c`
/// that covers `size`.
pub open spec fn workspace_added(
    s0: Seq<Option<Slot>>,
    s2: Seq<Option<Slot>>,
    o: int,
    w: int,
    c: int,
    name: Seq<char>,
    size: Size,
) -> bool {
    &&& !live(s0, w) && !live(s0, c) && w != c
    &&& live(s2, w) && slot(s2, w).parent is Some && par(s2, w) == o && slot(s2, w).key == max_key(
        s0,
        o,
        s0.len() as int,
    ) + 1 && slot(s2, w).val.workspace_name() == Some(name) && (slot(s2, w).val matches Container::Workspace { size: ws, visible: true, .. } && ws == size)
    &&& live(s2, c) && slot(s2, c).parent is Some && par(s2, c) == w && slot(s2, c).key == 1
        && slot(s2, c).val == Container::Container {
        geometry: Geometry { origin: Point { x: 0, y: 0 }, size },
        layout: crate::container::Layout::Horizontal,
        visible: true,
    }
    &&& forall|j: int| #[trigger] live(s2, j) == (live(s0, j) || j == w || j == c)
    &&& forall|j: int| #[trigger] live(s0, j) ==> s2[j] == s0[j]
}

/// The workspace added by `workspace_added` keeps the layout's shape where
/// the output was the only thing missing a child, or nothing was.
proof fn lemma_workspace_added_ok(
    s0: Seq<Option<Slot>>,
    s2: Seq<Option<Slot>>,
    o: int,
    w: int,
    c: int,
    name: Seq<char>,
    size: Size,
)
    requires
        wf_slots(s0),
        wf_slots(s2),
        attached_all(s0),
        live(s0, o),
        kind_at(s0, o) == ContainerType::Output,
        forall|x: int|
            #[trigger] live(s0, x) && x != o && (kind_at(s0, x) == ContainerType::Output || kind_at(
                s0,
                x,
            ) == ContainerType::Workspace) ==> exists|y: int| #[trigger] is_child(s0, x, y),
        forall|x: int, c1: int, c2: int|
            #[trigger] is_child(s0, x, c1) && #[trigger] is_child(s0, x, c2) && kind_at(s0, x)
                == ContainerType::Workspace ==> c1 == c2,
        forall|x: int|
            #[trigger] live(s0, x) && kind_at(s0, x) == ContainerType::Container ==> kind_at(
                s0,
                par(s0, x),
            ) == ContainerType::Workspace,
        workspace_added(s0, s2, o, w, c, name, size),
    ensures
        layout_ok(s2),
{
    assert forall|i: int| #[trigger] live(s2, i) && i != 0 implies parent_at(s2, i) is Some by {
        if live(s0, i) {
            assert(s2[i] == s0[i]);
        }
    }
    assert forall|x: int|
        #[trigger] live(s2, x) && (kind_at(s2, x) == ContainerType::Output || kind_at(s2, x)
            == ContainerType::Workspace) implies exists|y: int| #[trigger] is_child(s2, x, y) by {
        if x == w {
            assert(is_child(s2, w, c));
        } else if x == o {
            assert(is_child(s2, o, w));
        } else if x != c {
            assert(s2[x] == s0[x]);
            let y = choose|y: int| #[trigger] is_child(s0, x, y);
            assert(s2[y] == s0[y]);
            assert(is_child(s2, x, y));
        }
    }
    assert forall|x: int, c1: int, c2: int|
        #[trigger] is_child(s2, x, c1) && #[trigger] is_child(s2, x, c2) && kind_at(s2, x)
            == ContainerType::Workspace implies c1 == c2 by {
        assert(o != w);
        assert(s2[o] == s0[o]);
        if x == w {
            if c1 != c {
                assert(c1 != w);
                assert(live(s0, c1));
                assert(s2[c1] == s0[c1]);
                assert(is_child(s0, w, c1));
                assert(live(s0, par(s0, c1)));
            }
            if c2 != c {
                assert(c2 != w);
                assert(live(s0, c2));
                assert(s2[c2] == s0[c2]);
                assert(is_child(s0, w, c2));
                assert(live(s0, par(s0, c2)));
            }
        } else {
            assert(c1 != c && c2 != c);
            assert(c1 != w && c2 != w);
            assert(live(s0, c1) && live(s0, c2));
            assert(s2[c1] == s0[c1]);
            assert(s2[c2] == s0[c2]);
            assert(is_child(s0, x, c1));
            assert(live(s0, par(s0, c1)));
            assert(s2[x] == s0[x]);
            assert(is_child(s0, x, c2));
        }
    }
    assert forall|x: int|
        #[trigger] live(s2, x) && kind_at(s2, x) == ContainerType::Container implies kind_at(
        s2,
        par(s2, x),
    ) == ContainerType::Workspace by {
        if x != c && x != w {
            assert(s2[x] == s0[x]);
            assert(live(s0, par(s0, x)));
            assert(s2[par(s0, x)] == s0[par(s0, x)]);
        }
    }
}

/// `s3` is `s0` with the output `o` added below the root, after the other
/// outputs, holding the workspace `w` named "1" and its empty root container `c`.
pub open spec fn output_added(
    s0: Seq<Option<Slot>>,
    s3: Seq<Option<Slot>>,
    o: int,
    w: int,
    c: int,
    handle: OutputHandle,
    size: Size,
) -> bool {
    &&& !live(s0, o) && o != w && o != c
    &&& live(s3, o) && slot(s3, o).val == (Container::Output { handle, size })
        && slot(s3, o).parent == Some(0usize) && slot(s3, o).key == (max_key(
        s0,
        0,
        s0.len() as int,
    ) + 1) as u32
    &&& !live(s0, w) && !live(s0, c) && w != c
    &&& live(s3, w) && slot(s3, w).parent is Some && par(s3, w) == o && slot(s3, w).key == 1
        && slot(s3, w).val.workspace_name() == Some(seq!['1'])
        && (slot(s3, w).val matches Container::Workspace { size: ws, visible: true, .. } && ws == size)
    &&& live(s3, c) && slot(s3, c).parent is Some && par(s3, c) == w && slot(s3, c).key == 1
        && slot(s3, c).val == Container::Container {
        geometry: Geometry { origin: Point { x: 0, y: 0 }, size },
        layout: crate::container::Layout::Horizontal,
        visible: true,
    }
    &&& forall|j: int| #[trigger] live(s3, j) == (live(s0, j) || j == o || j == w || j == c)
    &&& forall|j: int| #[trigger] live(s0, j) ==> s3[j] == s0[j]
}

/// The container a new view goes into when `a` is active: `a` itself, or
/// the parent of `a` when `a` is a view.
pub open spec fn view_target(s: Seq<Option<Slot>>, a: int) -> int {
    if kind_at(s, a) == ContainerType::View {
        par(s, a)
    } else {
        a
    }
}

/// The focus request that goes with making `x` active.
pub open spec fn focus_for(s: Seq<Option<Slot>>, x: int) -> FocusRequest {
    match slot(s, x).val {
        Container::View { handle, .. } => FocusRequest::View(handle),
        _ => FocusRequest::Root,
    }
}

/// A view is a leaf, so deleting it changes nothing but its own slot.
proof fn lemma_remove_leaf_ok(s: Seq<Option<Slot>>, s2: Seq<Option<Slot>>, v: int)
    requires
        layout_ok(s),
        live(s, v),
        kind_at(s, v) == ContainerType::View,
        wf_slots(s2),
        s2 == crate::graph_tree::removed(s, v),
    ensures
        layout_ok(s2),
        forall|j: int| #[trigger] live(s2, j) == (live(s, j) && j != v),
        forall|j: int| live(s2, j) ==> #[trigger] s2[j] == s[j],
{
    assert forall|j: int| live(s2, j) implies #[trigger] s2[j] == s[j] by {
        if is_child(s, v, j) {
            assert(live(s, par(s, j)));
        }
    }
    assert forall|j: int| #[trigger] live(s2, j) == (live(s, j) && j != v) by {
        if 0 <= j < s.len() && j != v && is_child(s, v, j) {
            assert(live(s, par(s, j)));
        }
    }
    assert forall|i: int| #[trigger] live(s2, i) && i != 0 implies parent_at(s2, i) is Some by {
        assert(s2[i] == s[i]);
    }
    assert forall|x: int|
        #[trigger] live(s2, x) && (kind_at(s2, x) == ContainerType::Output || kind_at(s2, x)
            == ContainerType::Workspace) implies exists|y: int| #[trigger] is_child(s2, x, y) by {
        assert(s2[x] == s[x]);
        let y = choose|y: int| #[trigger] is_child(s, x, y);
        assert(y != v) by {
            if y == v {
                assert(live(s, par(s, v)));
            }
        }
        assert(live(s2, y));
        assert(s2[y] == s[y]);
        assert(is_child(s2, x, y));
    }
    assert forall|x: int, c1: int, c2: int|
        #[trigger] is_child(s2, x, c1) && #[trigger] is_child(s2, x, c2) && kind_at(s2, x)
            == ContainerType::Workspace implies c1 == c2 by {
        assert(s2[c1] == s[c1] && s2[c2] == s[c2]);
        assert(is_child(s, x, c1));
        assert(live(s, par(s, c1)));
        assert(live(s2, x));
        assert(s2[x] == s[x]);
        assert(is_child(s, x, c2));
    }
    assert forall|x: int|
        #[trigger] live(s2, x) && kind_at(s2, x) == ContainerType::Container implies kind_at(
        s2,
        par(s2, x),
    ) == ContainerType::Workspace by {
        assert(s2[x] == s[x]);
        let p = par(s, x);
        assert(live(s, p));
        assert(p != v);
        assert(live(s2, p));
        assert(s2[p] == s[p]);
    }
}

/// `w` is a workspace named `name` on an output of the root.
pub open spec fn named_ws(s: Seq<Option<Slot>>, name: Seq<char>, w: int) -> bool {
    &&& live(s, w)
    &&& slot(s, w).val.workspace_name() == Some(name)
    &&& parent_at(s, w) is Some
    &&& is_child(s, 0, par(s, w))
}

/// The workspace `a` comes before `b` when the outputs are walked by key and
/// the workspaces of each output by key.
pub open spec fn ws_before(s: Seq<Option<Slot>>, a: int, b: int) -> bool {
    slot(s, par(s, a)).key < slot(s, par(s, b)).key || (par(s, a) == par(s, b) && slot(s, a).key
        < slot(s, b).key)
}

/// `w` is the first workspace named `name` in that walk.
pub open spec fn first_named(s: Seq<Option<Slot>>, name: Seq<char>, w: int) -> bool {
    named_ws(s, name, w) && forall|x: int| #[trigger] named_ws(s, name, x) && x != w ==> ws_before(s, w, x)
}

/// The workspace holding the container or view `a`: its parent for a
/// container, its grandparent for a view.
pub open spec fn ws_above(s: Seq<Option<Slot>>, a: int) -> int {
    if kind_at(s, a) == ContainerType::Container {
        par(s, a)
    } else {
        par(s, par(s, a))
    }
}

/// Two arenas with the same nodes, links, types, keys and names.
pub open spec fn same_shape(s: Seq<Option<Slot>>, f: Seq<Option<Slot>>) -> bool {
    &&& s.len() == f.len()
    &&& forall|j: int| #[trigger] live(f, j) == live(s, j)
    &&& forall|j: int|
        #[trigger] live(s, j) ==> parent_at(f, j) == parent_at(s, j) && kind_at(f, j) == kind_at(s, j)
            && slot(f, j).key == slot(s, j).key && slot(f, j).val.workspace_name() == slot(
            s,
            j,
        ).val.workspace_name()
}

/// Where a container or view sits: below its workspace, on an output of the root.
pub proof fn lemma_active_chain(s: Seq<Option<Slot>>, a: int)
    requires
        layout_ok(s),
        live(s, a),
        kind_at(s, a) == ContainerType::Container || kind_at(s, a) == ContainerType::View,
    ensures
        live(s, ws_above(s, a)),
        kind_at(s, ws_above(s, a)) == ContainerType::Workspace,
        parent_at(s, a) is Some,
        kind_at(s, a) == ContainerType::View ==> kind_at(s, par(s, a)) == ContainerType::Container
            && parent_at(s, par(s, a)) is Some && is_child(s, ws_above(s, a), par(s, a)),
        kind_at(s, a) == ContainerType::Container ==> is_child(s, ws_above(s, a), a),
        parent_at(s, ws_above(s, a)) is Some,
        is_child(s, 0, par(s, ws_above(s, a))),
        kind_at(s, par(s, ws_above(s, a))) == ContainerType::Output,
        ancestor_of(s, a, ContainerType::Workspace) == Some(ws_above(s, a) as NodeIndex),
        ancestor_of(s, a, ContainerType::Output) == Some(par(s, ws_above(s, a)) as NodeIndex),
        workspace_of(s, a) == Some(ws_above(s, a) as NodeIndex),
{
    assert(exists|k: nat| chain_ends(s, a, k));
    let k = crate::graph_tree::chain_bound(s, a);
    assert(chain_ends(s, a, k));
    assert(a != 0);
    let p = par(s, a);
    assert(live(s, p) && legal_child(kind_at(s, p), kind_at(s, a)));
    assert(chain_ends(s, p, (k - 1) as nat));
    assert(p != 0);
    let w = ws_above(s, a);
    if kind_at(s, a) == ContainerType::View {
        assert(kind_at(s, p) == ContainerType::Container);
        assert(w == par(s, p));
        assert(live(s, w) && legal_child(kind_at(s, w), kind_at(s, p)));
        assert(chain_ends(s, w, (k - 2) as nat));
    }
    assert(w != 0);
    let o = par(s, w);
    assert(live(s, o) && legal_child(kind_at(s, o), kind_at(s, w)));
    assert(o != 0);
    assert(live(s, par(s, o)) && legal_child(kind_at(s, par(s, o)), kind_at(s, o)));
    assert(par(s, o) == 0);
    if kind_at(s, a) == ContainerType::View {
        assert(chain_ends(s, o, (k - 3) as nat));
        assert(crate::graph_tree::closest_ancestor(s, p, ContainerType::Workspace, (k - 1) as nat)
            == Some(w as NodeIndex));
        assert(crate::graph_tree::closest_ancestor(s, w, ContainerType::Output, (k - 2) as nat)
            == Some(o as NodeIndex));
        assert(crate::graph_tree::closest_ancestor(s, p, ContainerType::Output, (k - 1) as nat)
            == Some(o as NodeIndex));
    } else {
        assert(chain_ends(s, o, (k - 2) as nat));
        assert(crate::graph_tree::closest_ancestor(s, p, ContainerType::Output, (k - 1) as nat)
            == Some(o as NodeIndex));
    }
}

/// Arenas of the same shape have the same layout properties.
pub proof fn lemma_same_shape_ok(s: Seq<Option<Slot>>, f: Seq<Option<Slot>>)
    requires
        layout_ok(s),
        wf_slots(f),
        same_shape(s, f),
    ensures
        layout_ok(f),
        forall|name: Seq<char>, x: int| #[trigger] named_ws(f, name, x) == named_ws(s, name, x),
        forall|name: Seq<char>, x: int| #[trigger] first_named(f, name, x) == first_named(s, name, x),
        forall|x: int| #[trigger] live(s, x) ==> par(f, x) == par(s, x),
{
    assert forall|x: int| #[trigger] live(s, x) implies par(f, x) == par(s, x) by {}
    assert forall|i: int| #[trigger] live(f, i) && i != 0 implies parent_at(f, i) is Some by {
        assert(live(s, i));
    }
    assert forall|x: int|
        #[trigger] live(f, x) && (kind_at(f, x) == ContainerType::Output || kind_at(f, x)
            == ContainerType::Workspace) implies exists|y: int| #[trigger] is_child(f, x, y) by {
        assert(live(s, x));
        let y = choose|y: int| #[trigger] is_child(s, x, y);
        assert(is_child(f, x, y));
    }
    assert forall|x: int, c1: int, c2: int|
        #[trigger] is_child(f, x, c1) && #[trigger] is_child(f, x, c2) && kind_at(f, x)
            == ContainerType::Workspace implies c1 == c2 by {
        assert(live(s, c1) && live(s, c2));
        assert(is_child(s, x, c1) && is_child(s, x, c2));
        assert(live(s, par(s, c1)));
    }
    assert forall|x: int|
        #[trigger] live(f, x) && kind_at(f, x) == ContainerType::Container implies kind_at(
        f,
        par(f, x),
    ) == ContainerType::Workspace by {
        assert(live(s, x));
        assert(live(s, par(s, x)));
    }
    assert forall|name: Seq<char>, x: int| #[trigger] named_ws(f, name, x) == named_ws(s, name, x) by {
        if live(s, x) && parent_at(s, x) is Some {
            assert(live(s, par(s, x)));
        }
    }
    assert forall|name: Seq<char>, x: int| #[trigger] first_named(f, name, x) == first_named(s, name, x) by {
        assert forall|y: int| #[trigger] named_ws(f, name, y) == named_ws(s, name, y) by {
            if live(s, y) && parent_at(s, y) is Some {
                assert(live(s, par(s, y)));
            }
        }
        if named_ws(s, name, x) {
            assert(live(s, par(s, x)));
            assert forall|y: int| #[trigger] named_ws(s, name, y) && y != x implies ws_before(s, x, y)
                == ws_before(f, x, y) by {
                assert(live(s, par(s, y)));
            }
            if first_named(s, name, x) {
                assert forall|y: int| #[trigger] named_ws(f, name, y) && y != x implies ws_before(f, x, y) by {
                    assert(named_ws(s, name, y));
                    assert(ws_before(s, x, y));
                }
            }
            if first_named(f, name, x) {
                assert forall|y: int| #[trigger] named_ws(s, name, y) && y != x implies ws_before(s, x, y) by {
                    assert(named_ws(f, name, y));
                    assert(ws_before(f, x, y));
                }
            }
        }
    }}

/// Visibility changes keep the shape.
pub proof fn lemma_visible_shape(s: Seq<Option<Slot>>, n: int, v: bool)
    ensures
        same_shape(s, crate::graph_tree::family_visible(s, n, v)),
{
    let f = crate::graph_tree::family_visible(s, n, v);
    assert forall|j: int| #[trigger] live(f, j) == live(s, j) by {}
    assert forall|j: int| #[trigger] live(s, j) implies parent_at(f, j) == parent_at(s, j) && kind_at(
        f,
        j,
    ) == kind_at(s, j) && slot(f, j).key == slot(s, j).key && slot(f, j).val.workspace_name()
        == slot(s, j).val.workspace_name() by {}
}

/// Below a workspace stand only containers and views.
pub proof fn lemma_below_ws_kind(s: Seq<Option<Slot>>, w: int, x: int, k: nat)
    requires
        wf_slots(s),
        kind_at(s, w) == ContainerType::Workspace,
        desc_within(s, w, x, k),
        x != w,
    ensures
        kind_at(s, x) == ContainerType::Container || kind_at(s, x) == ContainerType::View,
    decreases k,
{
    let p = par(s, x);
    assert(live(s, p) && legal_child(kind_at(s, p), kind_at(s, x)));
    if p != w {
        lemma_below_ws_kind(s, w, p, (k - 1) as nat);
    }
}

/// Deleting the subtree of a workspace whose output keeps another workspace
/// keeps the layout's shape, and leaves every other workspace as it was.
pub proof fn lemma_prune_ok(s: Seq<Option<Slot>>, w: int, w2: int)
    requires
        layout_ok(s),
        live(s, w),
        kind_at(s, w) == ContainerType::Workspace,
        parent_at(s, w) is Some,
        is_child(s, par(s, w), w2),
        w2 != w,
        wf_slots(crate::graph_tree::pruned(s, w)),
    ensures
        layout_ok(crate::graph_tree::pruned(s, w)),
        forall|x: int|
            #[trigger] live(crate::graph_tree::pruned(s, w), x) == (live(s, x) && !above(s, w, x)),
        forall|x: int|
            live(s, x) && kind_at(s, x) != ContainerType::Container && kind_at(s, x)
                != ContainerType::View && x != w ==> !#[trigger] above(s, w, x),
        forall|name: Seq<char>, x: int|
            #[trigger] named_ws(crate::graph_tree::pruned(s, w), name, x) ==> named_ws(s, name, x),
        forall|name: Seq<char>, x: int|
            first_named(s, name, x) && x != w ==> #[trigger] first_named(
                crate::graph_tree::pruned(s, w),
                name,
                x,
            ),
{
    let f = crate::graph_tree::pruned(s, w);
    assert forall|x: int|
        live(s, x) && kind_at(s, x) != ContainerType::Container && kind_at(s, x)
            != ContainerType::View && x != w implies !#[trigger] above(s, w, x) by {
        if above(s, w, x) {
            let k = choose|k: nat| desc_within(s, w, x, k);
            lemma_below_ws_kind(s, w, x, k);
        }
    }
    assert forall|x: int| #[trigger] live(f, x) == (live(s, x) && !above(s, w, x)) by {}
    // a node outside the subtree has its parent outside it too
    assert forall|x: int| #[trigger] live(f, x) && parent_at(s, x) is Some implies live(f, par(s, x)) by {
        assert(live(s, par(s, x)));
        if above(s, w, par(s, x)) {
            lemma_above_child(s, w, par(s, x), x);
        }
    }
    assert forall|i: int| #[trigger] live(f, i) && i != 0 implies parent_at(f, i) is Some by {
        assert(f[i] == s[i]);
    }
    let o = par(s, w);
    assert(live(s, o) && legal_child(kind_at(s, o), kind_at(s, w)));
    assert(!above(s, w, w2)) by {
        assert(live(s, w2) && legal_child(kind_at(s, o), kind_at(s, w2)));
        if above(s, w, w2) {
            let k = choose|k: nat| desc_within(s, w, w2, k);
            lemma_below_ws_kind(s, w, w2, k);
        }
    }
    assert forall|x: int|
        #[trigger] live(f, x) && (kind_at(f, x) == ContainerType::Output || kind_at(f, x)
            == ContainerType::Workspace) implies exists|y: int| #[trigger] is_child(f, x, y) by {
        assert(f[x] == s[x]);
        let y = choose|y: int| #[trigger] is_child(s, x, y);
        if above(s, w, y) {
            if y == w {
                assert(x == o);
                assert(f[w2] == s[w2]);
                assert(is_child(f, x, w2));
            } else {
                let k = choose|k: nat| desc_within(s, w, y, k);
                assert(desc_within(s, w, x, (k - 1) as nat));
            }
        } else {
            assert(f[y] == s[y]);
            assert(is_child(f, x, y));
        }
    }
    assert forall|x: int, c1: int, c2: int|
        #[trigger] is_child(f, x, c1) && #[trigger] is_child(f, x, c2) && kind_at(f, x)
            == ContainerType::Workspace implies c1 == c2 by {
        assert(f[c1] == s[c1] && f[c2] == s[c2]);
        assert(is_child(s, x, c1));
        assert(is_child(s, x, c2));
        assert(live(s, par(s, c1)));
        assert(live(f, x));
        assert(f[x] == s[x]);
    }
    assert forall|x: int|
        #[trigger] live(f, x) && kind_at(f, x) == ContainerType::Container implies kind_at(
        f,
        par(f, x),
    ) == ContainerType::Workspace by {
        assert(f[x] == s[x]);
        assert(live(f, par(s, x)));
        assert(f[par(s, x)] == s[par(s, x)]);
    }
    assert forall|name: Seq<char>, x: int| #[trigger] named_ws(f, name, x) implies named_ws(s, name, x) by {
        assert(f[x] == s[x]);
        assert(live(f, par(s, x)));
        assert(f[par(s, x)] == s[par(s, x)]);
    }
    assert forall|name: Seq<char>, x: int|
        first_named(s, name, x) && x != w implies #[trigger] first_named(f, name, x) by {
        assert(!above(s, w, x));
        assert(!above(s, w, par(s, x))) by {
            assert(live(s, par(s, x)));
        }
        assert(f[x] == s[x]);
        assert(f[par(s, x)] == s[par(s, x)]);
        assert forall|y: int| #[trigger] named_ws(f, name, y) && y != x implies ws_before(f, x, y) by {
            assert(named_ws(s, name, y));
            assert(f[y] == s[y]);
            assert(live(f, par(s, y)));
            assert(f[par(s, y)] == s[par(s, y)]);
        }
    }
}

/// The size of an output (zero for the other kinds).
pub open spec fn output_size(c: Container) -> Size {
    match c {
        Container::Output { size, .. } => size,
        _ => Size { w: 0, h: 0 },
    }
}

/// There is at most one first workspace of a name.
pub proof fn lemma_first_named_unique(s: Seq<Option<Slot>>, name: Seq<char>, a: int, b: int)
    requires
        first_named(s, name, a),
        first_named(s, name, b),
    ensures
        a == b,
{
    if a != b {
        assert(ws_before(s, a, b));
        assert(ws_before(s, b, a));
    }
}

/// Nothing observable changed.
pub open spec fn unchanged(t0: LayoutTree, t1: LayoutTree) -> bool {
    &&& t1.nodes() == t0.nodes()
    &&& t1.active() == t0.active()
    &&& t1.focus_queue() == t0.focus_queue()
}

/// The workspace `ow` is left behind empty in `vis`: no view below it, and
/// its output holds another workspace.
pub open spec fn vacated(vis: Seq<Option<Slot>>, ow: int) -> bool {
    &&& forall|d: int| #[trigger] above(vis, ow, d) ==> kind_at(vis, d) != ContainerType::View
    &&& exists|w2: int| w2 != ow && #[trigger] is_child(vis, par(vis, ow), w2)
}

/// `s1` is `s0` after switching, with `a` active, to the workspace `name`
/// resolved as `w`: the old workspace's subtree is hidden, the target's is
/// shown, and the old workspace is deleted with its subtree when it is left
/// behind empty; nothing else changes.
pub open spec fn switched_nodes(
    s0: Seq<Option<Slot>>,
    s1: Seq<Option<Slot>>,
    name: Seq<char>,
    a: int,
    w: int,
) -> bool {
    exists|mid: Seq<Option<Slot>>|
        #[trigger] made_or_found(s0, mid, name, a, w) && {
            let ow = ws_above(s0, a);
            let vis = crate::graph_tree::family_visible(
                crate::graph_tree::family_visible(mid, ow, false),
                w,
                true,
            );
            s1 == if vacated(vis, ow) {
                crate::graph_tree::pruned(vis, ow)
            } else {
                vis
            }
        }
}

/// What switching from `t0` to the workspace `name` gives `t1` and `r`:
/// nothing happens without an active container, or when the active container
/// is already on the first workspace of that name; otherwise the active
/// container ends up on that workspace.
pub open spec fn switched(t0: LayoutTree, t1: LayoutTree, name: Seq<char>, r: Result<(), LayoutError>) -> bool {
    &&& t0.active() is None ==> r == Err::<(), LayoutError>(LayoutError::NoActiveContainer)
    &&& r is Err ==> unchanged(t0, t1)
    &&& t0.active() is Some && r is Err ==> r == Err::<(), LayoutError>(
        LayoutError::Tree(TreeError::KeysExhausted),
    ) && forall|x: int| !#[trigger] named_ws(t0.nodes(), name, x)
    &&& (t0.active() matches Some(a) && first_named(t0.nodes(), name, ws_above(t0.nodes(), a as int)))
        ==> r is Ok && unchanged(t0, t1)
    &&& r is Ok ==> (t1.active() matches Some(x) && first_named(
        t1.nodes(),
        name,
        ws_above(t1.nodes(), x as int),
    ))
    &&& (t0.active() is Some && !first_named(
        t0.nodes(),
        name,
        ws_above(t0.nodes(), t0.active()->Some_0 as int),
    )) ==> (r is Err <==> make_refused(t0.nodes(), name, t0.active()->Some_0 as int))
    &&& (r is Ok && t0.active() is Some && !first_named(
        t0.nodes(),
        name,
        ws_above(t0.nodes(), t0.active()->Some_0 as int),
    )) ==> exists|w: int|
        #[trigger] switched_nodes(t0.nodes(), t1.nodes(), name, t0.active()->Some_0 as int, w)
            && t1.active() == Some(ws_pick(t1.nodes(), w))
    &&& r is Ok ==> forall|d: int|
        live(t0.nodes(), d) && kind_at(t0.nodes(), d) == ContainerType::View ==> #[trigger] live(
            t1.nodes(),
            d,
        )
    &&& (r is Ok && t0.active() is Some && t1.active() is Some && ws_above(
        t0.nodes(),
        t0.active()->Some_0 as int,
    ) != ws_above(t1.nodes(), t1.active()->Some_0 as int)) ==> {
        let ow = ws_above(t0.nodes(), t0.active()->Some_0 as int);
        let nw = ws_above(t1.nodes(), t1.active()->Some_0 as int);
        &&& slot(t1.nodes(), nw).val.visibility() == Some(true)
        &&& live(t1.nodes(), ow) ==> slot(t1.nodes(), ow).val.visibility() == Some(false)
    }
}

/// Moving a view to another container keeps the layout's shape and every
/// workspace's name, place and order.
pub proof fn lemma_view_moved(s: Seq<Option<Slot>>, f: Seq<Option<Slot>>, a: int, q: int)
    requires
        layout_ok(s),
        wf_slots(f),
        live(s, a),
        kind_at(s, a) == ContainerType::View,
        live(s, q),
        kind_at(s, q) == ContainerType::Container,
        f.len() == s.len(),
        forall|j: int| 0 <= j < s.len() && j != a ==> f[j] == s[j],
        live(f, a),
        slot(f, a).val == slot(s, a).val,
        parent_at(f, a) is Some,
        par(f, a) == q,
    ensures
        layout_ok(f),
        forall|name: Seq<char>, x: int| #[trigger] first_named(f, name, x) == first_named(s, name, x),
{
    assert forall|j: int| #[trigger] live(f, j) == live(s, j) by {}
    assert forall|i: int| #[trigger] live(f, i) && i != 0 implies parent_at(f, i) is Some by {}
    assert forall|x: int|
        #[trigger] live(f, x) && (kind_at(f, x) == ContainerType::Output || kind_at(f, x)
            == ContainerType::Workspace) implies exists|y: int| #[trigger] is_child(f, x, y) by {
        assert(x != a);
        let y = choose|y: int| #[trigger] is_child(s, x, y);
        assert(y != a) by {
            if y == a {
                assert(live(s, par(s, a)) && legal_child(kind_at(s, x), kind_at(s, a)));
            }
        }
        assert(is_child(f, x, y));
    }
    assert forall|x: int, c1: int, c2: int|
        #[trigger] is_child(f, x, c1) && #[trigger] is_child(f, x, c2) && kind_at(f, x)
            == ContainerType::Workspace implies c1 == c2 by {
        assert(x != q);
        assert(c1 != a && c2 != a);
        assert(is_child(s, x, c1) && is_child(s, x, c2));
        assert(live(s, par(s, c1)));
    }
    assert forall|x: int|
        #[trigger] live(f, x) && kind_at(f, x) == ContainerType::Container implies kind_at(
        f,
        par(f, x),
    ) == ContainerType::Workspace by {
        assert(x != a);
        assert(live(s, par(s, x)));
        assert(par(s, x) != a) by {
            assert(legal_child(kind_at(s, par(s, x)), kind_at(s, x)));
        }
    }
    assert forall|name: Seq<char>, x: int| #[trigger] named_ws(f, name, x) == named_ws(s, name, x) by {
        if x != a && live(s, x) && parent_at(s, x) is Some {
            assert(live(s, par(s, x)));
            if par(s, x) == a {
                assert(legal_child(kind_at(s, a), kind_at(s, x)));
            }
        }
    }
    assert forall|name: Seq<char>, x: int| #[trigger] first_named(f, name, x) == first_named(s, name, x) by {
        assert forall|y: int| #[trigger] named_ws(f, name, y) == named_ws(s, name, y) by {}
        if named_ws(s, name, x) {
            assert forall|y: int| #[trigger] named_ws(s, name, y) && y != x implies ws_before(s, x, y)
                == ws_before(f, x, y) by {
                assert(x != a && y != a);
                assert(live(s, par(s, y)) && live(s, par(s, x)));
                assert(par(s, x) != a && par(s, y) != a);
            }
            if first_named(s, name, x) {
                assert forall|y: int| #[trigger] named_ws(f, name, y) && y != x implies ws_before(f, x, y) by {
                    assert(named_ws(s, name, y));
                }
            }
            if first_named(f, name, x) {
                assert forall|y: int| #[trigger] named_ws(s, name, y) && y != x implies ws_before(s, x, y) by {
                    assert(named_ws(f, name, y));
                }
            }
        }
    }
}

/// The active container of a layout, when there is one, is a container or a
/// view reachable from the root.
pub proof fn lemma_active_reachable(t: LayoutTree)
    requires
        t.inv(),
    ensures
        t.active() matches Some(a) ==> above(t.nodes(), 0, a as int) && (kind_at(t.nodes(), a as int)
            == ContainerType::Container || kind_at(t.nodes(), a as int) == ContainerType::View),
{
    if let Some(a) = t.active() {
        lemma_below_root(t.nodes(), a as int);
    }
}

/// The layout's invariants in the terms of its data model: the root is the
/// only node of its type and holds only outputs; outputs hold only
/// workspaces and have at least one; workspaces hold containers and have at
/// least one; containers hold only containers and views; views hold
/// nothing; every node but the root has a parent; the active pointer, when
/// set, names a container or view below the root.
pub proof fn lemma_layout_invariants(t: LayoutTree)
    requires
        t.inv(),
    ensures
        live(t.nodes(), 0) && kind_at(t.nodes(), 0) == ContainerType::Root,
        forall|i: int| #[trigger] live(t.nodes(), i) && i != 0 ==> kind_at(t.nodes(), i) != ContainerType::Root
            && parent_at(t.nodes(), i) is Some,
        forall|p: int, c: int|
            #[trigger] is_child(t.nodes(), p, c) ==> live(t.nodes(), p) && match kind_at(t.nodes(), p) {
                ContainerType::Root => kind_at(t.nodes(), c) == ContainerType::Output,
                ContainerType::Output => kind_at(t.nodes(), c) == ContainerType::Workspace,
                ContainerType::Workspace => kind_at(t.nodes(), c) == ContainerType::Container,
                ContainerType::Container => kind_at(t.nodes(), c) == ContainerType::Container
                    || kind_at(t.nodes(), c) == ContainerType::View,
                ContainerType::View => false,
            },
        forall|o: int|
            #[trigger] live(t.nodes(), o) && (kind_at(t.nodes(), o) == ContainerType::Output
                || kind_at(t.nodes(), o) == ContainerType::Workspace) ==> exists|c: int|
                #[trigger] is_child(t.nodes(), o, c),
        t.active() matches Some(a) ==> live(t.nodes(), a as int) && above(t.nodes(), 0, a as int)
            && (kind_at(t.nodes(), a as int) == ContainerType::Container || kind_at(t.nodes(), a as int)
            == ContainerType::View),
{
    let s = t.nodes();
    assert forall|p: int, c: int| #[trigger] is_child(s, p, c) implies live(s, p) && legal_child(
        kind_at(s, p),
        kind_at(s, c),
    ) by {}
    lemma_active_reachable(t);
}

/// Removing the only view on a workspace leaves that workspace holding
/// exactly one container, and that container empty.
pub proof fn lemma_last_view_removed(t0: LayoutTree, t1: LayoutTree, v: int)
    requires
        t0.inv(),
        t1.inv(),
        live(t0.nodes(), v),
        kind_at(t0.nodes(), v) == ContainerType::View,
        forall|x: int|
            live(t0.nodes(), x) && kind_at(t0.nodes(), x) == ContainerType::View && #[trigger] ws_above(
                t0.nodes(),
                x,
            ) == ws_above(t0.nodes(), v) ==> x == v,
        t1.nodes() == crate::graph_tree::removed(t0.nodes(), v),
    ensures
        live(t1.nodes(), ws_above(t0.nodes(), v)),
        kind_at(t1.nodes(), ws_above(t0.nodes(), v)) == ContainerType::Workspace,
        exists|c: int| #[trigger] is_child(t1.nodes(), ws_above(t0.nodes(), v), c),
        forall|c1: int, c2: int|
            #[trigger] is_child(t1.nodes(), ws_above(t0.nodes(), v), c1) && #[trigger] is_child(
                t1.nodes(),
                ws_above(t0.nodes(), v),
                c2,
            ) ==> c1 == c2,
        forall|c: int, j: int|
            #[trigger] is_child(t1.nodes(), ws_above(t0.nodes(), v), c) ==> kind_at(t1.nodes(), c)
                == ContainerType::Container && !#[trigger] is_child(t1.nodes(), c, j),
{
    let s = t0.nodes();
    let f = t1.nodes();
    let w = ws_above(s, v);
    lemma_active_chain(s, v);
    lemma_remove_leaf_ok(s, f, v);
    assert(w != v);
    assert(live(f, w) && f[w] == s[w]);
    assert forall|c: int, j: int| #[trigger] is_child(f, w, c) implies kind_at(f, c)
        == ContainerType::Container && !#[trigger] is_child(f, c, j) by {
        assert(f[c] == s[c]);
        assert(is_child(s, w, c));
        assert(legal_child(kind_at(s, w), kind_at(s, c)));
        if is_child(f, c, j) {
            assert(f[j] == s[j]);
            assert(j != v);
            assert(is_child(s, c, j));
            assert(legal_child(kind_at(s, c), kind_at(s, j)));
            if kind_at(s, j) == ContainerType::Container {
                assert(kind_at(s, par(s, j)) == ContainerType::Workspace);
            }
            assert(ws_above(s, j) == w);
        }
    }
}

/// Switching twice in a row to the same workspace: once the first switch
/// succeeded, the second changes nothing.
pub proof fn lemma_switch_idempotent(
    t0: LayoutTree,
    t1: LayoutTree,
    t2: LayoutTree,
    name: Seq<char>,
    r1: Result<(), LayoutError>,
    r2: Result<(), LayoutError>,
)
    requires
        t0.inv(),
        switched(t0, t1, name, r1),
        r1 is Ok,
        switched(t1, t2, name, r2),
    ensures
        r2 is Ok,
        unchanged(t1, t2),
{
}

/// The per-node part of invariants 1–5: every node but the root has a
/// parent, and every output and workspace has a child.
pub open spec fn model_node_ok(s: Seq<Option<Slot>>, j: int) -> bool {
    live(s, j) ==> {
        &&& j != 0 ==> parent_at(s, j) is Some
        &&& (kind_at(s, j) == ContainerType::Output || kind_at(s, j) == ContainerType::Workspace)
            ==> exists|c: int| #[trigger] is_child(s, j, c)
    }
}

/// Invariants 1–5 of the data model: a well-formed arena (one root,
/// children only of the types their parents may hold, one parent each, no
/// cycles) in which every node but the root is attached and every output
/// and workspace has a child, and an active pointer that, when set, names a
/// container or view. Unlike `layout_ok`, it allows nested containers and
/// several containers on a workspace.
pub open spec fn model_ok(s: Seq<Option<Slot>>, a: Option<NodeIndex>) -> bool {
    wf_slots(s) && (forall|j: int| 0 <= j < s.len() ==> #[trigger] model_node_ok(s, j)) && active_ok(
        s,
        a,
    )
}

/// Every layout the operations build meets invariants 1–5.
pub proof fn lemma_inv_model_ok(t: LayoutTree)
    requires
        t.inv(),
    ensures
        model_ok(t.nodes(), t.active()),
{
    assert forall|j: int| 0 <= j < t.nodes().len() implies #[trigger] model_node_ok(t.nodes(), j) by {}
}

/// The node focus recovery picks on the workspace `w`: the first child of
/// its root container, or the root container itself when it is empty.
pub open spec fn ws_pick(s: Seq<Option<Slot>>, w: int) -> NodeIndex {
    let c0 = child_list(s, w)[0];
    let g = child_list(s, c0 as int);
    if g.len() > 0 {
        g[0]
    } else {
        c0
    }
}

/// Focus recovery from `cur`, looking at most `k` links up: on a workspace,
/// `ws_pick`; on a container, the first view in a pre-order walk of it,
/// or else recovery from its parent.
pub open spec fn pick_from(s: Seq<Option<Slot>>, cur: int, k: nat) -> NodeIndex
    decreases k,
{
    if kind_at(s, cur) == ContainerType::Workspace {
        ws_pick(s, cur)
    } else {
        match preorder_first(s, cur, Target::Kind(ContainerType::View), s.len() as nat) {
            Some(v) => v,
            None => if k == 0 {
                cur as NodeIndex
            } else {
                pick_from(s, par(s, cur), (k - 1) as nat)
            },
        }
    }
}

/// The node focus recovery starting at `start` makes active.
pub open spec fn recovered(s: Seq<Option<Slot>>, start: int) -> NodeIndex {
    pick_from(s, start, crate::graph_tree::chain_bound(s, start))
}

/// The output of the container or view `a`.
pub open spec fn active_output(s: Seq<Option<Slot>>, a: int) -> int {
    par(s, ws_above(s, a))
}

/// Some workspace is named `name`.
pub open spec fn name_taken(s: Seq<Option<Slot>>, name: Seq<char>) -> bool {
    exists|x: int| #[trigger] named_ws(s, name, x)
}

/// Resolving `name` with `a` active turns `s0` into `s1` and gives the
/// workspace `w`: the first workspace of that name, with nothing changed,
/// or else a new one, with one empty root container, added after the other
/// workspaces of the output of `a` and as large as that output.
pub open spec fn made_or_found(
    s0: Seq<Option<Slot>>,
    s1: Seq<Option<Slot>>,
    name: Seq<char>,
    a: int,
    w: int,
) -> bool {
    if name_taken(s0, name) {
        first_named(s0, name, w) && s1 == s0
    } else {
        exists|c: int|
            workspace_added(
                s0,
                s1,
                active_output(s0, a),
                w,
                c,
                name,
                output_size(slot(s0, active_output(s0, a)).val),
            )
    }
}

/// Resolving `name` with `a` active is refused: no workspace has the name
/// and the output of `a` has used up its keys.
pub open spec fn make_refused(s0: Seq<Option<Slot>>, name: Seq<char>, a: int) -> bool {
    !name_taken(s0, name) && max_key(s0, active_output(s0, a), s0.len() as int) == u32::MAX
}

/// Sending the view `a` to `name` is refused for want of keys: the root
/// container of the first workspace of that name has used up its keys, or
/// no workspace has the name and the output of `a` has used up its keys.
pub open spec fn send_refused(s: Seq<Option<Slot>>, name: Seq<char>, a: int) -> bool {
    if name_taken(s, name) {
        let w = choose|w: int| first_named(s, name, w);
        max_key(s, child_list(s, w)[0] as int, s.len() as int) == u32::MAX
    } else {
        make_refused(s, name, a)
    }
}

/// `s1` is `s0` after the view `a` went to the workspace `name`: the
/// workspace is resolved (`made_or_found`), the view is cut from its
/// container and hung after the children of the target's root container and
/// hidden, and the workspace it left is shown; nothing else changes.
pub open spec fn sent(s0: Seq<Option<Slot>>, s1: Seq<Option<Slot>>, name: Seq<char>, a: int) -> bool {
    exists|mid: Seq<Option<Slot>>, w: int|
        #[trigger] made_or_found(s0, mid, name, a, w) && s1 == crate::graph_tree::family_visible(
            crate::graph_tree::family_visible(
                attached(crate::graph_tree::detached(mid, a), child_list(mid, w)[0] as int, a),
                a,
                false,
            ),
            ws_above(s0, a),
            true,
        )
}

impl LayoutTree {
    pub closed spec fn nodes(&self) -> Seq<Option<Slot>> {
        self.tree@
    }

    pub closed spec fn active(&self) -> Option<NodeIndex> {
        self.active_container
    }

    pub closed spec fn focus_queue(&self) -> Seq<FocusRequest> {
        self.focus_requests@
    }

    /// What the layout keeps after every operation: one root whose children
    /// are outputs, every output with a workspace and every workspace with
    /// one root container, types only below types that may hold them, one
    /// parent for every node but the root, and an active pointer, when set,
    /// on a live container or view (which then lies below the root, see
    /// `lemma_active_reachable`).
    pub open spec fn inv(&self) -> bool {
        layout_ok(self.nodes()) && active_ok(self.nodes(), self.active())
    }

    /// An empty layout: the root alone, nothing active.
    pub fn new() -> (r: LayoutTree)
        ensures
            r.inv(),
            r.nodes() == seq![Some(Slot { val: Container::Root, parent: None, key: 0 })],
            r.active() is None,
            r.focus_queue() == Seq::<FocusRequest>::empty(),
    {
        let r = LayoutTree { tree: Tree::new(), active_container: None, focus_requests: Vec::new() };
        proof {
            assert(live(r.nodes(), 0));
        }
        r
    }

    /// The arena.
    pub fn tree(&self) -> (r: &Tree)
        ensures
            r@ == self.nodes(),
    {
        &self.tree
    }

    /// The index of the active container.
    pub fn active_ix(&self) -> (r: Option<NodeIndex>)
        ensures
            r == self.active(),
    {
        self.active_container
    }

    /// Hands over the queued focus requests, oldest first, and empties the queue.
    pub fn take_focus_requests(&mut self) -> (r: Vec<FocusRequest>)
        ensures
            r@ == old(self).focus_queue(),
            final(self).focus_queue() == Seq::<FocusRequest>::empty(),
            final(self).nodes() == old(self).nodes(),
            final(self).active() == old(self).active(),
    {
        let mut r: Vec<FocusRequest> = Vec::new();
        std::mem::swap(&mut r, &mut self.focus_requests);
        r
    }

    /// Adds the workspace `name` below the output `output_ix`, after its
    /// other workspaces, with one root container covering the output, and
    /// returns the index of that container. Refused, with nothing changed,
    /// when the output's keys are used up.
    fn init_workspace(&mut self, name: String, output_ix: NodeIndex, size: Size) -> (r: Result<
        NodeIndex,
        LayoutError,
    >)
        requires
            wf_slots(old(self).nodes()),
            live(old(self).nodes(), output_ix as int),
            kind_at(old(self).nodes(), output_ix as int) == ContainerType::Output,
        ensures
            wf_slots(final(self).nodes()),
            final(self).active() == old(self).active(),
            final(self).focus_queue() == old(self).focus_queue(),
            max_key(old(self).nodes(), output_ix as int, old(self).nodes().len() as int) == u32::MAX
                <==> r is Err,
            r is Err ==> r == Err::<NodeIndex, LayoutError>(LayoutError::Tree(TreeError::KeysExhausted))
                && final(self).nodes() == old(self).nodes(),
            r matches Ok(c) ==> workspace_added(
                old(self).nodes(),
                final(self).nodes(),
                output_ix as int,
                par(final(self).nodes(), c as int),
                c as int,
                name@,
                size,
            ),
    {
        let ghost s0 = self.tree@;
        let worksp = Container::new_workspace(name, size);
        let ghost wval = worksp;
        let w = match self.tree.add_child(output_ix, worksp) {
            Ok(w) => w,
            Err(e) => {
                return Err(LayoutError::Tree(e));
            },
        };
        let ghost s1 = self.tree@;
        proof {
            lemma_fresh_facts(s0, w as int, wval);
            let f0 = with_fresh(s0, w as int, wval);
            lemma_attached_facts(f0, output_ix as int, w as int);
            assert forall|j: int| 0 <= j < s1.len() implies !#[trigger] is_child(s1, w as int, j) by {
                if j != w as int {
                    assert(s1[j] == f0[j]);
                }
            }
            lemma_max_key_none(s1, w as int, s1.len() as int);
        }
        let geometry = Geometry { origin: Point { x: 0, y: 0 }, size };
        let cval = Container::new_container(geometry);
        let c = match self.tree.add_child(w, cval) {
            Ok(c) => c,
            Err(e) => {
                return Err(LayoutError::Tree(e));
            },
        };
        proof {
            let s2 = self.tree@;
            let f0 = with_fresh(s0, w as int, wval);
            lemma_fresh_facts(s1, c as int, cval);
            let f1 = with_fresh(s1, c as int, cval);
            lemma_attached_facts(f1, w as int, c as int);
            assert(max_key(f1, w as int, f1.len() as int) == 0);
            assert(live(s2, w as int));
            assert(s2[w as int] == s1[w as int]);
            assert(par(s2, c as int) == w);
            assert forall|j: int| #[trigger] live(s2, j) == (live(s0, j) || j == w as int || j == c as int) by {}
            assert forall|j: int| #[trigger] live(s0, j) implies s2[j] == s0[j] by {
                assert(j != w as int && j != c as int);
                assert(s1[j] == f0[j]);
            }
        }
        Ok(c)
    }

    /// Adds an output below the root, after the other outputs, with the
    /// workspace "1" and its empty root container, and makes that container
    /// active. Refused, with nothing changed, when the root's keys are used up.
    pub fn add_output(&mut self, handle: OutputHandle, size: Size) -> (r: Result<(), LayoutError>)
        requires
            old(self).inv(),
        ensures
            final(self).inv(),
            final(self).focus_queue() == old(self).focus_queue(),
            r is Err <==> max_key(old(self).nodes(), 0, old(self).nodes().len() as int) == u32::MAX,
            r is Err ==> r == Err::<(), LayoutError>(LayoutError::Tree(TreeError::KeysExhausted))
                && final(self).nodes() == old(self).nodes() && final(self).active() == old(
                self,
            ).active(),
            r is Ok ==> exists|o: int, w: int, c: int|
                output_added(old(self).nodes(), final(self).nodes(), o, w, c, handle, size)
                    && final(self).active() == Some(c as NodeIndex),
    {
        let ghost s0 = self.tree@;
        let oval = Container::new_output(handle, size);
        let root = self.tree.root_ix();
        let o = match self.tree.add_child(root, oval) {
            Ok(o) => o,
            Err(e) => {
                return Err(LayoutError::Tree(e));
            },
        };
        let ghost s1 = self.tree@;
        proof {
            lemma_fresh_facts(s0, o as int, oval);
            let f0 = with_fresh(s0, o as int, oval);
            lemma_attached_facts(f0, 0, o as int);
            assert forall|j: int| 0 <= j < s1.len() implies !#[trigger] is_child(s1, o as int, j) by {
                if j != o as int {
                    assert(s1[j] == f0[j]);
                }
            }
            lemma_max_key_none(s1, o as int, s1.len() as int);
            assert(live(s1, o as int));
        }
        proof {
            reveal_strlit("1");
        }
        let name = "1".to_owned();
        proof {
            assert(name@ =~= seq!['1']);
        }
        let c = match self.init_workspace(name, o, size) {
            Ok(c) => c,
            Err(e) => {
                return Err(e);
            },
        };
        self.active_container = Some(c);
        proof {
            let s3 = self.tree@;
            let w = par(s3, c as int);
            let f0 = with_fresh(s0, o as int, oval);
            assert forall|j: int| #[trigger] live(s0, j) implies s1[j] == s0[j] by {
                assert(j != o as int);
                assert(s1[j] == f0[j]);
            }
            assert(s3[o as int] == s1[o as int]);
            assert(live(s1, o as int));
            assert(!live(s1, w) && !live(s1, c as int));
            assert(o as int != w && o as int != c as int);
            assert(max_key(f0, 0, f0.len() as int) == max_key(s0, 0, s0.len() as int));
            assert(slot(s3, o as int).key == (max_key(s0, 0, s0.len() as int) + 1) as u32);
            assert(slot(s3, o as int).parent == Some(0usize));
            assert(slot(s3, o as int).val == oval);
            assert forall|j: int| #[trigger] live(s3, j) == (live(s0, j) || j == o as int || j == w || j
                == c as int) by {
                assert(live(s1, j) == (live(s0, j) || j == o as int));
            }
            assert forall|j: int| #[trigger] live(s0, j) implies s3[j] == s0[j] by {
                assert(live(s1, j));
            }
            assert(output_added(s0, s3, o as int, w, c as int, handle, size));
            // the layout's shape, first for the arena with the bare output
            assert forall|i: int| #[trigger] live(s1, i) && i != 0 implies parent_at(s1, i) is Some by {
                if i != o as int {
                    assert(live(s0, i));
                }
            }
            assert forall|x: int|
                #[trigger] live(s1, x) && x != o as int && (kind_at(s1, x) == ContainerType::Output
                    || kind_at(s1, x) == ContainerType::Workspace) implies exists|y: int|
                #[trigger] is_child(s1, x, y) by {
                assert(live(s0, x));
                let y = choose|y: int| #[trigger] is_child(s0, x, y);
                assert(s1[y] == s0[y]);
                assert(is_child(s1, x, y));
            }
            assert forall|x: int, c1: int, c2: int|
                #[trigger] is_child(s1, x, c1) && #[trigger] is_child(s1, x, c2) && kind_at(s1, x)
                    == ContainerType::Workspace implies c1 == c2 by {
                assert(c1 != o as int && c2 != o as int);
                assert(live(s0, c1) && live(s0, c2));
                assert(is_child(s0, x, c1));
                assert(live(s0, par(s0, c1)));
                assert(s1[x] == s0[x]);
                assert(is_child(s0, x, c2));
            }
            assert forall|x: int|
                #[trigger] live(s1, x) && kind_at(s1, x) == ContainerType::Container implies kind_at(
                s1,
                par(s1, x),
            ) == ContainerType::Workspace by {
                assert(x != o as int);
                assert(live(s0, x));
                assert(live(s0, par(s0, x)));
                assert(s1[par(s0, x)] == s0[par(s0, x)]);
            }
            lemma_workspace_added_ok(s1, s3, o as int, w, c as int, seq!['1'], size);
            assert(output_added(s0, self.nodes(), o as int, w, c as int, handle, size)
                && self.active() == Some((c as int) as NodeIndex));
        }
        Ok(())
    }

    /// Adds a view for the window `handle` to the active container, after its
    /// other children (to the parent container when the active container is a
    /// view), and makes it active. Refused, with nothing changed, when nothing
    /// is active or that container's keys are used up.
    pub fn add_view(&mut self, handle: ViewHandle, geometry: Geometry) -> (r: Result<(), LayoutError>)
        requires
            old(self).inv(),
        ensures
            final(self).inv(),
            final(self).focus_queue() == old(self).focus_queue(),
            r is Err ==> final(self).nodes() == old(self).nodes() && final(self).active() == old(
                self,
            ).active(),
            old(self).active() is None ==> r == Err::<(), LayoutError>(
                LayoutError::NoActiveContainer,
            ),
            old(self).active() matches Some(a) ==> {
                let t = view_target(old(self).nodes(), a as int);
                &&& r is Err <==> max_key(old(self).nodes(), t, old(self).nodes().len() as int)
                    == u32::MAX
                &&& r is Err ==> r == Err::<(), LayoutError>(
                    LayoutError::Tree(TreeError::KeysExhausted),
                )
                &&& r is Ok ==> exists|v: int|
                    !live(old(self).nodes(), v) && 0 <= v <= old(self).nodes().len()
                        && final(self).nodes() == attached(
                        with_fresh(
                            old(self).nodes(),
                            v,
                            Container::View { handle, geometry, floating: false, visible: true },
                        ),
                        t,
                        v,
                    ) && final(self).active() == Some(v as NodeIndex)
            },
    {
        let a = match self.active_container {
            Some(a) => a,
            None => {
                return Err(LayoutError::NoActiveContainer);
            },
        };
        let ghost s0 = self.tree@;
        let mut t = a;
        if self.tree.node_type(a) == Some(ContainerType::View) {
            t = match self.tree.parent_of(a) {
                Some(p) => p,
                // not reached: the invariant guarantees a value here
                None => a,
            };
        }
        proof {
            assert(t as int == view_target(s0, a as int));
            assert(live(s0, t as int) && kind_at(s0, t as int) == ContainerType::Container) by {
                if kind_at(s0, a as int) == ContainerType::View {
                    assert(live(s0, par(s0, a as int)));
                }
            }
        }
        let vval = Container::new_view(handle, geometry);
        let v = match self.tree.add_child(t, vval) {
            Ok(v) => v,
            Err(e) => {
                return Err(LayoutError::Tree(e));
            },
        };
        self.active_container = Some(v);
        proof {
            let s2 = self.tree@;
            lemma_fresh_facts(s0, v as int, vval);
            let f0 = with_fresh(s0, v as int, vval);
            lemma_attached_facts(f0, t as int, v as int);
            assert forall|j: int| #[trigger] live(s0, j) implies s2[j] == s0[j] by {
                assert(j != v as int);
                assert(s2[j] == f0[j]);
            }
            assert forall|j: int| #[trigger] live(s2, j) == (live(s0, j) || j == v as int) by {}
            assert forall|i: int| #[trigger] live(s2, i) && i != 0 implies parent_at(s2, i) is Some by {
                if i != v as int {
                    assert(live(s0, i));
                }
            }
            assert forall|x: int|
                #[trigger] live(s2, x) && (kind_at(s2, x) == ContainerType::Output || kind_at(s2, x)
                    == ContainerType::Workspace) implies exists|y: int| #[trigger] is_child(s2, x, y) by {
                assert(x != v as int);
                assert(live(s0, x));
                let y = choose|y: int| #[trigger] is_child(s0, x, y);
                assert(s2[y] == s0[y]);
                assert(is_child(s2, x, y));
            }
            assert forall|x: int, c1: int, c2: int|
                #[trigger] is_child(s2, x, c1) && #[trigger] is_child(s2, x, c2) && kind_at(s2, x)
                    == ContainerType::Workspace implies c1 == c2 by {
                assert(s2[t as int] == s0[t as int]);
                assert(c1 != v as int && c2 != v as int);
                assert(live(s0, c1) && live(s0, c2));
                assert(is_child(s0, x, c1));
                assert(live(s0, par(s0, c1)));
                assert(s2[x] == s0[x]);
                assert(is_child(s0, x, c2));
            }
            assert forall|x: int|
                #[trigger] live(s2, x) && kind_at(s2, x) == ContainerType::Container implies kind_at(
                s2,
                par(s2, x),
            ) == ContainerType::Workspace by {
                assert(x != v as int);
                assert(live(s0, x));
                assert(live(s0, par(s0, x)));
                assert(s2[par(s0, x)] == s0[par(s0, x)]);
            }
        }
        Ok(())
    }

    /// Picks a new active container after a node below `start` was removed
    /// or moved away, and queues the matching focus request. Walking up from
    /// `start` through its containers, the first view found below one of them
    /// becomes active; when the walk reaches the workspace, the workspace's
    /// root container becomes active, or its first child when it has one.
    fn focus_on_next_container(&mut self, start: NodeIndex)
        requires
            layout_ok(old(self).nodes()),
            live(old(self).nodes(), start as int),
            kind_at(old(self).nodes(), start as int) == ContainerType::Container || kind_at(
                old(self).nodes(),
                start as int,
            ) == ContainerType::Workspace,
        ensures
            final(self).nodes() == old(self).nodes(),
            final(self).active() == Some(recovered(old(self).nodes(), start as int)),
            final(self).active() matches Some(x) && active_ok(final(self).nodes(), Some(x))
                && final(self).focus_queue() == old(self).focus_queue().push(
                focus_for(final(self).nodes(), x as int),
            ) && (kind_at(old(self).nodes(), start as int) == ContainerType::Workspace ==> ws_above(
                final(self).nodes(),
                x as int,
            ) == start),
    {
        let ghost s = self.tree@;
        let mut cur = start;
        proof {
            assert(live(s, start as int));
            assert(exists|k: nat| chain_ends(s, start as int, k));
        }
        let ghost mut k: nat = crate::graph_tree::chain_bound(s, start as int);
        while self.tree.node_type(cur) != Some(ContainerType::Workspace)
            invariant
                layout_ok(s),
                self.tree@ == s,
                s == old(self).nodes(),
                self.focus_requests@ == old(self).focus_queue(),
                live(s, cur as int),
                kind_at(s, cur as int) == ContainerType::Container || kind_at(s, cur as int)
                    == ContainerType::Workspace,
                kind_at(s, start as int) == ContainerType::Workspace ==> cur == start,
                chain_ends(s, cur as int, k),
                recovered(s, start as int) == pick_from(s, cur as int, k),
            decreases k,
        {
            if let Some(v) = self.tree.descendant_of_type(cur, ContainerType::View) {
                let h = match self.tree.get(v) {
                    Some(Container::View { handle, .. }) => *handle,
                    _ => 0,
                };
                self.active_container = Some(v);
                self.focus_requests.push(FocusRequest::View(h));
                return;
            }
            proof {
                assert(cur != 0);
                assert(parent_at(s, cur as int) is Some);
                assert(live(s, par(s, cur as int)));
                assert(legal_child(kind_at(s, par(s, cur as int)), kind_at(s, cur as int)));
            }
            cur = match self.tree.parent_of(cur) {
                Some(p) => p,
                // not reached: the invariant guarantees a value here
                None => cur,
            };
            proof {
                k = (k - 1) as nat;
            }
        }
        let children = self.tree.children_of(cur);
        proof {
            let y = choose|y: int| #[trigger] is_child(s, cur as int, y);
            assert(children@.contains(y as NodeIndex));
            assert(is_child(s, cur as int, children@[0] as int));
        }
        let container = children[0];
        let grand = self.tree.children_of(container);
        proof {
            assert(live(s, container as int) && legal_child(kind_at(s, cur as int), kind_at(s, container as int)));
        }
        proof {
            assert(recovered(s, start as int) == ws_pick(s, cur as int));
        }
        let target = if grand.len() > 0 {
            proof {
                let g = grand@[0] as int;
                assert(is_child(s, container as int, g));
                assert(live(s, g) && legal_child(kind_at(s, container as int), kind_at(s, g)));
            }
            grand[0]
        } else {
            container
        };
        self.active_container = Some(target);
        let req = match self.tree.get(target) {
            Some(Container::View { handle, .. }) => FocusRequest::View(*handle),
            _ => FocusRequest::Root,
        };
        self.focus_requests.push(req);
    }

    /// Removes the view of the window `handle`: the first such view in a
    /// pre-order walk from the root. When it was the active container, focus
    /// recovery starts at its parent container. `ViewNotFound`, with nothing
    /// changed, when no view holds the handle.
    pub fn remove_view(&mut self, handle: ViewHandle) -> (r: Result<(), LayoutError>)
        requires
            old(self).inv(),
        ensures
            final(self).inv(),
            r is Err ==> r == Err::<(), LayoutError>(LayoutError::ViewNotFound(handle))
                && final(self).nodes() == old(self).nodes() && final(self).active() == old(
                self,
            ).active() && final(self).focus_queue() == old(self).focus_queue()
                && forall|d: int|
                #[trigger] live(old(self).nodes(), d) ==> slot(old(self).nodes(), d).val.view_handle()
                    != Some(handle),
            r is Ok ==> exists|v: int|
                live(old(self).nodes(), v) && #[trigger] slot(old(self).nodes(), v).val.view_handle()
                    == Some(handle) && preorder_first(
                    old(self).nodes(),
                    0,
                    Target::Handle(handle),
                    old(self).nodes().len() as nat,
                ) == Some(v as NodeIndex) && final(self).nodes() == crate::graph_tree::removed(
                    old(self).nodes(),
                    v,
                ) && if old(self).active() == Some(v as NodeIndex) {
                    final(self).active() == Some(recovered(final(self).nodes(), par(old(self).nodes(), v)))
                        && (final(self).active() matches Some(x) && above(final(self).nodes(), 0, x as int)
                        && final(self).focus_queue() == old(self).focus_queue().push(
                        focus_for(final(self).nodes(), x as int),
                    ))
                } else {
                    final(self).active() == old(self).active() && final(self).focus_queue()
                        == old(self).focus_queue()
                },
    {
        let root = self.tree.root_ix();
        let v = match self.tree.descendant_with_handle(root, handle) {
            Some(v) => v,
            None => {
                proof {
                    assert forall|d: int| #[trigger] live(self.tree@, d) implies slot(
                        self.tree@,
                        d,
                    ).val.view_handle() != Some(handle) by {
                        lemma_below_root(self.tree@, d);
                    }
                }
                return Err(LayoutError::ViewNotFound(handle));
            },
        };
        let ghost s = self.tree@;
        proof {
            assert(kind_at(s, v as int) == ContainerType::View);
            assert(v != 0);
            assert(live(s, par(s, v as int)));
            assert(legal_child(kind_at(s, par(s, v as int)), kind_at(s, v as int)));
        }
        let parent = match self.tree.parent_of(v) {
            Some(p) => p,
            // not reached: the invariant guarantees a value here
            None => v,
        };
        let was_active = match self.active_container {
            Some(a) => a == v,
            None => false,
        };
        self.tree.remove(v);
        proof {
            lemma_remove_leaf_ok(s, self.tree@, v as int);
        }
        if was_active {
            self.focus_on_next_container(parent);
            proof {
                lemma_active_reachable(*self);
            }
        } else {
            proof {
                if let Some(a) = self.active_container {
                    assert(live(self.tree@, a as int));
                    assert(self.tree@[a as int] == s[a as int]);
                }
            }
        }
        Ok(())
    }

    /// Gets the index of the first workspace of this name, walking the
    /// outputs by key and the workspaces of each output by key.
    pub fn workspace_ix_by_name(&self, name: &str) -> (r: Option<NodeIndex>)
        requires
            self.inv(),
        ensures
            r matches Some(w) ==> first_named(self.nodes(), name@, w as int),
            r is None ==> forall|x: int| !#[trigger] named_ws(self.nodes(), name@, x),
    {
        let ghost s = self.tree@;
        let target = name.to_owned();
        let outs = self.tree.children_of(self.tree.root_ix());
        let mut i: usize = 0;
        while i < outs.len()
            invariant
                self.inv(),
                s == self.nodes(),
                target@ == name@,
                children_listed(s, 0, outs@),
                i <= outs@.len(),
                forall|x: int, j: int|
                    #![trigger named_ws(s, name@, x), outs@[j]] 0 <= j < i && named_ws(s, name@, x) ==> par(s, x) != outs@[j] as int,
            decreases outs@.len() - i,
        {
            let o = outs[i];
            let wss = self.tree.children_of(o);
            let mut jj: usize = 0;
            while jj < wss.len()
                invariant
                    self.inv(),
                    s == self.nodes(),
                    target@ == name@,
                    children_listed(s, 0, outs@),
                    children_listed(s, o as int, wss@),
                    i < outs@.len(),
                    o == outs@[i as int],
                    jj <= wss@.len(),
                    forall|x: int, j: int|
                        #![trigger named_ws(s, name@, x), outs@[j]] 0 <= j < i && named_ws(s, name@, x) ==> par(s, x) != outs@[j] as int,
                    forall|m: int| 0 <= m < jj ==> !#[trigger] named_ws(s, name@, wss@[m] as int),
                decreases wss@.len() - jj,
            {
                let w = wss[jj];
                proof {
                    assert(is_child(s, o as int, wss@[jj as int] as int));
                    assert(is_child(s, 0, outs@[i as int] as int));
                }
                let hit = match self.tree.get(w) {
                    Some(Container::Workspace { name: n, .. }) => *n == target,
                    _ => false,
                };
                if hit {
                    proof {
                        assert(named_ws(s, name@, w as int));
                        assert forall|x: int| #[trigger] named_ws(s, name@, x) && x != w as int implies ws_before(
                            s,
                            w as int,
                            x,
                        ) by {
                            let ox = par(s, x);
                            assert(is_child(s, 0, ox));
                            assert(outs@.contains(ox as NodeIndex));
                            let q = choose|q: int| 0 <= q < outs@.len() && outs@[q] == ox as NodeIndex;
                            if q == i {
                                assert(is_child(s, o as int, x));
                                assert(wss@.contains(x as NodeIndex));
                                let m = choose|m: int| 0 <= m < wss@.len() && wss@[m] == x as NodeIndex;
                                if m < jj {
                                    assert(named_ws(s, name@, wss@[m] as int));
                                } else if m > jj {
                                    assert(slot(s, wss@[jj as int] as int).key < slot(s, wss@[m] as int).key);
                                }
                            } else if q > i {
                                assert(slot(s, outs@[i as int] as int).key < slot(s, outs@[q] as int).key);
                            } else {
                                assert(par(s, x) != outs@[q] as int);
                            }
                        }
                    }
                    return Some(w);
                }
                proof {
                    assert(!named_ws(s, name@, wss@[jj as int] as int));
                }
                jj += 1;
            }
            proof {
                assert forall|x: int, j: int|
                    #![trigger named_ws(s, name@, x), outs@[j]] 0 <= j < i + 1 && named_ws(s, name@, x) implies par(s, x) != outs@[j] as int by {
                    if j == i && par(s, x) == outs@[j] as int {
                        assert(is_child(s, o as int, x));
                        assert(wss@.contains(x as NodeIndex));
                        let m = choose|m: int| 0 <= m < wss@.len() && wss@[m] == x as NodeIndex;
                        assert(!named_ws(s, name@, wss@[m] as int));
                    }
                }
            }
            i += 1;
        }
        proof {
            assert forall|x: int| !#[trigger] named_ws(s, name@, x) by {
                if named_ws(s, name@, x) {
                    let ox = par(s, x);
                    assert(outs@.contains(ox as NodeIndex));
                    let q = choose|q: int| 0 <= q < outs@.len() && outs@[q] == ox as NodeIndex;
                    assert(par(s, x) != outs@[q] as int);
                }
            }
        }
        None
    }

    /// Gets the first workspace of this name, or creates it, with its root
    /// container, on the output of the active container.
    fn get_or_make_workspace(&mut self, name: &str) -> (r: Result<NodeIndex, LayoutError>)
        requires
            old(self).inv(),
            old(self).active() is Some,
        ensures
            final(self).inv(),
            final(self).active() == old(self).active(),
            final(self).focus_queue() == old(self).focus_queue(),
            r is Err ==> r == Err::<NodeIndex, LayoutError>(LayoutError::Tree(TreeError::KeysExhausted))
                && final(self).nodes() == old(self).nodes() && forall|x: int|
                !#[trigger] named_ws(old(self).nodes(), name@, x),
            r matches Ok(w) ==> first_named(final(self).nodes(), name@, w as int) && kind_at(
                final(self).nodes(),
                w as int,
            ) == ContainerType::Workspace && ((exists|x: int| #[trigger]
                named_ws(old(self).nodes(), name@, x)) ==> first_named(old(self).nodes(), name@, w as int)
                && final(self).nodes() == old(self).nodes()) && live(old(self).nodes(), w as int)
                == (final(self).nodes() == old(self).nodes()),
            forall|j: int|
                #[trigger] live(old(self).nodes(), j) ==> live(final(self).nodes(), j)
                    && final(self).nodes()[j] == old(self).nodes()[j],
            r matches Ok(w) ==> (!live(old(self).nodes(), w as int) ==> exists|o: int, c: int, size: Size|
                workspace_added(old(self).nodes(), final(self).nodes(), o, w as int, c, name@, size)),
            r is Err <==> make_refused(old(self).nodes(), name@, old(self).active()->Some_0 as int),
            r matches Ok(w) ==> made_or_found(
                old(self).nodes(),
                final(self).nodes(),
                name@,
                old(self).active()->Some_0 as int,
                w as int,
            ),
    {
        let ghost s0 = self.tree@;
        let a = match self.active_container {
            Some(a) => a,
            // not reached: the invariant guarantees a value here
            None => 0,
        };
        proof {
            lemma_active_chain(s0, a as int);
        }
        if let Some(w) = self.workspace_ix_by_name(name) {
            proof {
                assert(named_ws(s0, name@, w as int));
                assert(name_taken(s0, name@));
            }
            return Ok(w);
        }
        proof {
            assert(!name_taken(s0, name@));
        }
        let o = match self.active_ix_of(ContainerType::Output) {
            Some(o) => o,
            // not reached: the invariant guarantees a value here
            None => 0,
        };
        let size = match self.tree.get(o) {
            Some(Container::Output { size, .. }) => *size,
            _ => Size { w: 0, h: 0 },
        };
        proof {
            assert(o as int == active_output(s0, a as int));
        }
        let c = match self.init_workspace(name.to_owned(), o, size) {
            Ok(c) => c,
            Err(e) => {
                return Err(e);
            },
        };
        let ghost s2 = self.tree@;
        let w = match self.tree.parent_of(c) {
            Some(w) => w,
            // not reached: the invariant guarantees a value here
            None => c,
        };
        proof {
            lemma_workspace_added_ok(s0, s2, o as int, w as int, c as int, name@, size);
            assert(s2[o as int] == s0[o as int]);
            assert(named_ws(s2, name@, w as int));
            assert forall|x: int| #[trigger] named_ws(s2, name@, x) && x != w as int implies ws_before(
                s2,
                w as int,
                x,
            ) by {
                assert(x != c as int);
                assert(live(s0, x));
                assert(s2[x] == s0[x]);
                assert(live(s0, par(s0, x)));
                assert(s2[par(s0, x)] == s0[par(s0, x)]);
                assert(named_ws(s0, name@, x));
            }
            assert(live(s0, a as int));
            assert(s2[a as int] == s0[a as int]);
            assert(s2 != s0) by {
                assert(!live(s0, w as int) && live(s2, w as int));
            }
            assert(workspace_added(s0, s2, o as int, w as int, c as int, name@, size));
            assert(o as int == active_output(s0, a as int));
            assert(size == output_size(slot(s0, o as int).val));
        }
        Ok(w)
    }

    /// Switches to the workspace `name`, creating it on the active output
    /// when no workspace has that name. Nothing happens when the active
    /// container is already on it. Otherwise the current workspace is hidden
    /// and the target shown; the current workspace is deleted when no view
    /// is left on it and its output keeps another workspace; and focus
    /// recovery picks the new active container on the target.
    #[verifier::rlimit(40)]
    pub fn switch_to_workspace(&mut self, name: &str) -> (r: Result<(), LayoutError>)
        requires
            old(self).inv(),
        ensures
            final(self).inv(),
            switched(*old(self), *final(self), name@, r),
    {
        let ghost t0 = *self;
        let ghost s0 = self.tree@;
        let a = match self.active_container {
            Some(a) => a,
            None => {
                return Err(LayoutError::NoActiveContainer);
            },
        };
        proof {
            lemma_active_chain(s0, a as int);
        }
        let old_ws = match self.active_ix_of(ContainerType::Workspace) {
            Some(w) => w,
            // not reached: the invariant guarantees a value here
            None => a,
        };
        let new_ws = match self.get_or_make_workspace(name) {
            Ok(w) => w,
            Err(e) => {
                return Err(e);
            },
        };
        let ghost s1 = self.tree@;
        proof {
            if first_named(s0, name@, ws_above(s0, a as int)) {
                lemma_first_named_unique(s0, name@, new_ws as int, old_ws as int);
            }
        }
        if new_ws == old_ws {
            return Ok(());
        }
        proof {
            assert(live(s0, old_ws as int));
            assert(live(s1, old_ws as int));
            assert(s1[old_ws as int] == s0[old_ws as int]);
        }
        self.tree.set_family_visible(old_ws, false);
        self.tree.set_family_visible(new_ws, true);
        let ghost s3 = self.tree@;
        proof {
            let s2 = crate::graph_tree::family_visible(s1, old_ws as int, false);
            lemma_visible_shape(s1, old_ws as int, false);
            lemma_same_shape_ok(s1, s2);
            lemma_visible_shape(s2, new_ws as int, true);
            lemma_same_shape_ok(s2, s3);
            assert(live(s3, old_ws as int) && live(s3, new_ws as int));
            assert(kind_at(s3, old_ws as int) == ContainerType::Workspace);
            assert(desc_within(s1, old_ws as int, old_ws as int, 0));
            assert(s2[old_ws as int] == Some(Slot {
                val: slot(s1, old_ws as int).val.with_visibility(false),
                parent: slot(s1, old_ws as int).parent,
                key: slot(s1, old_ws as int).key,
            }));
            assert(!above(s2, new_ws as int, old_ws as int)) by {
                if above(s2, new_ws as int, old_ws as int) {
                    let k = choose|k: nat| desc_within(s2, new_ws as int, old_ws as int, k);
                    lemma_below_ws_kind(s2, new_ws as int, old_ws as int, k);
                }
            }
            assert(s3[old_ws as int] == s2[old_ws as int]);
            assert(slot(s3, old_ws as int).val.visibility() == Some(false));
            assert(desc_within(s2, new_ws as int, new_ws as int, 0));
            assert(slot(s3, new_ws as int).val.visibility() == Some(true));
            assert forall|d: int|
                live(s0, d) && kind_at(s0, d) == ContainerType::View implies #[trigger] live(s3, d)
                    && kind_at(s3, d) == ContainerType::View by {
                assert(live(s1, d) && s1[d] == s0[d]);
            }
        }
        let no_views = self.tree.descendant_of_type(old_ws, ContainerType::View).is_none();
        proof {
            assert(no_views == forall|d: int| #[trigger] above(s3, old_ws as int, d) ==> kind_at(s3, d)
                != ContainerType::View);
        }
        if no_views {
            let out = match self.tree.parent_of(old_ws) {
                Some(o) => o,
                // not reached: the invariant guarantees a value here
                None => 0,
            };
            let sibs = self.tree.children_of(out);
            proof {
                assert(out as int == par(s3, old_ws as int));
                if sibs.len() < 2 {
                    assert(is_child(s3, out as int, old_ws as int));
                    assert(sibs@.contains(old_ws));
                    assert forall|w2: int| w2 != old_ws as int implies !#[trigger] is_child(s3, par(s3, old_ws as int), w2) by {
                        if is_child(s3, out as int, w2) {
                            assert(sibs@.contains(w2 as NodeIndex));
                        }
                    }
                    assert(!vacated(s3, old_ws as int));
                }
            }
            if sibs.len() >= 2 {
                proof {
                    let w2 = if sibs@[0] != old_ws {
                        sibs@[0] as int
                    } else {
                        sibs@[1] as int
                    };
                    assert(is_child(s3, out as int, sibs@[0] as int));
                    assert(is_child(s3, out as int, sibs@[1] as int));
                    assert(w2 != old_ws as int);
                    assert(is_child(s3, par(s3, old_ws as int), w2));
                    assert(old_ws != 0);
                }
                self.tree.remove_subtree(old_ws);
                proof {
                    let w2 = if sibs@[0] != old_ws {
                        sibs@[0] as int
                    } else {
                        sibs@[1] as int
                    };
                    lemma_prune_ok(s3, old_ws as int, w2);
                    assert(is_child(s3, par(s3, old_ws as int), w2));
                    assert(vacated(s3, old_ws as int));
                    assert(live(s3, new_ws as int));
                    assert(!above(s3, old_ws as int, new_ws as int));
                    let s4 = self.tree@;
                    assert(s4[new_ws as int] == s3[new_ws as int]);
                    assert forall|d: int|
                        live(s0, d) && kind_at(s0, d) == ContainerType::View implies #[trigger] live(s4, d) by {
                        assert(live(s3, d) && kind_at(s3, d) == ContainerType::View);
                        assert(!above(s3, old_ws as int, d));
                    }
                }
            }
        }
        proof {
            assert(live(self.tree@, new_ws as int));
            assert(self.tree@ == if vacated(s3, old_ws as int) {
                crate::graph_tree::pruned(s3, old_ws as int)
            } else {
                s3
            });
            assert(old_ws as int == ws_above(s0, a as int));
            assert(made_or_found(s0, s1, name@, a as int, new_ws as int));
            assert(switched_nodes(s0, self.tree@, name@, a as int, new_ws as int));
        }
        self.focus_on_next_container(new_ws);
        proof {
            assert(ws_above(self.tree@, self.active_container->Some_0 as int) == new_ws as int);
            assert(kind_at(self.tree@, new_ws as int) == ContainerType::Workspace);
            assert(self.active_container == Some(ws_pick(self.tree@, new_ws as int)));
        }
        Ok(())
    }

    /// Moves the active view to the workspace `name`, creating that
    /// workspace on the active output when no workspace has the name. The
    /// view goes below the target's root container, after its children, and
    /// is hidden; focus recovery then starts at the container it left. That
    /// container is a workspace's root container (views are only ever placed
    /// in root containers), so it stays even when left empty. Refused,
    /// with nothing changed, when nothing is active, when the active container
    /// is a workspace's root container, when the view is already on that
    /// workspace, or when the target root container's keys are used up.
    pub fn send_active_to_workspace(&mut self, name: &str) -> (r: Result<(), LayoutError>)
        requires
            old(self).inv(),
        ensures
            final(self).inv(),
            r is Err ==> unchanged(*old(self), *final(self)),
            old(self).active() is None ==> r == Err::<(), LayoutError>(LayoutError::NoActiveContainer),
            old(self).active() matches Some(a) ==> {
                let s = old(self).nodes();
                &&& kind_at(s, a as int) == ContainerType::Container ==> r == Err::<(), LayoutError>(
                    LayoutError::RootContainerMove,
                )
                &&& kind_at(s, a as int) == ContainerType::View && first_named(
                    s,
                    name@,
                    ws_above(s, a as int),
                ) ==> r == Err::<(), LayoutError>(LayoutError::SameWorkspace)
                &&& r is Err ==> r == Err::<(), LayoutError>(LayoutError::RootContainerMove) || r == Err::<
                    (),
                    LayoutError,
                >(LayoutError::SameWorkspace) || r == Err::<(), LayoutError>(
                    LayoutError::Tree(TreeError::KeysExhausted),
                )
                &&& kind_at(s, a as int) == ContainerType::View && !first_named(
                    s,
                    name@,
                    ws_above(s, a as int),
                ) ==> (r is Ok <==> !send_refused(s, name@, a as int))
                &&& r is Ok ==> sent(s, final(self).nodes(), name@, a as int) && final(self).active()
                    == Some(recovered(final(self).nodes(), par(s, a as int)))
                &&& r is Ok ==> {
                    let f = final(self).nodes();
                    &&& kind_at(s, a as int) == ContainerType::View
                    &&& live(f, a as int)
                    &&& slot(f, a as int).val == slot(s, a as int).val.with_visibility(false)
                    &&& first_named(f, name@, ws_above(f, a as int))
                    &&& ws_above(f, a as int) != ws_above(s, a as int)
                    &&& live(f, ws_above(s, a as int))
                    &&& final(self).active() is Some
                }
            },
    {
        let ghost t0 = *self;
        let ghost s0 = self.tree@;
        let a = match self.active_container {
            Some(a) => a,
            None => {
                return Err(LayoutError::NoActiveContainer);
            },
        };
        proof {
            lemma_active_chain(s0, a as int);
        }
        let curr_ws = match self.active_ix_of(ContainerType::Workspace) {
            Some(w) => w,
            // not reached: the invariant guarantees a value here
            None => a,
        };
        let parent = match self.tree.parent_of(a) {
            Some(p) => p,
            // not reached: the invariant guarantees a value here
            None => a,
        };
        if parent == curr_ws {
            return Err(LayoutError::RootContainerMove);
        }
        let next_ws = match self.get_or_make_workspace(name) {
            Ok(w) => w,
            Err(e) => {
                return Err(e);
            },
        };
        let ghost s1 = self.tree@;
        proof {
            if first_named(s0, name@, ws_above(s0, a as int)) {
                lemma_first_named_unique(s0, name@, next_ws as int, curr_ws as int);
            }
            if next_ws == curr_ws && !name_taken(s0, name@) {
                let c = choose|c: int|
                    workspace_added(
                        s0,
                        s1,
                        active_output(s0, a as int),
                        next_ws as int,
                        c,
                        name@,
                        output_size(slot(s0, active_output(s0, a as int)).val),
                    );
                assert(live(s0, curr_ws as int));
            }
        }
        if next_ws == curr_ws {
            return Err(LayoutError::SameWorkspace);
        }
        let next_root = {
            let roots = self.tree.children_of(next_ws);
            proof {
                let y = choose|y: int| #[trigger] is_child(s1, next_ws as int, y);
                assert(roots@.contains(y as NodeIndex));
                assert(is_child(s1, next_ws as int, roots@[0] as int));
            }
            roots[0]
        };
        proof {
            assert(live(s1, a as int) && s1[a as int] == s0[a as int]);
            assert(live(s1, parent as int) && s1[parent as int] == s0[parent as int]);
            let d = crate::graph_tree::detached(s1, a as int);
            let o = par(s1, next_ws as int);
            assert(live(s1, o) && legal_child(kind_at(s1, o), kind_at(s1, next_ws as int)));
            assert(o != 0);
            assert(live(s1, par(s1, o)) && legal_child(kind_at(s1, par(s1, o)), kind_at(s1, o)));
            assert(!above(d, a as int, next_root as int)) by {
                if above(d, a as int, next_root as int) {
                    let k = choose|k: nat| desc_within(d, a as int, next_root as int, k);
                    assert(desc_within(d, a as int, next_ws as int, (k - 1) as nat));
                    assert(desc_within(d, a as int, o, (k - 2) as nat));
                    assert(desc_within(d, a as int, par(s1, o), (k - 3) as nat));
                }
            }
            if !live(s0, next_ws as int) {
                let (o2, c2, size2) = choose|o2: int, c2: int, size2: Size|
                    workspace_added(s0, s1, o2, next_ws as int, c2, name@, size2);
                assert(is_child(s1, next_ws as int, c2));
                assert(next_root as int == c2);
                assert forall|j: int| 0 <= j < d.len() implies !#[trigger] is_child(d, c2, j) by {
                    if j != a as int && is_child(d, c2, j) {
                        assert(is_child(s1, c2, j));
                        if j != c2 && j != next_ws as int {
                            assert(live(s0, j));
                            assert(live(s0, par(s0, j)));
                        }
                    }
                }
                lemma_max_key_none(d, c2, d.len() as int);
            }
            // the target's root container and its keys
            assert(live(d, next_root as int) && live(d, a as int));
            assert(kind_at(d, next_root as int) == ContainerType::Container) by {
                assert(is_child(s1, next_ws as int, next_root as int));
                assert(legal_child(kind_at(s1, next_ws as int), kind_at(s1, next_root as int)));
            }
            if name_taken(s0, name@) {
                assert(s1 == s0);
                let fw = choose|w: int| first_named(s0, name@, w);
                lemma_first_named_unique(s0, name@, fw, next_ws as int);
                assert forall|j: int| 0 <= j < s1.len() implies (#[trigger] is_child(s1, next_root as int, j))
                    == is_child(d, next_root as int, j) by {
                    if j == a as int {
                        assert(par(s1, a as int) == parent as int);
                        assert(parent != next_root) by {
                            assert(is_child(s1, curr_ws as int, parent as int));
                            assert(is_child(s1, next_ws as int, next_root as int));
                        }
                    }
                }
                lemma_max_key_frame(s1, d, next_root as int, s1.len() as int);
                assert(send_refused(s0, name@, a as int) == (max_key(d, next_root as int, d.len() as int) == u32::MAX));
            } else {
                assert(!make_refused(s0, name@, a as int));
            }
        }
        match self.tree.move_node(a, next_root) {
            Ok(()) => {},
            Err(e) => {
                return Err(LayoutError::Tree(e));
            },
        }
        let ghost s2 = self.tree@;
        proof {
            lemma_view_moved(s1, s2, a as int, next_root as int);
        }
        self.tree.set_family_visible(a, false);
        self.tree.set_family_visible(curr_ws, true);
        proof {
            let s3 = self.tree@;
            let sv = crate::graph_tree::family_visible(s2, a as int, false);
            lemma_visible_shape(s2, a as int, false);
            lemma_same_shape_ok(s2, sv);
            lemma_visible_shape(sv, curr_ws as int, true);
            lemma_same_shape_ok(sv, s3);
            assert(live(s3, parent as int));
            assert(kind_at(s3, parent as int) == ContainerType::Container);
            assert(above(s2, a as int, a as int)) by {
                assert(desc_within(s2, a as int, a as int, 0));
            }
            assert(!above(sv, curr_ws as int, a as int)) by {
                if above(sv, curr_ws as int, a as int) {
                    let k = choose|k: nat| desc_within(sv, curr_ws as int, a as int, k);
                    assert(desc_within(sv, curr_ws as int, next_root as int, (k - 1) as nat));
                    assert(desc_within(sv, curr_ws as int, next_ws as int, (k - 2) as nat));
                    let o = par(sv, next_ws as int);
                    assert(desc_within(sv, curr_ws as int, o, (k - 3) as nat));
                    assert(desc_within(sv, curr_ws as int, 0, (k - 4) as nat));
                }
            }
            assert(ws_above(s3, a as int) == next_ws as int);
            assert(curr_ws as int == ws_above(s0, a as int));
            assert(made_or_found(s0, s1, name@, a as int, next_ws as int));
            assert(sent(s0, s3, name@, a as int));
        }
        self.focus_on_next_container(parent);
        Ok(())
    }

    /// Sets the geometry of the view of the window `handle` (the first such
    /// view in a pre-order walk from the root), as a drag does; nothing else
    /// changes. `ViewNotFound`, with nothing changed, when no view holds the
    /// handle.
    pub fn set_view_geometry(&mut self, handle: ViewHandle, g: Geometry) -> (r: Result<(), LayoutError>)
        requires
            old(self).inv(),
        ensures
            final(self).inv(),
            final(self).active() == old(self).active(),
            final(self).focus_queue() == old(self).focus_queue(),
            r is Err ==> r == Err::<(), LayoutError>(LayoutError::ViewNotFound(handle))
                && final(self).nodes() == old(self).nodes() && forall|d: int|
                #[trigger] live(old(self).nodes(), d) ==> slot(old(self).nodes(), d).val.view_handle()
                    != Some(handle),
            r is Ok ==> exists|v: int|
                live(old(self).nodes(), v) && #[trigger] slot(old(self).nodes(), v).val.view_handle()
                    == Some(handle) && final(self).nodes() == old(self).nodes().update(
                    v,
                    Some(
                        Slot {
                            val: slot(old(self).nodes(), v).val.with_geometry(g),
                            parent: slot(old(self).nodes(), v).parent,
                            key: slot(old(self).nodes(), v).key,
                        },
                    ),
                ),
    {
        let root = self.tree.root_ix();
        let v = match self.tree.descendant_with_handle(root, handle) {
            Some(v) => v,
            None => {
                proof {
                    assert forall|d: int| #[trigger] live(self.tree@, d) implies slot(
                        self.tree@,
                        d,
                    ).val.view_handle() != Some(handle) by {
                        lemma_below_root(self.tree@, d);
                    }
                }
                return Err(LayoutError::ViewNotFound(handle));
            },
        };
        let ghost s = self.tree@;
        self.tree.set_geometry(v, g);
        proof {
            let s2 = self.tree@;
            assert(same_shape(s, s2));
            lemma_same_shape_ok(s, s2);
            if let Some(a) = self.active_container {
                assert(live(s, a as int));
            }
        }
        Ok(())
    }

    /// Re-checks invariants 1–5 of the data model over the whole tree (see
    /// `model_ok`). Every operation keeps the stronger `inv`, so this
    /// returns `true` on any layout built through them
    /// (`lemma_inv_model_ok`).
    pub fn validate(&self) -> (r: bool)
        ensures
            r == model_ok(self.nodes(), self.active()),
    {
        if !self.tree.is_well_formed() {
            return false;
        }
        let ghost s = self.tree@;
        let n = self.tree.len();
        let mut i: usize = 0;
        while i < n
            invariant
                wf_slots(s),
                s == self.tree@,
                n == s.len(),
                i <= n,
                forall|j: int| 0 <= j < i ==> #[trigger] model_node_ok(s, j),
            decreases n - i,
        {
            if let Some(t) = self.tree.node_type(i) {
                if i != 0 && !self.tree.has_parent(i) {
                    proof {
                        assert(!model_node_ok(s, i as int));
                    }
                    return false;
                }
                if t == ContainerType::Output || t == ContainerType::Workspace {
                    let mut found = false;
                    let mut j: usize = 0;
                    while j < n && !found
                        invariant
                            wf_slots(s),
                            s == self.tree@,
                            n == s.len(),
                            i < n,
                            j <= n,
                            found ==> exists|c: int| #[trigger] is_child(s, i as int, c),
                            !found ==> forall|c: int| 0 <= c < j ==> !#[trigger] is_child(s, i as int, c),
                        decreases n - j,
                    {
                        if self.tree.contains(j) && self.tree.parent_of(j) == Some(i) {
                            proof {
                                assert(is_child(s, i as int, j as int));
                            }
                            found = true;
                        }
                        j += 1;
                    }
                    if !found {
                        proof {
                            assert forall|c: int| !#[trigger] is_child(s, i as int, c) by {
                                if is_child(s, i as int, c) {
                                    assert(0 <= c < n);
                                }
                            }
                            assert(!model_node_ok(s, i as int));
                        }
                        return false;
                    }
                }
                proof {
                    assert(model_node_ok(s, i as int));
                }
            } else {
                proof {
                    assert(model_node_ok(s, i as int));
                }
            }
            i += 1;
        }
        match self.active_container {
            None => true,
            Some(a) => match self.tree.node_type(a) {
                Some(ContainerType::Container) | Some(ContainerType::View) => true,
                _ => false,
            },
        }
    }

    /// Gets the currently active container.
    pub fn get_active_container(&self) -> (r: Option<&Container>)
        ensures
            r == match self.active() {
                Some(i) => if live(self.nodes(), i as int) {
                    Some(&slot(self.nodes(), i as int).val)
                } else {
                    None::<&Container>
                },
                None => None::<&Container>,
            },
    {
        match self.active_container {
            Some(i) => self.tree.get(i),
            None => None,
        }
    }

    /// The index of the active container if it has type `t`, else of its
    /// closest ancestor of that type.
    pub fn active_ix_of(&self, t: ContainerType) -> (r: Option<NodeIndex>)
        requires
            self.inv(),
        ensures
            r == match self.active() {
                Some(i) => if kind_at(self.nodes(), i as int) == t {
                    Some(i)
                } else {
                    ancestor_of(self.nodes(), i as int, t)
                },
                None => None::<NodeIndex>,
            },
            r matches Some(a) ==> live(self.nodes(), a as int) && kind_at(self.nodes(), a as int)
                == t,
    {
        match self.active_container {
            Some(i) => {
                if self.tree.node_type(i) == Some(t) {
                    Some(i)
                } else {
                    self.tree.ancestor_of_type(i, t)
                }
            },
            None => None,
        }
    }

    /// The output the active container is on.
    pub fn get_active_output(&self) -> (r: Option<&Container>)
        requires
            self.inv(),
        ensures
            r == match self.active() {
                Some(i) => match ancestor_of(self.nodes(), i as int, ContainerType::Output) {
                    Some(o) => Some(&slot(self.nodes(), o as int).val),
                    None => None::<&Container>,
                },
                None => None::<&Container>,
            },
    {
        match self.active_ix_of(ContainerType::Output) {
            Some(o) => self.tree.get(o),
            None => None,
        }
    }

    /// The workspace the active container is on.
    pub fn get_active_workspace(&self) -> (r: Option<&Container>)
        requires
            self.inv(),
        ensures
            r == match self.active() {
                Some(i) => match ancestor_of(self.nodes(), i as int, ContainerType::Workspace) {
                    Some(w) => Some(&slot(self.nodes(), w as int).val),
                    None => None::<&Container>,
                },
                None => None::<&Container>,
            },
    {
        match self.active_ix_of(ContainerType::Workspace) {
            Some(w) => self.tree.get(w),
            None => None,
        }
    }
}

} // verus!

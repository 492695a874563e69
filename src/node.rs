//! A tree of nodes that own their children.
//!
//! A node knows whether it hangs below a parent but holds no link back to
//! it; what needs the parent is asked of an ancestor, with the path of child
//! indices that leads from it to the node.
use vstd::prelude::*;

use crate::container::{Container, ContainerType, ViewHandle};

verus! {

#[derive(Debug)]
pub struct Node {
    attached: bool,
    val: Container,
    children: Vec<Node>,
}

/// The node reached from `n` by taking, at each level, the child whose
/// index is the next entry of `path`.
pub open spec fn node_at(n: Node, path: Seq<usize>) -> Option<Node>
    decreases path.len(),
{
    if path.len() == 0 {
        Some(n)
    } else {
        match node_at(n, path.drop_last()) {
            Some(m) => if path.last() < m.kids().len() {
                Some(m.kids()[path.last() as int])
            } else {
                None
            },
            None => None,
        }
    }
}

/// The depth of the deepest node of type `t` among the first `d` nodes on
/// `path` (the nodes at depths `0..d`).
pub open spec fn deepest_of_type(n: Node, path: Seq<usize>, t: ContainerType, d: int) -> Option<
    usize,
>
    decreases d,
{
    if d <= 0 {
        None
    } else {
        match node_at(n, path.take(d - 1)) {
            Some(m) => if m.value().kind() == t {
                Some((d - 1) as usize)
            } else {
                deepest_of_type(n, path, t, d - 1)
            },
            None => None,
        }
    }
}

/// `new` is `old` with the node at `path` (taken from below its parent)
/// removed; `path` is not empty.
pub open spec fn removed_at(old: Node, new: Node, path: Seq<usize>) -> bool
    decreases path.len(),
{
    &&& new.value() == old.value()
    &&& new.is_attached() == old.is_attached()
    &&& path.len() >= 1
    &&& path[0] < old.kids().len()
    &&& if path.len() == 1 {
        new.kids() == old.kids().remove(path[0] as int)
    } else {
        &&& new.kids().len() == old.kids().len()
        &&& forall|j: int| 0 <= j < old.kids().len() && j != path[0] ==> new.kids()[j] == old.kids()[j]
        &&& removed_at(old.kids()[path[0] as int], new.kids()[path[0] as int], path.drop_first())
    }
}

/// `new` is `old` with `added` hung, attached, after the children of the
/// node at `path`.
pub open spec fn pushed_at(old: Node, new: Node, path: Seq<usize>, added: Node) -> bool
    decreases path.len(),
{
    &&& new.value() == old.value()
    &&& new.is_attached() == old.is_attached()
    &&& if path.len() == 0 {
        &&& new.kids().len() == old.kids().len() + 1
        &&& new.kids().drop_last() == old.kids()
        &&& new.kids().last().value() == added.value()
        &&& new.kids().last().kids() == added.kids()
        &&& new.kids().last().is_attached()
    } else {
        &&& path[0] < old.kids().len()
        &&& new.kids().len() == old.kids().len()
        &&& forall|j: int| 0 <= j < old.kids().len() && j != path[0] ==> new.kids()[j] == old.kids()[j]
        &&& pushed_at(old.kids()[path[0] as int], new.kids()[path[0] as int], path.drop_first(), added)
    }
}

/// A path into a child, seen from the parent.
pub proof fn lemma_node_at_cons(n: Node, i: usize, path: Seq<usize>)
    requires
        i < n.kids().len(),
    ensures
        node_at(n, seq![i] + path) == node_at(n.kids()[i as int], path),
    decreases path.len(),
{
    if path.len() == 0 {
        assert((seq![i] + path).drop_last() =~= Seq::<usize>::empty());
    } else {
        assert((seq![i] + path).drop_last() =~= seq![i] + path.drop_last());
        lemma_node_at_cons(n, i, path.drop_last());
    }
}

/// A path that leads somewhere starts at a child.
pub proof fn lemma_node_at_split(n: Node, path: Seq<usize>)
    requires
        path.len() > 0,
        node_at(n, path) is Some,
    ensures
        path[0] < n.kids().len(),
        node_at(n, path) == node_at(n.kids()[path[0] as int], path.drop_first()),
{
    lemma_node_at_prefix(n, path, 1);
    assert(path.take(1).drop_last() =~= Seq::<usize>::empty());
    assert(path.take(1).len() == 1 && path.take(1).last() == path[0]);
    assert(node_at(n, path.take(1).drop_last()) == Some(n));
    assert(seq![path[0]] + path.drop_first() =~= path);
    lemma_node_at_cons(n, path[0], path.drop_first());
}

impl Node {
    pub closed spec fn value(&self) -> Container {
        self.val
    }

    pub closed spec fn kids(&self) -> Seq<Node> {
        self.children@
    }

    pub closed spec fn is_attached(&self) -> bool {
        self.attached
    }

    /// Create a new node with the existing value.
    /// For root-style constructors.
    pub fn new(val: Container) -> (r: Node)
        ensures
            r.value() == val,
            r.kids() == Seq::<Node>::empty(),
            !r.is_attached(),
    {
        Node { attached: false, val, children: Vec::new() }
    }

    /// Add a new child node to this node, using a value, and borrow it.
    pub fn new_child(&mut self, val: Container) -> (r: &mut Node)
        ensures
            r.value() == val,
            r.kids() == Seq::<Node>::empty(),
            r.is_attached(),
            final(self).kids() == old(self).kids().push(*final(r)),
            final(self).value() == old(self).value(),
            final(self).is_attached() == old(self).is_attached(),
    {
        let ghost before = self.children@;
        self.children.push(Node { attached: true, val, children: Vec::new() });
        let last = self.children.len() - 1;
        proof {
            assert forall|x: Node| #[trigger] self.children@.update(last as int, x) == before.push(x) by {
                assert(self.children@.update(last as int, x) =~= before.push(x));
            }
        }
        &mut self.children[last]
    }

    /// Whether this node hangs below a parent.
    pub fn has_parent(&self) -> (r: bool)
        ensures
            r == self.is_attached(),
    {
        self.attached
    }

    /// Gets the type of container this node holds.
    pub fn get_container_type(&self) -> (r: ContainerType)
        ensures
            r == self.value().kind(),
    {
        self.val.get_type()
    }

    /// For the node that `path` leads to from this one, the depth along
    /// `path` of its closest proper ancestor of type `t`. `None` when there
    /// is none, or when `path` leads nowhere.
    pub fn get_ancestor_of_type(&self, path: &Vec<usize>, t: ContainerType) -> (r: Option<usize>)
        ensures
            r == if node_at(*self, path@) is Some {
                deepest_of_type(*self, path@, t, path@.len() as int)
            } else {
                None::<usize>
            },
    {
        let mut cur: &Node = self;
        let mut best: Option<usize> = None;
        let mut i: usize = 0;
        while i < path.len()
            invariant
                i <= path@.len(),
                node_at(*self, path@.take(i as int)) == Some(*cur),
                best == deepest_of_type(*self, path@, t, i as int),
            decreases path@.len() - i,
        {
            if cur.val.get_type() == t {
                best = Some(i);
            }
            proof {
                assert(path@.take(i + 1).drop_last() =~= path@.take(i as int));
                assert(path@.take(i + 1).last() == path@[i as int]);
            }
            let k = path[i];
            if k >= cur.children.len() {
                proof {
                    assert(node_at(*self, path@.take(i + 1)) is None);
                    if node_at(*self, path@) is Some {
                        lemma_node_at_prefix(*self, path@, i as int + 1);
                    }
                }
                return None;
            }
            cur = &cur.children[k];
            i += 1;
        }
        proof {
            assert(path@.take(path@.len() as int) =~= path@);
        }
        best
    }

    /// Borrow the children of this node.
    pub fn get_children(&self) -> (r: &Vec<Node>)
        ensures
            r@ == self.kids(),
    {
        &self.children
    }

    /// Mutably borrow the children of this node.
    pub fn get_children_mut(&mut self) -> (r: &mut Vec<Node>)
        ensures
            r@ == old(self).kids(),
            final(self).kids() == final(r)@,
            final(self).value() == old(self).value(),
            final(self).is_attached() == old(self).is_attached(),
    {
        &mut self.children
    }

    /// Remove a child at the given index; it no longer has a parent.
    pub fn remove_child_at(&mut self, index: usize) -> (r: Node)
        requires
            index < old(self).kids().len(),
        ensures
            r.value() == old(self).kids()[index as int].value(),
            r.kids() == old(self).kids()[index as int].kids(),
            !r.is_attached(),
            final(self).kids() == old(self).kids().remove(index as int),
            final(self).value() == old(self).value(),
            final(self).is_attached() == old(self).is_attached(),
    {
        let mut child = self.children.remove(index);
        child.attached = false;
        child
    }

    /// Hangs this node below `new_parent`, after its other children.
    pub fn move_to(self, new_parent: &mut Node)
        ensures
            final(new_parent).kids().len() == old(new_parent).kids().len() + 1,
            final(new_parent).kids().drop_last() == old(new_parent).kids(),
            final(new_parent).kids().last().value() == self.value(),
            final(new_parent).kids().last().kids() == self.kids(),
            final(new_parent).kids().last().is_attached(),
            final(new_parent).value() == old(new_parent).value(),
            final(new_parent).is_attached() == old(new_parent).is_attached(),
    {
        let ghost before = new_parent.children@;
        let moved = Node { attached: true, val: self.val, children: self.children };
        new_parent.children.push(moved);
        proof {
            assert(new_parent.children@.drop_last() =~= before);
        }
    }

    /// Gets a node of this subtree that holds the view `view_handle`: this
    /// node if it does, else the first found among the children's subtrees
    /// in order.
    pub fn find_view_by_handle(&self, view_handle: ViewHandle) -> (r: Option<&Node>)
        ensures
            r matches Some(m) ==> m.value().view_handle() == Some(view_handle) && exists|p: Seq<usize>|
                node_at(*self, p) == Some(*m),
            r is None ==> forall|p: Seq<usize>|
                #[trigger] node_at(*self, p) matches Some(m) ==> m.value().view_handle() != Some(
                    view_handle,
                ),
        decreases self,
    {
        if let Container::View { handle, .. } = &self.val {
            if *handle == view_handle {
                proof {
                    assert(node_at(*self, Seq::<usize>::empty()) == Some(*self));
                }
                return Some(self);
            }
        }
        let mut i: usize = 0;
        while i < self.children.len()
            invariant
                i <= self.kids().len(),
                self.value().view_handle() != Some(view_handle),
                forall|j: int, p: Seq<usize>|
                    0 <= j < i ==> (#[trigger] node_at(self.kids()[j], p) matches Some(m)
                        ==> m.value().view_handle() != Some(view_handle)),
            decreases self.kids().len() - i,
        {
            proof {
                assert(decreases_to!(self => self.children));
            }
            match self.children[i].find_view_by_handle(view_handle) {
                Some(m) => {
                    proof {
                        let p = choose|p: Seq<usize>| node_at(self.kids()[i as int], p) == Some(*m);
                        lemma_node_at_cons(*self, i, p);
                    }
                    return Some(m);
                },
                None => {},
            }
            i += 1;
        }
        proof {
            assert forall|p: Seq<usize>| #[trigger] node_at(*self, p) is Some implies node_at(
                *self,
                p,
            )->Some_0.value().view_handle() != Some(view_handle) by {
                if p.len() > 0 {
                    lemma_node_at_split(*self, p);
                    assert(node_at(self.kids()[p[0] as int], p.drop_first()) is Some);
                }
            }
        }
        None
    }

    /// Takes the node that `path` leads to from below its parent; it no
    /// longer has a parent. `None`, with nothing changed, when `path` is
    /// empty (this node has no parent here) or leads nowhere.
    pub fn remove_from_parent(&mut self, path: &Vec<usize>) -> (r: Option<Node>)
        ensures
            r is Some <==> (path@.len() > 0 && node_at(*old(self), path@) is Some),
            r matches Some(m) ==> !m.is_attached() && m.value() == node_at(*old(self), path@)->Some_0.value()
                && m.kids() == node_at(*old(self), path@)->Some_0.kids() && removed_at(
                *old(self),
                *final(self),
                path@,
            ),
            r is None ==> *final(self) == *old(self),
    {
        if path.len() == 0 || !self.leads_somewhere(path) {
            return None;
        }
        proof {
            assert(path@.subrange(0, path@.len() as int) =~= path@);
        }
        Some(self.remove_at(path, 0))
    }

    fn remove_at(&mut self, path: &Vec<usize>, depth: usize) -> (r: Node)
        requires
            depth < path@.len(),
            node_at(*old(self), path@.subrange(depth as int, path@.len() as int)) is Some,
        ensures
            !r.is_attached(),
            r.value() == node_at(*old(self), path@.subrange(depth as int, path@.len() as int))->Some_0.value(),
            r.kids() == node_at(*old(self), path@.subrange(depth as int, path@.len() as int))->Some_0.kids(),
            removed_at(*old(self), *final(self), path@.subrange(depth as int, path@.len() as int)),
        decreases path@.len() - depth,
    {
        let ghost rest = path@.subrange(depth as int, path@.len() as int);
        proof {
            lemma_node_at_split(*self, rest);
            assert(rest.drop_first() =~= path@.subrange(depth + 1, path@.len() as int));
        }
        let k = path[depth];
        if depth == path.len() - 1 {
            let mut child = self.children.remove(k);
            child.attached = false;
            proof {
                assert(rest.drop_first() =~= Seq::<usize>::empty());
            }
            return child;
        }
        let ghost before = self.children@;
        let r = self.children[k].remove_at(path, depth + 1);
        proof {
            assert(self.children@ =~= before.update(k as int, self.children@[k as int]));
        }
        r
    }

    /// Hangs `node` after the siblings of the node that `path` leads to from
    /// this one. `Err`, with nothing changed, when `path` is empty (this node
    /// has no parent here) or leads nowhere.
    pub fn add_sibling(&mut self, path: &Vec<usize>, node: Node) -> (r: Result<(), ()>)
        ensures
            r is Ok <==> (path@.len() > 0 && node_at(*old(self), path@) is Some),
            r is Ok ==> pushed_at(*old(self), *final(self), path@.drop_last(), node),
            r is Err ==> *final(self) == *old(self),
    {
        if path.len() == 0 || !self.leads_somewhere(path) {
            return Err(());
        }
        proof {
            lemma_node_at_prefix(*self, path@, path@.len() - 1);
            assert(path@.subrange(0, path@.len() - 1) =~= path@.take(path@.len() - 1));
            assert(path@.subrange(0, path@.len() - 1) =~= path@.drop_last());
        }
        self.push_at(path, 0, path.len() - 1, node);
        Ok(())
    }

    /// Whether `path` leads somewhere from this node.
    fn leads_somewhere(&self, path: &Vec<usize>) -> (r: bool)
        ensures
            r == node_at(*self, path@) is Some,
    {
        let mut cur: &Node = self;
        let mut i: usize = 0;
        while i < path.len()
            invariant
                i <= path@.len(),
                node_at(*self, path@.take(i as int)) == Some(*cur),
            decreases path@.len() - i,
        {
            proof {
                assert(path@.take(i + 1).drop_last() =~= path@.take(i as int));
            }
            let k = path[i];
            if k >= cur.children.len() {
                proof {
                    if node_at(*self, path@) is Some {
                        lemma_node_at_prefix(*self, path@, i as int + 1);
                    }
                }
                return false;
            }
            cur = &cur.children[k];
            i += 1;
        }
        proof {
            assert(path@.take(path@.len() as int) =~= path@);
        }
        true
    }

    fn push_at(&mut self, path: &Vec<usize>, depth: usize, end: usize, node: Node)
        requires
            depth <= end <= path@.len(),
            node_at(*old(self), path@.subrange(depth as int, end as int)) is Some,
        ensures
            pushed_at(*old(self), *final(self), path@.subrange(depth as int, end as int), node),
        decreases end - depth,
    {
        let ghost rest = path@.subrange(depth as int, end as int);
        if depth == end {
            let ghost before = self.children@;
            let moved = Node { attached: true, val: node.val, children: node.children };
            self.children.push(moved);
            proof {
                assert(self.children@.drop_last() =~= before);
            }
            return;
        }
        proof {
            lemma_node_at_split(*self, rest);
            assert(rest.drop_first() =~= path@.subrange(depth + 1, end as int));
        }
        let k = path[depth];
        let ghost before = self.children@;
        self.children[k].push_at(path, depth + 1, end, node);
        proof {
            assert(self.children@ =~= before.update(k as int, self.children@[k as int]));
        }
    }

    /// Borrow this node's value.
    pub fn get_val(&self) -> (r: &Container)
        ensures
            *r == self.value(),
    {
        &self.val
    }
}

/// A path that leads somewhere has prefixes that lead somewhere.
pub proof fn lemma_node_at_prefix(n: Node, path: Seq<usize>, i: int)
    requires
        0 <= i <= path.len(),
        node_at(n, path) is Some,
    ensures
        node_at(n, path.take(i)) is Some,
    decreases path.len(),
{
    if i < path.len() {
        assert(path.drop_last().take(i) =~= path.take(i));
        lemma_node_at_prefix(n, path.drop_last(), i);
    } else {
        assert(path.take(i) =~= path);
    }
}

} // verus!

//! An arena of typed nodes joined by ordered parent links.
//!
//! Every node lives in a slot of one vector and is named by the slot's index.
//! A removed node leaves an empty slot behind, which a later node may take
//! over; the indices of the other nodes never change. Each node records its
//! parent and an order key, and siblings are listed by ascending key.
use vstd::prelude::*;

use crate::container::{legal_child, Container, ContainerType, Geometry, ViewHandle};

verus! {

/// Index of a node's slot in the arena.
pub type NodeIndex = usize;

/// One occupied slot: the payload, the link to the parent, and the key that
/// orders the node among its siblings.
#[derive(Debug)]
pub struct Slot {
    pub val: Container,
    pub parent: Option<NodeIndex>,
    pub key: u32,
}

/// Why a structural operation was refused; the arena is then left unchanged.
#[derive(Debug, Clone, Copy, PartialEq, Eq, Structural)]
pub enum TreeError {
    /// An index does not name a live node.
    NodeNotFound,
    /// The parent's type may not hold the child's type.
    InvalidChild { parent: ContainerType, child: ContainerType },
    /// The node to attach is already attached.
    HasParent,
    /// The new parent lies in the subtree of the node to attach.
    WouldCycle,
    /// The parent's largest order key is already `u32::MAX`.
    KeysExhausted,
}

pub open spec fn live(s: Seq<Option<Slot>>, i: int) -> bool {
    0 <= i < s.len() && s[i] is Some
}

pub open spec fn slot(s: Seq<Option<Slot>>, i: int) -> Slot {
    s[i]->Some_0
}

pub open spec fn kind_at(s: Seq<Option<Slot>>, i: int) -> ContainerType {
    slot(s, i).val.kind()
}

pub open spec fn parent_at(s: Seq<Option<Slot>>, i: int) -> Option<NodeIndex> {
    slot(s, i).parent
}

/// The parent of `i`, as an integer, where it has one.
pub open spec fn par(s: Seq<Option<Slot>>, i: int) -> int {
    parent_at(s, i)->Some_0 as int
}

/// `p` is the parent of the live node `c`.
pub open spec fn is_child(s: Seq<Option<Slot>>, p: int, c: int) -> bool {
    live(s, c) && parent_at(s, c) is Some && par(s, c) == p
}

/// Following at most `k` parent links up from `i` ends at a node without parent.
pub open spec fn chain_ends(s: Seq<Option<Slot>>, i: int, k: nat) -> bool
    decreases k,
{
    live(s, i) && match parent_at(s, i) {
        None => true,
        Some(p) => k > 0 && chain_ends(s, p as int, (k - 1) as nat),
    }
}

/// `a` is `d` or is reached from the live node `d` by at most `k` parent links.
pub open spec fn desc_within(s: Seq<Option<Slot>>, a: int, d: int, k: nat) -> bool
    decreases k,
{
    live(s, d) && (d == a || match parent_at(s, d) {
        None => false,
        Some(p) => k > 0 && desc_within(s, a, p as int, (k - 1) as nat),
    })
}

/// `a` is the live node `d` or one of its ancestors.
pub open spec fn above(s: Seq<Option<Slot>>, a: int, d: int) -> bool {
    exists|k: nat| desc_within(s, a, d, k)
}

/// The largest order key among the children of `p` in the slots below `n`
/// (0 when there are none).
pub open spec fn max_key(s: Seq<Option<Slot>>, p: int, n: int) -> u32
    decreases n,
{
    if n <= 0 {
        0
    } else {
        let m = max_key(s, p, n - 1);
        if is_child(s, p, n - 1) && slot(s, n - 1).key > m {
            slot(s, n - 1).key
        } else {
            m
        }
    }
}

/// The closest proper ancestor of `n` of type `t`, looking at most `k` links up.
pub open spec fn closest_ancestor(s: Seq<Option<Slot>>, n: int, t: ContainerType, k: nat) -> Option<
    NodeIndex,
>
    decreases k,
{
    if k == 0 || !live(s, n) {
        None
    } else {
        match parent_at(s, n) {
            None => None,
            Some(p) => if live(s, p as int) && kind_at(s, p as int) == t {
                Some(p)
            } else {
                closest_ancestor(s, p as int, t, (k - 1) as nat)
            },
        }
    }
}

/// A number of links within which the chain above `n` ends.
pub open spec fn chain_bound(s: Seq<Option<Slot>>, n: int) -> nat {
    choose|k: nat| chain_ends(s, n, k)
}

/// The closest proper ancestor of `n` of type `t`.
pub open spec fn ancestor_of(s: Seq<Option<Slot>>, n: int, t: ContainerType) -> Option<NodeIndex> {
    closest_ancestor(s, n, t, chain_bound(s, n))
}

/// `r` lists the children of `p`, each once, by ascending order key.
pub open spec fn children_listed(s: Seq<Option<Slot>>, p: int, r: Seq<NodeIndex>) -> bool {
    &&& forall|j: int| 0 <= j < r.len() ==> #[trigger] is_child(s, p, r[j] as int)
    &&& forall|c: int| #[trigger] is_child(s, p, c) ==> r.contains(c as NodeIndex)
    &&& forall|a: int, b: int|
        0 <= a < b < r.len() ==> slot(s, r[a] as int).key < slot(s, r[b] as int).key
}

/// The children of `p`, each once, by ascending order key.
pub open spec fn child_list(s: Seq<Option<Slot>>, p: int) -> Seq<NodeIndex> {
    choose|r: Seq<NodeIndex>| children_listed(s, p, r)
}

/// `r` is strictly increasing by order key.
pub open spec fn key_sorted(s: Seq<Option<Slot>>, r: Seq<NodeIndex>) -> bool {
    forall|a: int, b: int| 0 <= a < b < r.len() ==> slot(s, r[a] as int).key < slot(s, r[b] as int).key
}

/// Two lists sorted by key that hold the same nodes are the same list.
proof fn lemma_key_sorted_unique(s: Seq<Option<Slot>>, r1: Seq<NodeIndex>, r2: Seq<NodeIndex>)
    requires
        key_sorted(s, r1),
        key_sorted(s, r2),
        forall|x: NodeIndex| r1.contains(x) <==> r2.contains(x),
    ensures
        r1 == r2,
    decreases r1.len(),
{
    if r1.len() == 0 {
        if r2.len() > 0 {
            assert(r2.contains(r2[0]));
        }
        assert(r1 =~= r2);
    } else {
        assert(r1.contains(r1[0]));
        assert(r2.len() > 0);
        assert(r2.contains(r2[0]));
        let j2 = choose|j: int| 0 <= j < r2.len() && r2[j] == r1[0];
        let j1 = choose|j: int| 0 <= j < r1.len() && r1[j] == r2[0];
        if j1 > 0 && j2 > 0 {
            assert(slot(s, r1[0] as int).key < slot(s, r1[j1] as int).key);
            assert(slot(s, r2[0] as int).key < slot(s, r2[j2] as int).key);
        }
        assert(r1[0] == r2[0]);
        let t1 = r1.drop_first();
        let t2 = r2.drop_first();
        assert forall|x: NodeIndex| t1.contains(x) <==> t2.contains(x) by {
            if t1.contains(x) {
                let j = choose|j: int| 0 <= j < t1.len() && t1[j] == x;
                assert(r1[j + 1] == x);
                assert(slot(s, r1[0] as int).key < slot(s, r1[j + 1] as int).key);
                assert(r2.contains(x));
                let k = choose|k: int| 0 <= k < r2.len() && r2[k] == x;
                assert(k != 0);
                assert(t2[k - 1] == x);
            }
            if t2.contains(x) {
                let j = choose|j: int| 0 <= j < t2.len() && t2[j] == x;
                assert(r2[j + 1] == x);
                assert(slot(s, r2[0] as int).key < slot(s, r2[j + 1] as int).key);
                assert(r1.contains(x));
                let k = choose|k: int| 0 <= k < r1.len() && r1[k] == x;
                assert(k != 0);
                assert(t1[k - 1] == x);
            }
        }
        lemma_key_sorted_unique(s, t1, t2);
        assert(r1 =~= r2) by {
            assert forall|i: int| 0 <= i < r1.len() implies r1[i] == r2[i] by {
                if i > 0 {
                    assert(r1[i] == t1[i - 1]);
                    assert(r2[i] == t2[i - 1]);
                }
            }
        }
    }
}

/// A list of the children of `p` is the list of them.
pub proof fn lemma_child_list(s: Seq<Option<Slot>>, p: int, r: Seq<NodeIndex>)
    requires
        children_listed(s, p, r),
    ensures
        child_list(s, p) == r,
{
    let c = child_list(s, p);
    assert(children_listed(s, p, c));
    assert forall|x: NodeIndex| r.contains(x) <==> c.contains(x) by {
        if r.contains(x) {
            let j = choose|j: int| 0 <= j < r.len() && r[j] == x;
            assert(is_child(s, p, r[j] as int));
        }
        if c.contains(x) {
            let j = choose|j: int| 0 <= j < c.len() && c[j] == x;
            assert(is_child(s, p, c[j] as int));
        }
    }
    lemma_key_sorted_unique(s, r, c);
}

/// The first node hit by `t` in a pre-order walk from `n`: `n` itself, then
/// the subtrees of its children by ascending key, at most `fuel` levels down.
pub open spec fn preorder_first(s: Seq<Option<Slot>>, n: int, t: Target, fuel: nat) -> Option<
    NodeIndex,
>
    decreases fuel, 0int,
{
    if hits(slot(s, n).val, t) {
        Some(n as NodeIndex)
    } else if fuel == 0 {
        None
    } else {
        first_among(s, child_list(s, n), 0, t, (fuel - 1) as nat)
    }
}

/// The first hit in the pre-order walks from `cs[i]`, `cs[i + 1]`, ...
pub open spec fn first_among(s: Seq<Option<Slot>>, cs: Seq<NodeIndex>, i: int, t: Target, fuel: nat) -> Option<
    NodeIndex,
>
    decreases fuel, cs.len() - i,
{
    if i < 0 || i >= cs.len() {
        None
    } else {
        match preorder_first(s, cs[i] as int, t, fuel) {
            Some(d) => Some(d),
            None => first_among(s, cs, i + 1, t, fuel),
        }
    }
}

/// The node `n` with its parent link removed.
pub open spec fn detached(s: Seq<Option<Slot>>, n: int) -> Seq<Option<Slot>> {
    if live(s, n) {
        s.update(n, Some(Slot { val: slot(s, n).val, parent: None, key: slot(s, n).key }))
    } else {
        s
    }
}

/// The floating node `c` hung below `p`, after all of `p`'s children.
pub open spec fn attached(s: Seq<Option<Slot>>, p: int, c: int) -> Seq<Option<Slot>> {
    s.update(
        c,
        Some(
            Slot {
                val: slot(s, c).val,
                parent: Some(p as NodeIndex),
                key: (max_key(s, p, s.len() as int) + 1) as u32,
            },
        ),
    )
}

/// What refuses hanging `c` below `p`, if anything does.
pub open spec fn attach_refusal(s: Seq<Option<Slot>>, p: int, c: int) -> Option<TreeError> {
    if !live(s, p) || !live(s, c) {
        Some(TreeError::NodeNotFound)
    } else if parent_at(s, c) is Some {
        Some(TreeError::HasParent)
    } else if !legal_child(kind_at(s, p), kind_at(s, c)) {
        Some(TreeError::InvalidChild { parent: kind_at(s, p), child: kind_at(s, c) })
    } else if above(s, c, p) {
        Some(TreeError::WouldCycle)
    } else if max_key(s, p, s.len() as int) == u32::MAX {
        Some(TreeError::KeysExhausted)
    } else {
        None
    }
}

/// The arena after `n` is deleted: its children lose their parent link and
/// its slot is emptied.
pub open spec fn removed(s: Seq<Option<Slot>>, n: int) -> Seq<Option<Slot>> {
    Seq::new(
        s.len(),
        |i: int|
            if i == n {
                None
            } else if is_child(s, n, i) {
                Some(Slot { val: slot(s, i).val, parent: None, key: slot(s, i).key })
            } else {
                s[i]
            },
    )
}

/// The arena after the nodes at or below `n` take visibility `v`.
pub open spec fn family_visible(s: Seq<Option<Slot>>, n: int, v: bool) -> Seq<Option<Slot>> {
    Seq::new(
        s.len(),
        |i: int|
            if above(s, n, i) {
                Some(
                    Slot {
                        val: slot(s, i).val.with_visibility(v),
                        parent: slot(s, i).parent,
                        key: slot(s, i).key,
                    },
                )
            } else {
                s[i]
            },
    )
}

/// The arena with the payload `val` placed, without parent, in the free slot
/// `r` (or in a new last slot when `r` is the length).
pub open spec fn with_fresh(s: Seq<Option<Slot>>, r: int, val: Container) -> Seq<Option<Slot>> {
    if r < s.len() {
        s.update(r, Some(Slot { val, parent: None, key: 0 }))
    } else {
        s.push(Some(Slot { val, parent: None, key: 0 }))
    }
}

/// What refuses a new child of type `t` below `p`, if anything does.
pub open spec fn add_refusal(s: Seq<Option<Slot>>, p: int, t: ContainerType) -> Option<TreeError> {
    if !live(s, p) {
        Some(TreeError::NodeNotFound)
    } else if !legal_child(kind_at(s, p), t) {
        Some(TreeError::InvalidChild { parent: kind_at(s, p), child: t })
    } else if max_key(s, p, s.len() as int) == u32::MAX {
        Some(TreeError::KeysExhausted)
    } else {
        None
    }
}

/// The arena after `n` and every node below it are deleted.
pub open spec fn pruned(s: Seq<Option<Slot>>, n: int) -> Seq<Option<Slot>> {
    Seq::new(s.len(), |x: int| if above(s, n, x) { None } else { s[x] })
}

/// What a depth-first search looks for.
#[derive(Debug, Clone, Copy, PartialEq, Eq, Structural)]
pub enum Target {
    Kind(ContainerType),
    Handle(ViewHandle),
}

pub open spec fn hits(c: Container, t: Target) -> bool {
    match t {
        Target::Kind(k) => c.kind() == k,
        Target::Handle(h) => c.view_handle() == Some(h),
    }
}

/// The shape every arena keeps: one root in slot 0, parents that are live and
/// may hold their children, distinct keys among siblings, and no cycles.
pub open spec fn wf_slots(s: Seq<Option<Slot>>) -> bool {
    &&& s.len() >= 1
    &&& live(s, 0) && kind_at(s, 0) == ContainerType::Root && parent_at(s, 0) is None
    &&& forall|i: int| #[trigger] live(s, i) && i != 0 ==> kind_at(s, i) != ContainerType::Root
    &&& forall|i: int|
        #[trigger] live(s, i) && parent_at(s, i) is Some ==> live(s, parent_at(s, i)->Some_0 as int)
            && legal_child(kind_at(s, parent_at(s, i)->Some_0 as int), kind_at(s, i))
    &&& forall|i: int, j: int|
        #[trigger] live(s, i) && #[trigger] live(s, j) && i != j && parent_at(s, i) is Some
            && parent_at(s, i) == parent_at(s, j) ==> slot(s, i).key != slot(s, j).key
    &&& forall|i: int| #[trigger] live(s, i) ==> exists|k: nat| chain_ends(s, i, k)
}

/// Layout tree arena.
#[derive(Debug)]
pub struct Tree {
    slots: Vec<Option<Slot>>,
}

impl View for Tree {
    type V = Seq<Option<Slot>>;

    closed spec fn view(&self) -> Seq<Option<Slot>> {
        self.slots@
    }
}

// ---------------------------------------------------------------------------
// Lemmas on parent chains

pub proof fn lemma_chain_mono(s: Seq<Option<Slot>>, i: int, k: nat, k2: nat)
    requires
        chain_ends(s, i, k),
        k <= k2,
    ensures
        chain_ends(s, i, k2),
    decreases k,
{
    if let Some(p) = parent_at(s, i) {
        lemma_chain_mono(s, p as int, (k - 1) as nat, (k2 - 1) as nat);
    }
}

/// Chains stay finite where links are only kept or cut.
pub proof fn lemma_chain_cut(s1: Seq<Option<Slot>>, s2: Seq<Option<Slot>>, i: int, k: nat)
    requires
        chain_ends(s1, i, k),
        live(s2, i),
        forall|j: int|
            #[trigger] live(s2, j) ==> live(s1, j) && (parent_at(s2, j) is None || (parent_at(
                s2,
                j,
            ) == parent_at(s1, j) && live(s2, parent_at(s2, j)->Some_0 as int))),
    ensures
        chain_ends(s2, i, k),
    decreases k,
{
    if let Some(p) = parent_at(s2, i) {
        lemma_chain_cut(s1, s2, p as int, (k - 1) as nat);
    }
}

pub proof fn lemma_desc_mono(s: Seq<Option<Slot>>, a: int, d: int, k: nat, k2: nat)
    requires
        desc_within(s, a, d, k),
        k <= k2,
    ensures
        desc_within(s, a, d, k2),
    decreases k,
{
    if d != a {
        let p = parent_at(s, d)->Some_0 as int;
        lemma_desc_mono(s, a, p, (k - 1) as nat, (k2 - 1) as nat);
    }
}

/// Ancestry survives where the links of all live nodes are kept.
pub proof fn lemma_desc_frame(s1: Seq<Option<Slot>>, s2: Seq<Option<Slot>>, a: int, d: int, k: nat)
    requires
        desc_within(s1, a, d, k),
        forall|j: int|
            #[trigger] live(s1, j) ==> live(s2, j) && parent_at(s2, j) == parent_at(s1, j),
    ensures
        desc_within(s2, a, d, k),
    decreases k,
{
    if d != a {
        let p = parent_at(s1, d)->Some_0 as int;
        lemma_desc_frame(s1, s2, a, p, (k - 1) as nat);
    }
}

/// A child's descendants are descendants of its parent, one link further.
pub proof fn lemma_desc_step(s: Seq<Option<Slot>>, n: int, c: int, d: int, k: nat)
    requires
        desc_within(s, c, d, k),
        is_child(s, n, c),
        live(s, n),
    ensures
        desc_within(s, n, d, k + 1),
    decreases k,
{
    if d == c {
        assert(desc_within(s, n, n, 0));
        assert(desc_within(s, n, c, 1));
        lemma_desc_mono(s, n, c, 1, k + 1);
    } else {
        let p = parent_at(s, d)->Some_0 as int;
        lemma_desc_step(s, n, c, p, (k - 1) as nat);
    }
}

/// A proper descendant of `n` lies below one of `n`'s children.
pub proof fn lemma_desc_split(s: Seq<Option<Slot>>, n: int, d: int, k: nat) -> (c: int)
    requires
        desc_within(s, n, d, k),
        d != n,
    ensures
        is_child(s, n, c),
        k > 0,
        desc_within(s, c, d, (k - 1) as nat),
    decreases k,
{
    let p = parent_at(s, d)->Some_0 as int;
    if p == n {
        assert(desc_within(s, d, d, (k - 1) as nat));
        d
    } else {
        let c = lemma_desc_split(s, n, p, (k - 1) as nat);
        assert(desc_within(s, c, d, (k - 1) as nat));
        c
    }
}

/// Ancestry is transitive.
pub proof fn lemma_desc_trans(s: Seq<Option<Slot>>, a: int, b: int, d: int, k1: nat, k2: nat)
    requires
        desc_within(s, a, b, k1),
        desc_within(s, b, d, k2),
    ensures
        desc_within(s, a, d, k1 + k2),
    decreases k2,
{
    if d == b {
        lemma_desc_mono(s, a, b, k1, k1 + k2);
    } else {
        let p = parent_at(s, d)->Some_0 as int;
        lemma_desc_trans(s, a, b, p, k1, (k2 - 1) as nat);
    }
}

pub proof fn lemma_max_key(s: Seq<Option<Slot>>, p: int, n: int, c: int)
    requires
        0 <= c < n,
        is_child(s, p, c),
    ensures
        slot(s, c).key <= max_key(s, p, n),
    decreases n,
{
    if c < n - 1 {
        lemma_max_key(s, p, n - 1, c);
    }
}

pub proof fn lemma_max_key_frame(s1: Seq<Option<Slot>>, s2: Seq<Option<Slot>>, p: int, n: int)
    requires
        n <= s1.len(),
        n <= s2.len(),
        forall|j: int| 0 <= j < n ==> (#[trigger] is_child(s1, p, j)) == is_child(s2, p, j),
        forall|j: int| 0 <= j < n && #[trigger] is_child(s1, p, j) ==> slot(s1, j).key == slot(s2, j).key,
    ensures
        max_key(s1, p, n) == max_key(s2, p, n),
    decreases n,
{
    if n > 0 {
        lemma_max_key_frame(s1, s2, p, n - 1);
    }
}

/// The chain above `p` is untouched by relinking `c` when `c` is not above `p`.
proof fn lemma_chain_avoiding(
    s: Seq<Option<Slot>>,
    s2: Seq<Option<Slot>>,
    c: int,
    p: int,
    k: nat,
)
    requires
        chain_ends(s, p, k),
        !desc_within(s, c, p, k),
        s2.len() == s.len(),
        forall|j: int| 0 <= j < s.len() && j != c ==> s2[j] == s[j],
    ensures
        chain_ends(s2, p, k),
    decreases k,
{
    if let Some(q) = parent_at(s, p) {
        lemma_chain_avoiding(s, s2, c, q as int, (k - 1) as nat);
    }
}

/// Hanging the floating `c` below `p`, with `p`'s chain ending within `kp`
/// links and avoiding `c`, keeps every chain finite.
proof fn lemma_chain_attach(
    s: Seq<Option<Slot>>,
    s2: Seq<Option<Slot>>,
    c: int,
    p: int,
    kp: nat,
    x: int,
    k: nat,
)
    requires
        chain_ends(s, x, k),
        chain_ends(s2, p, kp),
        s2.len() == s.len(),
        is_child(s2, p, c),
        forall|j: int| 0 <= j < s.len() && j != c ==> s2[j] == s[j],
    ensures
        chain_ends(s2, x, k + kp + 1),
    decreases k,
{
    if x == c {
        assert(chain_ends(s2, c, kp + 1));
        lemma_chain_mono(s2, c, kp + 1, k + kp + 1);
    } else if let Some(q) = parent_at(s, x) {
        lemma_chain_attach(s, s2, c, p, kp, q as int, (k - 1) as nat);
    }
}

/// Inserting the child `i` where the keys pass its own keeps a list of
/// children sorted and complete.
proof fn lemma_sorted_insert(
    s: Seq<Option<Slot>>,
    p: int,
    old_r: Seq<NodeIndex>,
    pos: int,
    i: NodeIndex,
    r: Seq<NodeIndex>,
)
    requires
        wf_slots(s),
        0 <= pos <= old_r.len(),
        i < s.len(),
        is_child(s, p, i as int),
        r == old_r.insert(pos, i),
        forall|j: int| 0 <= j < old_r.len() ==> #[trigger] is_child(s, p, old_r[j] as int),
        forall|j: int| 0 <= j < old_r.len() ==> old_r[j] < i,
        forall|c: int| 0 <= c < i && #[trigger] is_child(s, p, c) ==> old_r.contains(c as NodeIndex),
        forall|a: int, b: int|
            0 <= a < b < old_r.len() ==> slot(s, old_r[a] as int).key < slot(
                s,
                old_r[b] as int,
            ).key,
        forall|j: int| 0 <= j < pos ==> slot(s, old_r[j] as int).key < slot(s, i as int).key,
        pos < old_r.len() ==> slot(s, old_r[pos] as int).key > slot(s, i as int).key,
    ensures
        forall|j: int| 0 <= j < r.len() ==> #[trigger] is_child(s, p, r[j] as int),
        forall|j: int| 0 <= j < r.len() ==> r[j] < i + 1,
        forall|c: int| 0 <= c < i + 1 && #[trigger] is_child(s, p, c) ==> r.contains(c as NodeIndex),
        forall|a: int, b: int|
            0 <= a < b < r.len() ==> slot(s, r[a] as int).key < slot(s, r[b] as int).key,
{
    old_r.insert_ensures(pos, i);
    assert forall|j: int| 0 <= j < r.len() implies #[trigger] is_child(s, p, r[j] as int) && r[j]
        < i + 1 by {
        if j < pos {
            assert(r[j] == old_r[j]);
        } else if j > pos {
            assert(r[j] == old_r[j - 1]);
        }
    }
    assert forall|c: int| 0 <= c < i + 1 && #[trigger] is_child(s, p, c) implies r.contains(
        c as NodeIndex,
    ) by {
        if c == i {
            assert(r[pos] == i);
        } else {
            let j = choose|j: int| 0 <= j < old_r.len() && old_r[j] == c;
            if j < pos {
                assert(r[j] == c);
            } else {
                assert(r[j + 1] == c);
            }
        }
    }
    assert forall|a: int, b: int| 0 <= a < b < r.len() implies slot(s, r[a] as int).key < slot(
        s,
        r[b] as int,
    ).key by {
        if a < pos {
            assert(r[a] == old_r[a]);
        } else if a > pos {
            assert(r[a] == old_r[a - 1]);
        }
        if b < pos {
            assert(r[b] == old_r[b]);
        } else if b > pos {
            assert(r[b] == old_r[b - 1]);
            if a == pos && b - 1 > pos {
                assert(slot(s, old_r[pos] as int).key < slot(s, old_r[b - 1] as int).key);
            }
        }
    }
}

/// Ancestry read in a larger arena that agrees on the old live nodes only
/// meets old live nodes.
proof fn lemma_desc_live(s0: Seq<Option<Slot>>, s1: Seq<Option<Slot>>, a: int, d: int, k: nat)
    requires
        wf_slots(s0),
        desc_within(s1, a, d, k),
        live(s0, d),
        forall|j: int| #[trigger] live(s0, j) ==> live(s1, j) && s1[j] == s0[j],
    ensures
        live(s0, a),
    decreases k,
{
    if d != a {
        let p = parent_at(s1, d)->Some_0 as int;
        assert(live(s0, p));
        lemma_desc_live(s0, s1, a, p, (k - 1) as nat);
    }
}

proof fn lemma_chain_frame(s0: Seq<Option<Slot>>, s1: Seq<Option<Slot>>, i: int, k: nat)
    requires
        wf_slots(s0),
        chain_ends(s0, i, k),
        forall|j: int| #[trigger] live(s0, j) ==> live(s1, j) && s1[j] == s0[j],
    ensures
        chain_ends(s1, i, k),
    decreases k,
{
    if let Some(p) = parent_at(s0, i) {
        lemma_chain_frame(s0, s1, p as int, (k - 1) as nat);
    }
}

/// Links are the same in two arenas, so ancestry is too.
pub proof fn lemma_above_same_links(s1: Seq<Option<Slot>>, s2: Seq<Option<Slot>>)
    requires
        s1.len() == s2.len(),
        forall|j: int| #[trigger] live(s1, j) == live(s2, j),
        forall|j: int| live(s1, j) ==> #[trigger] parent_at(s1, j) == parent_at(s2, j),
    ensures
        forall|a: int, d: int| #[trigger] above(s1, a, d) == above(s2, a, d),
{
    assert forall|a: int, d: int| #[trigger] above(s1, a, d) == above(s2, a, d) by {
        if above(s1, a, d) {
            let k = choose|k: nat| desc_within(s1, a, d, k);
            lemma_desc_frame(s1, s2, a, d, k);
        }
        if above(s2, a, d) {
            let k = choose|k: nat| desc_within(s2, a, d, k);
            lemma_desc_frame(s2, s1, a, d, k);
        }
    }
}

/// Only a live node is an ancestor.
pub proof fn lemma_desc_top_live(s: Seq<Option<Slot>>, a: int, d: int, k: nat)
    requires
        desc_within(s, a, d, k),
    ensures
        live(s, a),
    decreases k,
{
    if d != a {
        lemma_desc_top_live(s, a, parent_at(s, d)->Some_0 as int, (k - 1) as nat);
    }
}

/// What placing a fresh floating node changes: one slot becomes live, with
/// no children and no effect on any node's largest child key.
pub proof fn lemma_fresh_facts(s0: Seq<Option<Slot>>, r: int, val: Container)
    requires
        wf_slots(s0),
        !live(s0, r),
        0 <= r <= s0.len(),
    ensures
        forall|j: int| #[trigger] live(with_fresh(s0, r, val), j) == (live(s0, j) || j == r),
        forall|j: int| #[trigger] live(s0, j) ==> with_fresh(s0, r, val)[j] == s0[j],
        forall|j: int| !#[trigger] is_child(with_fresh(s0, r, val), r, j),
        forall|p: int|
            #[trigger] max_key(with_fresh(s0, r, val), p, with_fresh(s0, r, val).len() as int)
                == max_key(s0, p, s0.len() as int),
        slot(with_fresh(s0, r, val), r) == (Slot { val, parent: None, key: 0 }),
        with_fresh(s0, r, val).len() == if r == s0.len() {
            s0.len() + 1 as int
        } else {
            s0.len() as int
        },
{
    let f = with_fresh(s0, r, val);
    assert forall|j: int| !#[trigger] is_child(f, r, j) by {
        if is_child(f, r, j) && j != r {
            assert(f[j] == s0[j]);
            assert(live(s0, j));
        }
    }
    assert forall|p: int| #[trigger] max_key(f, p, f.len() as int) == max_key(s0, p, s0.len() as int) by {
        lemma_max_key_frame(s0, f, p, s0.len() as int);
    }
}

/// What attaching changes: the one slot `c`.
pub proof fn lemma_attached_facts(s: Seq<Option<Slot>>, p: int, c: int)
    requires
        0 <= c < s.len(),
        live(s, c),
    ensures
        attached(s, p, c).len() == s.len(),
        forall|j: int| #[trigger] live(attached(s, p, c), j) == live(s, j),
        forall|j: int| 0 <= j < s.len() && j != c ==> #[trigger] attached(s, p, c)[j] == s[j],
        slot(attached(s, p, c), c).parent == Some(p as NodeIndex),
        slot(attached(s, p, c), c).val == slot(s, c).val,
        slot(attached(s, p, c), c).key == (max_key(s, p, s.len() as int) + 1) as u32,
{
}

/// A child of a node in the subtree of `n` is in that subtree too.
pub proof fn lemma_above_child(s: Seq<Option<Slot>>, n: int, d: int, x: int)
    requires
        above(s, n, d),
        is_child(s, d, x),
    ensures
        above(s, n, x),
{
    let k = choose|k: nat| desc_within(s, n, d, k);
    assert(desc_within(s, n, x, k + 1));
}

/// A node attached below `p` comes after every child `p` already had; in
/// particular a node cut from `p` and attached to `p` again keeps its place
/// after the siblings attached before it.
pub proof fn lemma_attach_goes_last(s: Seq<Option<Slot>>, p: int, c: int, x: int)
    requires
        wf_slots(s),
        attach_refusal(s, p, c) is None,
        is_child(s, p, x),
    ensures
        is_child(attached(s, p, c), p, x),
        is_child(attached(s, p, c), p, c),
        slot(attached(s, p, c), x).key == slot(s, x).key,
        slot(attached(s, p, c), x).key < slot(attached(s, p, c), c).key,
{
    lemma_max_key(s, p, s.len() as int, x);
}

/// Attaching `c` below `p` puts it after `p`'s children: the list of
/// children, by key, is the old one followed by `c`.
pub proof fn lemma_attach_appends(s: Seq<Option<Slot>>, p: NodeIndex, c: NodeIndex, l: Seq<NodeIndex>)
    requires
        wf_slots(s),
        attach_refusal(s, p as int, c as int) is None,
        children_listed(s, p as int, l),
    ensures
        children_listed(attached(s, p as int, c as int), p as int, l.push(c)),
{
    let s2 = attached(s, p as int, c as int);
    let l2 = l.push(c);
    assert forall|j: int| 0 <= j < l2.len() implies #[trigger] is_child(s2, p as int, l2[j] as int) by {
        if j < l.len() {
            assert(is_child(s, p as int, l[j] as int));
            assert(l[j] != c);
        }
    }
    assert forall|x: int| #[trigger] is_child(s2, p as int, x) implies l2.contains(x as NodeIndex) by {
        if x == c as int {
            assert(l2[l.len() as int] == c);
        } else {
            assert(is_child(s, p as int, x));
            let j = choose|j: int| 0 <= j < l.len() && l[j] == x as NodeIndex;
            assert(l2[j] == x as NodeIndex);
        }
    }
    assert forall|a: int, b: int| 0 <= a < b < l2.len() implies slot(s2, l2[a] as int).key < slot(
        s2,
        l2[b] as int,
    ).key by {
        assert(is_child(s, p as int, l[a] as int));
        assert(l[a] != c);
        if b < l.len() {
            assert(is_child(s, p as int, l[b] as int));
            assert(l[b] != c);
        } else {
            lemma_max_key(s, p as int, s.len() as int, l[a] as int);
        }
    }
}

/// Cutting a node from its parent and attaching it to the same parent again
/// keeps it after every sibling that was attached before it.
pub proof fn lemma_reattach_keeps_order(s: Seq<Option<Slot>>, p: int, n: int, x: int)
    requires
        wf_slots(s),
        is_child(s, p, n),
        is_child(s, p, x),
        x != n,
        slot(s, x).key < slot(s, n).key,
        attach_refusal(detached(s, n), p, n) is None,
    ensures
        is_child(attached(detached(s, n), p, n), p, x),
        is_child(attached(detached(s, n), p, n), p, n),
        slot(attached(detached(s, n), p, n), x).key < slot(attached(detached(s, n), p, n), n).key,
{
    let d = detached(s, n);
    assert(is_child(d, p, x));
    lemma_max_key(d, p, d.len() as int, x);
}

/// The ancestors of `d`, `d` included.
pub open spec fn ancestors(s: Seq<Option<Slot>>, d: int) -> Set<int> {
    Set::new(|x: int| above(s, x, d))
}

proof fn lemma_ancestors_bounded(s: Seq<Option<Slot>>, d: int)
    ensures
        ancestors(s, d).finite(),
        ancestors(s, d).len() <= s.len(),
{
    let range = vstd::set_lib::set_int_range(0, s.len() as int);
    assert forall|x: int| ancestors(s, d).contains(x) implies range.contains(x) by {
        let k = choose|k: nat| desc_within(s, x, d, k);
        lemma_desc_top_live(s, x, d, k);
    }
    vstd::set_lib::lemma_int_range(0, s.len() as int);
    vstd::set_lib::lemma_len_subset(ancestors(s, d), range);
}

/// The chain from `d` up to an ancestor is shorter than `d` has ancestors.
proof fn lemma_desc_short(s: Seq<Option<Slot>>, a: int, d: int, k: nat)
    requires
        wf_slots(s),
        desc_within(s, a, d, k),
    ensures
        ancestors(s, d).len() >= 1,
        desc_within(s, a, d, (ancestors(s, d).len() - 1) as nat),
    decreases k,
{
    lemma_ancestors_bounded(s, d);
    assert(desc_within(s, d, d, 0));
    assert(ancestors(s, d).contains(d));
    if d != a {
        let p = par(s, d);
        lemma_desc_short(s, a, p, (k - 1) as nat);
        lemma_ancestors_bounded(s, p);
        assert forall|x: int| ancestors(s, p).contains(x) implies ancestors(s, d).remove(d).contains(
            x,
        ) by {
            let j = choose|j: nat| desc_within(s, x, p, j);
            assert(desc_within(s, x, d, j + 1));
            if x == d {
                assert(live(s, p));
                let kp = choose|kk: nat| chain_ends(s, p, kk);
                lemma_no_cycle(s, p, d, j, kp);
            }
        }
        vstd::set_lib::lemma_len_subset(ancestors(s, p), ancestors(s, d).remove(d));
        assert(desc_within(s, a, d, ancestors(s, p).len() as nat));
        lemma_desc_mono(
            s,
            a,
            d,
            ancestors(s, p).len() as nat,
            (ancestors(s, d).len() - 1) as nat,
        );
    }
}

/// In a well-formed arena every ancestor is fewer links up than there are slots.
pub proof fn lemma_desc_within_len(s: Seq<Option<Slot>>, a: int, d: int)
    requires
        wf_slots(s),
        above(s, a, d),
    ensures
        desc_within(s, a, d, s.len() as nat),
{
    let k = choose|k: nat| desc_within(s, a, d, k);
    lemma_desc_short(s, a, d, k);
    lemma_ancestors_bounded(s, d);
    lemma_desc_mono(s, a, d, (ancestors(s, d).len() - 1) as nat, s.len() as nat);
}

/// A chain that ends does so within fewer links than its node has ancestors.
proof fn lemma_chain_short(s: Seq<Option<Slot>>, i: int, k: nat)
    requires
        chain_ends(s, i, k),
    ensures
        ancestors(s, i).len() >= 1,
        chain_ends(s, i, (ancestors(s, i).len() - 1) as nat),
    decreases k,
{
    lemma_ancestors_bounded(s, i);
    assert(desc_within(s, i, i, 0));
    assert(ancestors(s, i).contains(i));
    if let Some(pp) = parent_at(s, i) {
        let p = pp as int;
        lemma_chain_short(s, p, (k - 1) as nat);
        lemma_ancestors_bounded(s, p);
        assert forall|x: int| ancestors(s, p).contains(x) implies ancestors(s, i).remove(i).contains(
            x,
        ) by {
            let j = choose|j: nat| desc_within(s, x, p, j);
            assert(desc_within(s, x, i, j + 1));
            if x == i {
                lemma_no_cycle(s, p, i, j, (k - 1) as nat);
            }
        }
        vstd::set_lib::lemma_len_subset(ancestors(s, p), ancestors(s, i).remove(i));
        assert(chain_ends(s, i, ancestors(s, p).len() as nat));
        lemma_chain_mono(s, i, ancestors(s, p).len() as nat, (ancestors(s, i).len() - 1) as nat);
    }
}

/// A chain that ends does so within as many links as there are slots.
proof fn lemma_chain_within_len(s: Seq<Option<Slot>>, i: int, k: nat)
    requires
        chain_ends(s, i, k),
    ensures
        chain_ends(s, i, s.len() as nat),
{
    lemma_chain_short(s, i, k);
    lemma_ancestors_bounded(s, i);
    lemma_chain_mono(s, i, (ancestors(s, i).len() - 1) as nat, s.len() as nat);
}

/// The per-node part of well-formedness.
pub open spec fn node_ok(s: Seq<Option<Slot>>, i: int) -> bool {
    live(s, i) ==> (i != 0 ==> kind_at(s, i) != ContainerType::Root) && (parent_at(s, i) is Some
        ==> live(s, parent_at(s, i)->Some_0 as int) && legal_child(
        kind_at(s, parent_at(s, i)->Some_0 as int),
        kind_at(s, i),
    ))
}

// ---------------------------------------------------------------------------
// The arena

impl Tree {
    pub open spec fn wf(&self) -> bool {
        wf_slots(self@)
    }

    /// A tree that holds only its root.
    pub fn new() -> (r: Tree)
        ensures
            r.wf(),
            r@ == seq![Some(Slot { val: Container::Root, parent: None, key: 0 })],
    {
        let mut slots: Vec<Option<Slot>> = Vec::new();
        slots.push(Some(Slot { val: Container::Root, parent: None, key: 0 }));
        let r = Tree { slots };
        proof {
            assert(chain_ends(r@, 0, 0));
        }
        r
    }

    /// The index of the root node.
    pub fn root_ix(&self) -> (r: NodeIndex)
        ensures
            r == 0,
    {
        0
    }

    /// The number of slots, occupied or not.
    pub fn len(&self) -> (r: usize)
        ensures
            r == self@.len(),
    {
        self.slots.len()
    }

    /// Whether `n` names a live node.
    pub fn contains(&self, n: NodeIndex) -> (r: bool)
        ensures
            r == live(self@, n as int),
    {
        n < self.slots.len() && self.slots[n].is_some()
    }

    /// Gets the payload of a node.
    pub fn get(&self, n: NodeIndex) -> (r: Option<&Container>)
        ensures
            r == if live(self@, n as int) {
                Some(&slot(self@, n as int).val)
            } else {
                None::<&Container>
            },
    {
        if n < self.slots.len() {
            match &self.slots[n] {
                Some(s) => Some(&s.val),
                None => None,
            }
        } else {
            None
        }
    }

    /// Gets the type of a node.
    pub fn node_type(&self, n: NodeIndex) -> (r: Option<ContainerType>)
        ensures
            r == if live(self@, n as int) {
                Some(kind_at(self@, n as int))
            } else {
                None::<ContainerType>
            },
    {
        match self.get(n) {
            Some(c) => Some(c.get_type()),
            None => None,
        }
    }

    /// The parent of a node, if the node is live and attached.
    pub fn parent_of(&self, n: NodeIndex) -> (r: Option<NodeIndex>)
        ensures
            r == if live(self@, n as int) {
                parent_at(self@, n as int)
            } else {
                None::<NodeIndex>
            },
    {
        if n < self.slots.len() {
            match &self.slots[n] {
                Some(s) => s.parent,
                None => None,
            }
        } else {
            None
        }
    }

    /// Whether a node has a parent.
    pub fn has_parent(&self, n: NodeIndex) -> (r: bool)
        ensures
            r == (live(self@, n as int) && parent_at(self@, n as int) is Some),
    {
        self.parent_of(n).is_some()
    }

    /// Whether `n` is the last slot of the arena.
    pub fn is_last_ix(&self, n: NodeIndex) -> (r: bool)
        ensures
            r == (n + 1 == self@.len()),
    {
        n < self.slots.len() && n == self.slots.len() - 1
    }

    /// The largest order key among the children of `p` (0 when it has none).
    fn largest_child(&self, p: NodeIndex) -> (r: u32)
        ensures
            r == max_key(self@, p as int, self@.len() as int),
    {
        let mut m: u32 = 0;
        let mut i: usize = 0;
        while i < self.slots.len()
            invariant
                i <= self@.len(),
                m == max_key(self@, p as int, i as int),
            decreases self@.len() - i,
        {
            if let Some(s) = &self.slots[i] {
                if s.parent == Some(p) && s.key > m {
                    m = s.key;
                }
            }
            i += 1;
        }
        m
    }

    /// Gets the children of a node, by ascending order key; empty for a node
    /// that is not live or has no children.
    pub fn children_of(&self, p: NodeIndex) -> (r: Vec<NodeIndex>)
        requires
            self.wf(),
        ensures
            children_listed(self@, p as int, r@),
            r@ == child_list(self@, p as int),
    {
        let mut r: Vec<NodeIndex> = Vec::new();
        let mut i: usize = 0;
        while i < self.slots.len()
            invariant
                self.wf(),
                i <= self@.len(),
                forall|j: int| 0 <= j < r@.len() ==> #[trigger] is_child(self@, p as int, r@[j] as int),
                forall|j: int| 0 <= j < r@.len() ==> r@[j] < i,
                forall|c: int| 0 <= c < i && #[trigger] is_child(self@, p as int, c) ==> r@.contains(
                    c as NodeIndex,
                ),
                forall|a: int, b: int|
                    0 <= a < b < r@.len() ==> slot(self@, r@[a] as int).key < slot(
                        self@,
                        r@[b] as int,
                    ).key,
            decreases self@.len() - i,
        {
            if let Some(s) = &self.slots[i] {
                if s.parent == Some(p) {
                    let key = s.key;
                    let mut pos: usize = 0;
                    while pos < r.len()
                        invariant
                            self.wf(),
                            pos <= r@.len(),
                            i < self@.len(),
                            live(self@, i as int),
                            slot(self@, i as int).key == key,
                            forall|j: int| 0 <= j < r@.len() ==> r@[j] < i,
                            forall|j: int| 0 <= j < r@.len() ==> #[trigger] is_child(self@, p as int, r@[j] as int),
                            forall|j: int| 0 <= j < pos ==> slot(self@, r@[j] as int).key < key,
                        ensures
                            pos <= r@.len(),
                            forall|j: int| 0 <= j < pos ==> slot(self@, r@[j] as int).key < key,
                            pos < r@.len() ==> slot(self@, r@[pos as int] as int).key >= key,
                        decreases r@.len() - pos,
                    {
                        let ri = r[pos];
                        proof {
                            assert(is_child(self@, p as int, r@[pos as int] as int));
                        }
                        let rk = match &self.slots[ri] {
                            Some(t) => t.key,
                            None => 0,
                        };
                        if rk >= key {
                            break;
                        }
                        pos += 1;
                    }
                    proof {
                        if pos < r@.len() {
                            let q = r@[pos as int] as int;
                            assert(is_child(self@, p as int, q));
                            assert(live(self@, q) && live(self@, i as int) && q != i);
                        }
                    }
                    let ghost old_r = r@;
                    r.insert(pos, i);
                    proof {
                        lemma_sorted_insert(self@, p as int, old_r, pos as int, i, r@);
                    }
                }
            }
            i += 1;
        }
        proof {
            lemma_child_list(self@, p as int, r@);
        }
        r
    }

    /// Whether `a` is `d` or an ancestor of `d`, for a live `d`.
    pub fn is_above(&self, a: NodeIndex, d: NodeIndex) -> (r: bool)
        requires
            self.wf(),
            live(self@, d as int),
        ensures
            r == above(self@, a as int, d as int),
    {
        let ghost k0 = choose|k: nat| chain_ends(self@, d as int, k);
        let ghost mut k: nat = k0;
        let mut cur = d;
        loop
            invariant
                self.wf(),
                live(self@, cur as int),
                chain_ends(self@, cur as int, k),
                above(self@, a as int, d as int) == above(self@, a as int, cur as int),
            decreases k,
        {
            if cur == a {
                proof {
                    assert(desc_within(self@, a as int, cur as int, 0));
                }
                return true;
            }
            match self.parent_of(cur) {
                None => {
                    proof {
                        assert forall|j: nat| !desc_within(self@, a as int, cur as int, j) by {}
                    }
                    return false;
                },
                Some(p) => {
                    proof {
                        assert forall|j: nat| desc_within(self@, a as int, cur as int, j) implies above(
                            self@,
                            a as int,
                            p as int,
                        ) by {
                            assert(desc_within(self@, a as int, p as int, (j - 1) as nat));
                        }
                        assert forall|j: nat| desc_within(self@, a as int, p as int, j) implies above(
                            self@,
                            a as int,
                            cur as int,
                        ) by {
                            assert(desc_within(self@, a as int, cur as int, j + 1));
                        }
                        k = (k - 1) as nat;
                    }
                    cur = p;
                },
            }
        }
    }

    /// Points the live node `i` at a new parent with a new key.
    fn set_link(&mut self, i: NodeIndex, parent: Option<NodeIndex>, key: u32)
        requires
            live(old(self)@, i as int),
        ensures
            final(self)@ == old(self)@.update(
                i as int,
                Some(Slot { val: slot(old(self)@, i as int).val, parent, key }),
            ),
    {
        let mut taken: Option<Slot> = None;
        std::mem::swap(&mut self.slots[i], &mut taken);
        match taken {
            Some(mut sl) => {
                sl.parent = parent;
                sl.key = key;
                self.slots.set(i, Some(sl));
            },
            None => {},
        }
    }

    /// Stores a floating node in the first free slot, or in a new last slot.
    fn place_floating(&mut self, val: Container) -> (r: NodeIndex)
        ensures
            r <= old(self)@.len(),
            !live(old(self)@, r as int),
            final(self)@ == with_fresh(old(self)@, r as int, val),
    {
        let mut i: usize = 0;
        while i < self.slots.len()
            invariant
                self@ == old(self)@,
                i <= self@.len(),
                forall|j: int| 0 <= j < i ==> live(self@, j),
            decreases self@.len() - i,
        {
            if self.slots[i].is_none() {
                self.slots.set(i, Some(Slot { val, parent: None, key: 0 }));
                return i;
            }
            i += 1;
        }
        self.slots.push(Some(Slot { val, parent: None, key: 0 }));
        i
    }

    /// Hangs the floating node `c` below `p`, after all of `p`'s children.
    /// Refused, with the arena unchanged, when either is not live, `c` has a
    /// parent, `p`'s type may not hold `c`'s, `p` lies below `c`, or `p`'s
    /// keys are used up.
    pub fn attach_child(&mut self, p: NodeIndex, c: NodeIndex) -> (r: Result<(), TreeError>)
        requires
            old(self).wf(),
        ensures
            final(self).wf(),
            r == match attach_refusal(old(self)@, p as int, c as int) {
                Some(e) => Err::<(), TreeError>(e),
                None => Ok(()),
            },
            r is Ok ==> final(self)@ == attached(old(self)@, p as int, c as int),
            r is Err ==> final(self)@ == old(self)@,
    {
        if !self.contains(p) || !self.contains(c) {
            return Err(TreeError::NodeNotFound);
        }
        if self.has_parent(c) {
            return Err(TreeError::HasParent);
        }
        let pt = match self.node_type(p) {
            Some(t) => t,
            // not reached: the invariant guarantees a value here
            None => ContainerType::Root,
        };
        let ct = match self.node_type(c) {
            Some(t) => t,
            // not reached: the invariant guarantees a value here
            None => ContainerType::Root,
        };
        if !pt.can_have_child(ct) {
            return Err(TreeError::InvalidChild { parent: pt, child: ct });
        }
        if self.is_above(c, p) {
            return Err(TreeError::WouldCycle);
        }
        let m = self.largest_child(p);
        if m == u32::MAX {
            return Err(TreeError::KeysExhausted);
        }
        let ghost s = self@;
        self.set_link(c, Some(p), m + 1);
        proof {
            let s2 = self@;
            assert(s2 =~= attached(s, p as int, c as int));
            assert(c != 0);
            let kp = choose|k: nat| chain_ends(s, p as int, k);
            assert(chain_ends(s, p as int, kp));
            assert(!desc_within(s, c as int, p as int, kp));
            lemma_chain_avoiding(s, s2, c as int, p as int, kp);
            assert(is_child(s2, p as int, c as int));
            assert forall|i: int| #[trigger] live(s2, i) implies exists|k: nat| chain_ends(s2, i, k) by {
                assert(live(s, i));
                let k = choose|k: nat| chain_ends(s, i, k);
                lemma_chain_attach(s, s2, c as int, p as int, kp, i, k);
            }
            assert forall|i: int, j: int|
                #[trigger] live(s2, i) && #[trigger] live(s2, j) && i != j && parent_at(s2, i) is Some
                    && parent_at(s2, i) == parent_at(s2, j) implies slot(s2, i).key != slot(
                s2,
                j,
            ).key by {
                if i == c as int {
                    assert(is_child(s, p as int, j));
                    lemma_max_key(s, p as int, s.len() as int, j);
                } else if j == c as int {
                    assert(is_child(s, p as int, i));
                    lemma_max_key(s, p as int, s.len() as int, i);
                } else {
                    assert(live(s, i) && live(s, j));
                }
            }
            assert forall|i: int|
                #[trigger] live(s2, i) && parent_at(s2, i) is Some implies live(
                s2,
                parent_at(s2, i)->Some_0 as int,
            ) && legal_child(kind_at(s2, parent_at(s2, i)->Some_0 as int), kind_at(s2, i)) by {
                assert(live(s, i));
            }
            assert forall|i: int| #[trigger] live(s2, i) && i != 0 implies kind_at(s2, i)
                != ContainerType::Root by {
                assert(live(s, i));
            }
        }
        Ok(())
    }

    /// Adds a new node holding `val` below `p`, after all of `p`'s children,
    /// and returns its index. Refused, with the arena unchanged, when `p` is not
    /// live, `p`'s type may not hold `val`'s, or `p`'s keys are used up.
    pub fn add_child(&mut self, p: NodeIndex, val: Container) -> (r: Result<NodeIndex, TreeError>)
        requires
            old(self).wf(),
        ensures
            final(self).wf(),
            match add_refusal(old(self)@, p as int, val.kind()) {
                Some(e) => r == Err::<NodeIndex, TreeError>(e) && final(self)@ == old(self)@,
                None => r matches Ok(c) && c <= old(self)@.len() && !live(old(self)@, c as int)
                    && final(self)@ == attached(with_fresh(old(self)@, c as int, val), p as int, c as int),
            },
    {
        if !self.contains(p) {
            return Err(TreeError::NodeNotFound);
        }
        let pt = match self.node_type(p) {
            Some(t) => t,
            // not reached: the invariant guarantees a value here
            None => ContainerType::Root,
        };
        let ct = val.get_type();
        if !pt.can_have_child(ct) {
            return Err(TreeError::InvalidChild { parent: pt, child: ct });
        }
        if self.largest_child(p) == u32::MAX {
            return Err(TreeError::KeysExhausted);
        }
        let ghost s0 = self@;
        let c = self.place_floating(val);
        proof {
            let s1 = self@;
            assert forall|j: int| #[trigger] live(s0, j) implies live(s1, j) && s1[j] == s0[j] by {}
            assert forall|i: int| #[trigger] live(s1, i) implies exists|k: nat| chain_ends(s1, i, k) by {
                if i == c as int {
                    assert(chain_ends(s1, i, 0));
                } else {
                    assert(live(s0, i));
                    let k = choose|k: nat| chain_ends(s0, i, k);
                    lemma_chain_frame(s0, s1, i, k);
                }
            }
            assert(c != 0);
            assert forall|i: int|
                #[trigger] live(s1, i) && parent_at(s1, i) is Some implies live(
                s1,
                parent_at(s1, i)->Some_0 as int,
            ) && legal_child(kind_at(s1, parent_at(s1, i)->Some_0 as int), kind_at(s1, i)) by {
                assert(live(s0, i));
            }
            assert forall|i: int, j: int|
                #[trigger] live(s1, i) && #[trigger] live(s1, j) && i != j && parent_at(s1, i) is Some
                    && parent_at(s1, i) == parent_at(s1, j) implies slot(s1, i).key != slot(
                s1,
                j,
            ).key by {
                assert(live(s0, i) && live(s0, j));
            }
            assert forall|i: int| #[trigger] live(s1, i) && i != 0 implies kind_at(s1, i)
                != ContainerType::Root by {
                if i != c as int {
                    assert(live(s0, i));
                }
            }
            assert(wf_slots(s1));
            if above(s1, c as int, p as int) {
                let k = choose|k: nat| desc_within(s1, c as int, p as int, k);
                lemma_desc_live(s0, s1, c as int, p as int, k);
            }
            lemma_max_key_frame(s0, s1, p as int, s0.len() as int);
            if c as int == s0.len() {
                assert(!is_child(s1, p as int, c as int));
            }
        }
        match self.attach_child(p, c) {
            Ok(()) => Ok(c),
            Err(e) => Err(e),
        }
    }

    /// Cuts a node from its parent, leaving it floating; nothing happens to a
    /// node that is not live or has no parent.
    pub fn detach(&mut self, n: NodeIndex)
        requires
            old(self).wf(),
        ensures
            final(self).wf(),
            final(self)@ == detached(old(self)@, n as int),
    {
        if self.contains(n) {
            let key = match &self.slots[n] {
                Some(sl) => sl.key,
                None => 0,
            };
            let ghost s = self@;
            self.set_link(n, None, key);
            proof {
                let s2 = self@;
                assert(s2 =~= detached(s, n as int));
                assert forall|j: int| #[trigger] live(s2, j) implies live(s, j) && (parent_at(s2, j) is None
                    || (parent_at(s2, j) == parent_at(s, j) && live(s2, parent_at(s2, j)->Some_0 as int))) by {
                    assert(live(s, j));
                }
                assert forall|i: int| #[trigger] live(s2, i) implies exists|k: nat| chain_ends(s2, i, k) by {
                    assert(live(s, i));
                    let k = choose|k: nat| chain_ends(s, i, k);
                    lemma_chain_cut(s, s2, i, k);
                }
                assert forall|i: int|
                    #[trigger] live(s2, i) && parent_at(s2, i) is Some implies live(
                    s2,
                    parent_at(s2, i)->Some_0 as int,
                ) && legal_child(kind_at(s2, parent_at(s2, i)->Some_0 as int), kind_at(s2, i)) by {
                    assert(live(s, i));
                }
                assert forall|i: int, j: int|
                    #[trigger] live(s2, i) && #[trigger] live(s2, j) && i != j && parent_at(s2, i) is Some
                        && parent_at(s2, i) == parent_at(s2, j) implies slot(s2, i).key != slot(
                    s2,
                    j,
                ).key by {
                    assert(live(s, i) && live(s, j));
                }
                assert forall|i: int| #[trigger] live(s2, i) && i != 0 implies kind_at(s2, i)
                    != ContainerType::Root by {
                    assert(live(s, i));
                }
            }
        }
    }

    /// Moves a node below a new parent, after all of its children. Done at
    /// once or not at all: when the node, once cut from its parent, could not
    /// be attached below `new_parent`, the arena is left unchanged.
    pub fn move_node(&mut self, n: NodeIndex, new_parent: NodeIndex) -> (r: Result<(), TreeError>)
        requires
            old(self).wf(),
        ensures
            final(self).wf(),
            r == match attach_refusal(detached(old(self)@, n as int), new_parent as int, n as int) {
                Some(e) => Err::<(), TreeError>(e),
                None => Ok(()),
            },
            r is Ok ==> final(self)@ == attached(
                detached(old(self)@, n as int),
                new_parent as int,
                n as int,
            ),
            r is Err ==> final(self)@ == old(self)@,
    {
        let ghost s = self@;
        let saved_parent = self.parent_of(n);
        let saved_key = if self.contains(n) {
            match &self.slots[n] {
                Some(sl) => sl.key,
                None => 0,
            }
        } else {
            0
        };
        self.detach(n);
        match self.attach_child(new_parent, n) {
            Ok(()) => Ok(()),
            Err(e) => {
                if self.contains(n) {
                    self.set_link(n, saved_parent, saved_key);
                    proof {
                        assert(self@ =~= s);
                    }
                }
                Err(e)
            },
        }
    }

    /// Deletes a node and its links, returning its payload. Its children are
    /// left floating. The root, and an index that is not live, are refused
    /// with `None`.
    pub fn remove(&mut self, n: NodeIndex) -> (r: Option<Container>)
        requires
            old(self).wf(),
        ensures
            final(self).wf(),
            r == if live(old(self)@, n as int) && n != 0 {
                Some(slot(old(self)@, n as int).val)
            } else {
                None::<Container>
            },
            final(self)@ == if live(old(self)@, n as int) && n != 0 {
                removed(old(self)@, n as int)
            } else {
                old(self)@
            },
    {
        if n == 0 || !self.contains(n) {
            return None;
        }
        let ghost s = self@;
        let mut i: usize = 0;
        while i < self.slots.len()
            invariant
                live(s, n as int),
                self@.len() == s.len(),
                i <= s.len(),
                forall|j: int| 0 <= j < i && j != n ==> self@[j] == #[trigger] removed(s, n as int)[j],
                forall|j: int| i <= j < s.len() || j == n ==> self@[j] == s[j],
            decreases s.len() - i,
        {
            if i != n {
                let cut = match &self.slots[i] {
                    Some(sl) => if sl.parent == Some(n) {
                        Some(sl.key)
                    } else {
                        None
                    },
                    None => None,
                };
                if let Some(key) = cut {
                    self.set_link(i, None, key);
                }
            }
            i += 1;
        }
        let mut taken: Option<Slot> = None;
        std::mem::swap(&mut self.slots[n], &mut taken);
        proof {
            let s2 = self@;
            assert(s2 =~= removed(s, n as int));
            assert forall|j: int| #[trigger] live(s2, j) implies live(s, j) && (parent_at(s2, j) is None
                || (parent_at(s2, j) == parent_at(s, j) && live(s2, parent_at(s2, j)->Some_0 as int))) by {
                assert(live(s, j));
                if parent_at(s2, j) is Some {
                    assert(!is_child(s, n as int, j));
                    assert(live(s, parent_at(s, j)->Some_0 as int));
                }
            }
            assert forall|i: int| #[trigger] live(s2, i) implies exists|k: nat| chain_ends(s2, i, k) by {
                assert(live(s, i));
                let k = choose|k: nat| chain_ends(s, i, k);
                lemma_chain_cut(s, s2, i, k);
            }
            assert forall|i: int|
                #[trigger] live(s2, i) && parent_at(s2, i) is Some implies live(
                s2,
                parent_at(s2, i)->Some_0 as int,
            ) && legal_child(kind_at(s2, parent_at(s2, i)->Some_0 as int), kind_at(s2, i)) by {
                assert(live(s, i));
            }
            assert forall|i: int, j: int|
                #[trigger] live(s2, i) && #[trigger] live(s2, j) && i != j && parent_at(s2, i) is Some
                    && parent_at(s2, i) == parent_at(s2, j) implies slot(s2, i).key != slot(
                s2,
                j,
            ).key by {
                assert(live(s, i) && live(s, j));
            }
            assert forall|i: int| #[trigger] live(s2, i) && i != 0 implies kind_at(s2, i)
                != ContainerType::Root by {
                assert(live(s, i));
            }
        }
        match taken {
            Some(sl) => Some(sl.val),
            None => None,
        }
    }

    /// Pre-order depth-first search below `n`, at most `fuel` levels deep.
    fn first_hit(&self, n: NodeIndex, target: Target, fuel: usize) -> (r: Option<NodeIndex>)
        requires
            self.wf(),
            live(self@, n as int),
        ensures
            r matches Some(d) ==> live(self@, d as int) && hits(slot(self@, d as int).val, target)
                && desc_within(self@, n as int, d as int, fuel as nat),
            r is None ==> forall|d: int|
                #[trigger] desc_within(self@, n as int, d, fuel as nat) ==> !hits(
                    slot(self@, d).val,
                    target,
                ),
            r == preorder_first(self@, n as int, target, fuel as nat),
        decreases fuel,
    {
        let hit = match &self.slots[n] {
            Some(sl) => match target {
                Target::Kind(k) => sl.val.get_type() == k,
                Target::Handle(h) => match &sl.val {
                    Container::View { handle, .. } => *handle == h,
                    _ => false,
                },
            },
            None => false,
        };
        proof {
            assert(hit == hits(slot(self@, n as int).val, target));
        }
        if hit {
            proof {
                assert(desc_within(self@, n as int, n as int, fuel as nat));
            }
            return Some(n);
        }
        if fuel == 0 {
            return None;
        }
        let children = self.children_of(n);
        proof {
            assert(preorder_first(self@, n as int, target, fuel as nat) == first_among(
                self@,
                children@,
                0,
                target,
                (fuel - 1) as nat,
            ));
        }
        let mut i: usize = 0;
        while i < children.len()
            invariant
                self.wf(),
                live(self@, n as int),
                fuel > 0,
                children_listed(self@, n as int, children@),
                children@ == child_list(self@, n as int),
                !hits(slot(self@, n as int).val, target),
                preorder_first(self@, n as int, target, fuel as nat) == first_among(
                    self@,
                    children@,
                    i as int,
                    target,
                    (fuel - 1) as nat,
                ),
                i <= children@.len(),
                forall|j: int, d: int|
                    0 <= j < i && #[trigger] desc_within(
                        self@,
                        children@[j] as int,
                        d,
                        (fuel - 1) as nat,
                    ) ==> !hits(slot(self@, d).val, target),
            decreases children@.len() - i,
        {
            let c = children[i];
            proof {
                assert(is_child(self@, n as int, children@[i as int] as int));
            }
            let found = self.first_hit(c, target, fuel - 1);
            proof {
                assert(first_among(self@, children@, i as int, target, (fuel - 1) as nat) == match preorder_first(
                    self@,
                    children@[i as int] as int,
                    target,
                    (fuel - 1) as nat,
                ) {
                    Some(d) => Some(d),
                    None => first_among(self@, children@, i + 1, target, (fuel - 1) as nat),
                });
            }
            match found {
                Some(d) => {
                    proof {
                        lemma_desc_step(self@, n as int, c as int, d as int, (fuel - 1) as nat);
                    }
                    return Some(d);
                },
                None => {},
            }
            i += 1;
        }
        proof {
            assert forall|d: int| #[trigger] desc_within(self@, n as int, d, fuel as nat) implies !hits(
                slot(self@, d).val,
                target,
            ) by {
                if d != n as int {
                    let c = lemma_desc_split(self@, n as int, d, fuel as nat);
                    assert(self.slots@.len() == self.slots.len());
                    assert(children@.contains(c as NodeIndex));
                    let j = choose|j: int| 0 <= j < children@.len() && children@[j] == c as NodeIndex;
                    assert(desc_within(self@, children@[j] as int, d, (fuel - 1) as nat));
                }
            }
            assert(first_among(self@, children@, i as int, target, (fuel - 1) as nat) is None);
        }
        None
    }

    /// The first node of type `t` in a pre-order walk of the subtree of `n`
    /// (`n` itself first, children by ascending key); `None` when no node of
    /// the subtree has that type.
    pub fn descendant_of_type(&self, n: NodeIndex, t: ContainerType) -> (r: Option<NodeIndex>)
        requires
            self.wf(),
        ensures
            r matches Some(d) ==> live(self@, d as int) && kind_at(self@, d as int) == t && above(
                self@,
                n as int,
                d as int,
            ),
            r is None ==> forall|d: int| #[trigger] above(self@, n as int, d) ==> kind_at(self@, d) != t,
            live(self@, n as int) ==> r == preorder_first(
                self@,
                n as int,
                Target::Kind(t),
                self@.len() as nat,
            ),
    {
        if !self.contains(n) {
            proof {
                assert forall|d: int| #[trigger] above(self@, n as int, d) implies kind_at(self@, d)
                    != t by {
                    let k = choose|k: nat| desc_within(self@, n as int, d, k);
                    lemma_desc_top_live(self@, n as int, d, k);
                }
            }
            return None;
        }
        let r = self.first_hit(n, Target::Kind(t), self.slots.len());
        proof {
            assert forall|d: int| #[trigger] above(self@, n as int, d) implies r is None ==> kind_at(
                self@,
                d,
            ) != t by {
                lemma_desc_within_len(self@, n as int, d);
            }
        }
        r
    }

    /// The first view with window handle `h` in a pre-order walk of the
    /// subtree of `n`; `None` when no view of the subtree holds that handle.
    pub fn descendant_with_handle(&self, n: NodeIndex, h: ViewHandle) -> (r: Option<NodeIndex>)
        requires
            self.wf(),
        ensures
            r matches Some(d) ==> live(self@, d as int) && slot(self@, d as int).val.view_handle()
                == Some(h) && above(self@, n as int, d as int),
            r is None ==> forall|d: int|
                #[trigger] above(self@, n as int, d) ==> slot(self@, d).val.view_handle() != Some(h),
            live(self@, n as int) ==> r == preorder_first(
                self@,
                n as int,
                Target::Handle(h),
                self@.len() as nat,
            ),
    {
        if !self.contains(n) {
            proof {
                assert forall|d: int| #[trigger] above(self@, n as int, d) implies slot(
                    self@,
                    d,
                ).val.view_handle() != Some(h) by {
                    let k = choose|k: nat| desc_within(self@, n as int, d, k);
                    lemma_desc_top_live(self@, n as int, d, k);
                }
            }
            return None;
        }
        let r = self.first_hit(n, Target::Handle(h), self.slots.len());
        proof {
            assert forall|d: int| #[trigger] above(self@, n as int, d) implies r is None ==> slot(
                self@,
                d,
            ).val.view_handle() != Some(h) by {
                lemma_desc_within_len(self@, n as int, d);
            }
        }
        r
    }

    /// The indices of all nodes strictly below `n`, by ascending index.
    pub fn all_descendants_of(&self, n: &NodeIndex) -> (r: Vec<NodeIndex>)
        requires
            self.wf(),
        ensures
            forall|j: int|
                0 <= j < r@.len() ==> live(self@, r@[j] as int) && r@[j] != *n && above(
                    self@,
                    *n as int,
                    r@[j] as int,
                ),
            forall|d: int|
                live(self@, d) && d != *n && #[trigger] above(self@, *n as int, d) ==> r@.contains(
                    d as NodeIndex,
                ),
            forall|a: int, b: int| 0 <= a < b < r@.len() ==> r@[a] < r@[b],
    {
        let top = *n;
        let mut r: Vec<NodeIndex> = Vec::new();
        let mut i: usize = 0;
        while i < self.slots.len()
            invariant
                self.wf(),
                i <= self@.len(),
                forall|j: int|
                    0 <= j < r@.len() ==> live(self@, r@[j] as int) && r@[j] != top && above(
                        self@,
                        top as int,
                        r@[j] as int,
                    ) && r@[j] < i,
                forall|d: int|
                    0 <= d < i && live(self@, d) && d != top && #[trigger] above(self@, top as int, d)
                        ==> r@.contains(d as NodeIndex),
                forall|a: int, b: int| 0 <= a < b < r@.len() ==> r@[a] < r@[b],
            decreases self@.len() - i,
        {
            if i != top && self.contains(i) && self.is_above(top, i) {
                let ghost old_r = r@;
                r.push(i);
                proof {
                    assert(r@[r@.len() - 1] == i);
                    assert forall|d: int|
                        0 <= d < i + 1 && live(self@, d) && d != top && #[trigger] above(
                            self@,
                            top as int,
                            d,
                        ) implies r@.contains(d as NodeIndex) by {
                        if d < i {
                            assert(old_r.contains(d as NodeIndex));
                            let j = choose|j: int| 0 <= j < old_r.len() && old_r[j] == d as NodeIndex;
                            assert(r@[j] == d);
                        }
                    }
                }
            }
            i += 1;
        }
        r
    }

    /// Sets the visibility of the live node `i`.
    fn set_visible_at(&mut self, i: NodeIndex, v: bool)
        requires
            live(old(self)@, i as int),
        ensures
            final(self)@ == old(self)@.update(
                i as int,
                Some(
                    Slot {
                        val: slot(old(self)@, i as int).val.with_visibility(v),
                        parent: slot(old(self)@, i as int).parent,
                        key: slot(old(self)@, i as int).key,
                    },
                ),
            ),
    {
        let mut taken: Option<Slot> = None;
        std::mem::swap(&mut self.slots[i], &mut taken);
        match taken {
            Some(mut sl) => {
                sl.val.set_visibility(v);
                self.slots.set(i, Some(sl));
            },
            None => {},
        }
    }

    /// Shows or hides `n` and every node below it.
    pub fn set_family_visible(&mut self, n: NodeIndex, v: bool)
        requires
            old(self).wf(),
        ensures
            final(self).wf(),
            final(self)@ == family_visible(old(self)@, n as int, v),
    {
        let ghost s = self@;
        let mut i: usize = 0;
        while i < self.slots.len()
            invariant
                wf_slots(s),
                self@.len() == s.len(),
                i <= s.len(),
                forall|j: int| 0 <= j < i ==> self@[j] == #[trigger] family_visible(s, n as int, v)[j],
                forall|j: int| i <= j < s.len() ==> self@[j] == s[j],
            decreases s.len() - i,
        {
            if self.contains(i) {
                proof {
                    assert forall|j: int| #[trigger] live(s, j) == live(self@, j) by {
                        if 0 <= j < i {
                            assert(self@[j] == family_visible(s, n as int, v)[j]);
                        }
                    }
                    assert forall|j: int| live(s, j) implies #[trigger] parent_at(s, j) == parent_at(
                        self@,
                        j,
                    ) by {
                        if 0 <= j < i {
                            assert(self@[j] == family_visible(s, n as int, v)[j]);
                        }
                    }
                    lemma_above_same_links(s, self@);
                }
                if self.is_above_unchecked(n, i, Ghost(s)) {
                    self.set_visible_at(i, v);
                }
            }
            i += 1;
        }
        proof {
            let s2 = self@;
            assert(s2 =~= family_visible(s, n as int, v));
            assert forall|j: int| #[trigger] live(s2, j) == live(s, j) by {
                if 0 <= j < s.len() {
                    assert(s2[j] == family_visible(s, n as int, v)[j]);
                }
            }
            assert forall|j: int| live(s, j) implies #[trigger] parent_at(s, j) == parent_at(s2, j)
                && kind_at(s, j) == kind_at(s2, j) && slot(s, j).key == slot(s2, j).key by {
                assert(s2[j] == family_visible(s, n as int, v)[j]);
            }
            assert forall|i: int| #[trigger] live(s2, i) implies exists|k: nat| chain_ends(s2, i, k) by {
                assert(live(s, i));
                let k = choose|k: nat| chain_ends(s, i, k);
                lemma_chain_cut(s, s2, i, k);
            }
            assert forall|i: int|
                #[trigger] live(s2, i) && parent_at(s2, i) is Some implies live(
                s2,
                parent_at(s2, i)->Some_0 as int,
            ) && legal_child(kind_at(s2, parent_at(s2, i)->Some_0 as int), kind_at(s2, i)) by {
                assert(live(s, i));
                assert(live(s, parent_at(s, i)->Some_0 as int));
            }
            assert forall|i: int, j: int|
                #[trigger] live(s2, i) && #[trigger] live(s2, j) && i != j && parent_at(s2, i) is Some
                    && parent_at(s2, i) == parent_at(s2, j) implies slot(s2, i).key != slot(
                s2,
                j,
            ).key by {
                assert(live(s, i) && live(s, j));
            }
            assert forall|i: int| #[trigger] live(s2, i) && i != 0 implies kind_at(s2, i)
                != ContainerType::Root by {
                assert(live(s, i));
            }
        }
    }

    /// `is_above` on an arena whose links are those of the well-formed `s`.
    fn is_above_unchecked(&self, a: NodeIndex, d: NodeIndex, Ghost(s): Ghost<Seq<Option<Slot>>>) -> (r: bool)
        requires
            wf_slots(s),
            self@.len() == s.len(),
            forall|j: int| #[trigger] live(s, j) == live(self@, j),
            forall|j: int| live(s, j) ==> #[trigger] parent_at(s, j) == parent_at(self@, j),
            live(self@, d as int),
        ensures
            r == above(s, a as int, d as int),
    {
        let ghost k0 = choose|k: nat| chain_ends(s, d as int, k);
        proof {
            assert(live(s, d as int));
        }
        let ghost mut k: nat = k0;
        let mut cur = d;
        loop
            invariant
                wf_slots(s),
                self@.len() == s.len(),
                forall|j: int| #[trigger] live(s, j) == live(self@, j),
                forall|j: int| live(s, j) ==> #[trigger] parent_at(s, j) == parent_at(self@, j),
                live(s, cur as int),
                chain_ends(s, cur as int, k),
                above(s, a as int, d as int) == above(s, a as int, cur as int),
            decreases k,
        {
            if cur == a {
                proof {
                    assert(desc_within(s, a as int, cur as int, 0));
                }
                return true;
            }
            match self.parent_of(cur) {
                None => {
                    proof {
                        assert(parent_at(s, cur as int) is None);
                        assert forall|j: nat| !desc_within(s, a as int, cur as int, j) by {}
                    }
                    return false;
                },
                Some(p) => {
                    proof {
                        assert(parent_at(s, cur as int) == Some(p));
                        assert forall|j: nat| desc_within(s, a as int, cur as int, j) implies above(
                            s,
                            a as int,
                            p as int,
                        ) by {
                            assert(desc_within(s, a as int, p as int, (j - 1) as nat));
                        }
                        assert forall|j: nat| desc_within(s, a as int, p as int, j) implies above(
                            s,
                            a as int,
                            cur as int,
                        ) by {
                            assert(desc_within(s, a as int, cur as int, j + 1));
                        }
                        k = (k - 1) as nat;
                    }
                    cur = p;
                },
            }
        }
    }

    /// Deletes `n` and every node below it. Nothing happens to the root or to
    /// an index that is not live.
    pub fn remove_subtree(&mut self, n: NodeIndex)
        requires
            old(self).wf(),
        ensures
            final(self).wf(),
            final(self)@ == if live(old(self)@, n as int) && n != 0 {
                pruned(old(self)@, n as int)
            } else {
                old(self)@
            },
    {
        if n == 0 || !self.contains(n) {
            return;
        }
        let ghost s = self@;
        let len = self.slots.len();
        let ds = self.all_descendants_of(&n);
        let mut i: usize = 0;
        while i < ds.len()
            invariant
                self.wf(),
                wf_slots(s),
                s.len() == len,
                live(s, n as int),
                n != 0,
                self@.len() == s.len(),
                i <= ds@.len(),
                forall|j: int|
                    0 <= j < ds@.len() ==> live(s, ds@[j] as int) && ds@[j] != n && above(
                        s,
                        n as int,
                        ds@[j] as int,
                    ),
                forall|d: int|
                    live(s, d) && d != n && #[trigger] above(s, n as int, d) ==> ds@.contains(
                        d as NodeIndex,
                    ),
                forall|a: int, b: int| 0 <= a < b < ds@.len() ==> ds@[a] < ds@[b],
                forall|x: int| 0 <= x < s.len() && !#[trigger] above(s, n as int, x) ==> self@[x] == s[x],
                forall|j: int| 0 <= j < i ==> self@[#[trigger] ds@[j] as int] is None,
            decreases ds@.len() - i,
        {
            let d = ds[i];
            let ghost t = self@;
            proof {
                assert(d != 0) by {
                    if d == 0 {
                        let k = choose|k: nat| desc_within(s, n as int, 0, k);
                    }
                }
            }
            self.remove(d);
            proof {
                let t2 = self@;
                assert forall|x: int| 0 <= x < s.len() && !#[trigger] above(s, n as int, x) implies t2[x]
                    == s[x] by {
                    if live(t, d as int) {
                        assert(x != d as int);
                        if is_child(t, d as int, x) {
                            assert(t[x] == s[x]);
                            assert(is_child(s, d as int, x));
                            lemma_above_child(s, n as int, d as int, x);
                        }
                    }
                }
                assert forall|j: int| 0 <= j < i + 1 implies t2[#[trigger] ds@[j] as int] is None by {
                    if j < i {
                        assert(t[ds@[j] as int] is None);
                        assert(ds@[j] != d);
                    }
                }
            }
            i += 1;
        }
        let ghost t = self@;
        self.remove(n);
        proof {
            let t2 = self@;
            assert forall|x: int| 0 <= x < s.len() implies t2[x] == #[trigger] pruned(s, n as int)[x] by {
                if above(s, n as int, x) {
                    if x != n as int {
                        let k = choose|k: nat| desc_within(s, n as int, x, k);
                        assert(live(s, x));
                        assert(ds@.contains(x as NodeIndex));
                        let j = choose|j: int| 0 <= j < ds@.len() && ds@[j] == x as NodeIndex;
                        assert(t[ds@[j] as int] is None);
                    }
                } else {
                    assert(t[x] == s[x]);
                    assert(x != n as int) by {
                        assert(desc_within(s, n as int, n as int, 0));
                    }
                    if live(t, n as int) && is_child(t, n as int, x) {
                        assert(desc_within(s, n as int, n as int, 0));
                        assert(is_child(s, n as int, x));
                        lemma_above_child(s, n as int, n as int, x);
                    }
                }
            }
            assert(t2 =~= pruned(s, n as int));
        }
    }

    /// Sets the geometry of a live container or view; the arena's shape is
    /// unchanged.
    pub fn set_geometry(&mut self, n: NodeIndex, g: Geometry)
        requires
            old(self).wf(),
        ensures
            final(self).wf(),
            final(self)@ == if live(old(self)@, n as int) {
                old(self)@.update(
                    n as int,
                    Some(
                        Slot {
                            val: slot(old(self)@, n as int).val.with_geometry(g),
                            parent: slot(old(self)@, n as int).parent,
                            key: slot(old(self)@, n as int).key,
                        },
                    ),
                )
            } else {
                old(self)@
            },
    {
        if !self.contains(n) {
            return;
        }
        let ghost s = self@;
        let mut taken: Option<Slot> = None;
        std::mem::swap(&mut self.slots[n], &mut taken);
        match taken {
            Some(mut sl) => {
                sl.val.set_geometry(g);
                self.slots.set(n, Some(sl));
            },
            None => {},
        }
        proof {
            let s2 = self@;
            assert forall|j: int| #[trigger] live(s2, j) implies live(s, j) && parent_at(s2, j)
                == parent_at(s, j) && kind_at(s2, j) == kind_at(s, j) && slot(s2, j).key == slot(
                s,
                j,
            ).key by {}
            assert forall|i: int| #[trigger] live(s2, i) implies exists|k: nat| chain_ends(s2, i, k) by {
                assert(live(s, i));
                let k = choose|k: nat| chain_ends(s, i, k);
                assert forall|j: int| #[trigger] live(s2, j) implies live(s, j) && (parent_at(s2, j) is None
                    || (parent_at(s2, j) == parent_at(s, j) && live(s2, parent_at(s2, j)->Some_0 as int))) by {
                    if parent_at(s2, j) is Some {
                        assert(live(s, parent_at(s, j)->Some_0 as int));
                    }
                }
                lemma_chain_cut(s, s2, i, k);
            }
            assert forall|i: int|
                #[trigger] live(s2, i) && parent_at(s2, i) is Some implies live(
                s2,
                parent_at(s2, i)->Some_0 as int,
            ) && legal_child(kind_at(s2, parent_at(s2, i)->Some_0 as int), kind_at(s2, i)) by {
                assert(live(s, i));
                assert(live(s, parent_at(s, i)->Some_0 as int));
            }
            assert forall|i: int, j: int|
                #[trigger] live(s2, i) && #[trigger] live(s2, j) && i != j && parent_at(s2, i) is Some
                    && parent_at(s2, i) == parent_at(s2, j) implies slot(s2, i).key != slot(
                s2,
                j,
            ).key by {
                assert(live(s, i) && live(s, j));
            }
            assert forall|i: int| #[trigger] live(s2, i) && i != 0 implies kind_at(s2, i)
                != ContainerType::Root by {
                assert(live(s, i));
            }
        }
    }

    /// Checks the arena's shape: one root in slot 0, parents that are live
    /// and may hold their children, distinct keys among siblings, and no
    /// cycles.
    pub fn is_well_formed(&self) -> (r: bool)
        ensures
            r == wf_slots(self@),
    {
        let n = self.slots.len();
        if n == 0 {
            return false;
        }
        match &self.slots[0] {
            Some(sl) => {
                if sl.parent.is_some() || sl.val.get_type() != ContainerType::Root {
                    return false;
                }
            },
            None => {
                return false;
            },
        }
        let mut i: usize = 0;
        while i < n
            invariant
                n == self@.len(),
                i <= n,
                forall|j: int| 0 <= j < i ==> #[trigger] node_ok(self@, j),
            decreases n - i,
        {
            if let Some(sl) = &self.slots[i] {
                let t = sl.val.get_type();
                if i != 0 && t == ContainerType::Root {
                    proof {
                        assert(live(self@, i as int));
                    }
                    return false;
                }
                if let Some(p) = sl.parent {
                    let ok = p < n && match &self.slots[p] {
                        Some(ps) => ps.val.get_type().can_have_child(t),
                        None => false,
                    };
                    if !ok {
                        proof {
                            assert(live(self@, i as int));
                        }
                        return false;
                    }
                }
            }
            i += 1;
        }
        let mut i: usize = 0;
        while i < n
            invariant
                n == self@.len(),
                i <= n,
                forall|a: int, b: int|
                    #![trigger live(self@, a), live(self@, b)]
                    0 <= a < i && live(self@, a) && live(self@, b) && a != b && parent_at(self@, a) is Some
                        && parent_at(self@, a) == parent_at(self@, b) ==> slot(self@, a).key != slot(
                        self@,
                        b,
                    ).key,
            decreases n - i,
        {
            if let Some(si) = &self.slots[i] {
                if si.parent.is_some() {
                    let mut j: usize = 0;
                    while j < n
                        invariant
                            n == self@.len(),
                            i < n,
                            j <= n,
                            live(self@, i as int),
                            parent_at(self@, i as int) is Some,
                            *si == slot(self@, i as int),
                            forall|b: int|
                                0 <= b < j && live(self@, b) && b != i && parent_at(self@, i as int)
                                    == parent_at(self@, b) ==> slot(self@, i as int).key != slot(
                                    self@,
                                    b,
                                ).key,
                        decreases n - j,
                    {
                        if j != i {
                            if let Some(sj) = &self.slots[j] {
                                if sj.parent == si.parent && sj.key == si.key {
                                    proof {
                                        assert(live(self@, j as int));
                                    }
                                    return false;
                                }
                            }
                        }
                        j += 1;
                    }
                }
            }
            i += 1;
        }
        let mut i: usize = 0;
        while i < n
            invariant
                n == self@.len(),
                i <= n,
                forall|j: int| 0 <= j < n ==> #[trigger] node_ok(self@, j),
                forall|j: int| 0 <= j < i && #[trigger] live(self@, j) ==> exists|k: nat| chain_ends(self@, j, k),
            decreases n - i,
        {
            if self.slots[i].is_some() {
                let mut cur = i;
                let mut steps: usize = 0;
                loop
                    invariant
                        n == self@.len(),
                        i < n,
                        steps <= n,
                        live(self@, i as int),
                        live(self@, cur as int),
                        forall|j: int| 0 <= j < n ==> #[trigger] node_ok(self@, j),
                        forall|k: nat| chain_ends(self@, i as int, (k + steps) as nat) == #[trigger] chain_ends(self@, cur as int, k),
                    ensures
                        chain_ends(self@, i as int, steps as nat),
                    decreases n - steps,
                {
                    let parent = match &self.slots[cur] {
                        Some(sl) => sl.parent,
                        None => None,
                    };
                    match parent {
                        None => {
                            proof {
                                assert(chain_ends(self@, cur as int, 0));
                                assert(chain_ends(self@, i as int, (0 + steps) as nat));
                            }
                            break;
                        },
                        Some(p) => {
                            if steps == n {
                                proof {
                                    assert(node_ok(self@, cur as int));
                                    assert(!chain_ends(self@, cur as int, 0));
                                    assert(!chain_ends(self@, i as int, n as nat));
                                    assert forall|k: nat| !chain_ends(self@, i as int, k) by {
                                        if chain_ends(self@, i as int, k) {
                                            lemma_chain_within_len(self@, i as int, k);
                                        }
                                    }
                                }
                                return false;
                            }
                            proof {
                                assert(node_ok(self@, cur as int));
                                assert forall|k: nat| #[trigger] chain_ends(self@, i as int, (k + steps + 1) as nat)
                                    == chain_ends(self@, p as int, k) by {
                                    assert(chain_ends(self@, i as int, ((k + 1) + steps) as nat) == chain_ends(self@, cur as int, (k + 1) as nat));
                                }
                            }
                            let ghost before = steps;
                            cur = p;
                            steps += 1;
                            proof {
                                assert forall|k: nat| chain_ends(self@, i as int, (k + steps) as nat)
                                    == #[trigger] chain_ends(self@, cur as int, k) by {
                                    assert((k + steps) as nat == (k + before + 1) as nat);
                                }
                            }
                        },
                    }
                }
                proof {
                    assert(chain_ends(self@, i as int, steps as nat));
                }
            }
            i += 1;
        }
        proof {
            assert forall|i: int| #[trigger] live(self@, i) && i != 0 implies kind_at(self@, i)
                != ContainerType::Root by {
                assert(node_ok(self@, i));
            }
            assert forall|i: int|
                #[trigger] live(self@, i) && parent_at(self@, i) is Some implies live(
                self@,
                parent_at(self@, i)->Some_0 as int,
            ) && legal_child(kind_at(self@, parent_at(self@, i)->Some_0 as int), kind_at(self@, i)) by {
                assert(node_ok(self@, i));
            }
        }
        true
    }

    /// Attempts to get the closest proper ancestor of the requested type.
    pub fn ancestor_of_type(&self, n: NodeIndex, t: ContainerType) -> (r: Option<NodeIndex>)
        requires
            self.wf(),
        ensures
            r == ancestor_of(self@, n as int, t),
            r matches Some(a) ==> live(self@, a as int) && kind_at(self@, a as int) == t
                && above(self@, a as int, n as int) && a != n,
    {
        if !self.contains(n) {
            return None;
        }
        let ghost k0 = chain_bound(self@, n as int);
        proof {
            assert(exists|k: nat| chain_ends(self@, n as int, k));
        }
        let ghost mut k: nat = k0;
        let ghost mut steps: nat = 0;
        let mut cur = n;
        loop
            invariant
                self.wf(),
                live(self@, cur as int),
                live(self@, n as int),
                chain_ends(self@, cur as int, k),
                k + steps == k0,
                k0 == chain_bound(self@, n as int),
                chain_ends(self@, n as int, k0),
                closest_ancestor(self@, n as int, t, k0) == closest_ancestor(
                    self@,
                    cur as int,
                    t,
                    k,
                ),
                desc_within(self@, cur as int, n as int, steps),
                cur != n ==> steps > 0,
            decreases k,
        {
            match self.parent_of(cur) {
                None => {
                    return None;
                },
                Some(p) => {
                    proof {
                        assert(live(self@, p as int));
                        assert(desc_within(self@, p as int, p as int, 0));
                        assert(desc_within(self@, p as int, cur as int, 1));
                        lemma_desc_trans(self@, p as int, cur as int, n as int, 1, steps);
                    }
                    if self.node_type(p) == Some(t) {
                        proof {
                            if p == n {
                                lemma_no_cycle(self@, n as int, cur as int, steps, k0);
                                assert(false);
                            }
                        }
                        return Some(p);
                    }
                    proof {
                        steps = steps + 1;
                        k = (k - 1) as nat;
                    }
                    cur = p;
                },
            }
        }
    }
}

/// Walking up from `d` to an ancestor `a` uses up links of `d`'s chain.
pub proof fn lemma_walk(s: Seq<Option<Slot>>, a: int, d: int, j: nat, k: nat)
    requires
        desc_within(s, a, d, j),
        chain_ends(s, d, k),
    ensures
        chain_ends(s, a, k),
        d != a ==> k > 0 && chain_ends(s, a, (k - 1) as nat),
    decreases j,
{
    if d != a {
        let p = parent_at(s, d)->Some_0 as int;
        lemma_walk(s, a, p, (j - 1) as nat, (k - 1) as nat);
        lemma_chain_mono(s, a, (k - 1) as nat, k);
    }
}

/// No node lies below its own child when its chain ends.
pub proof fn lemma_no_cycle(s: Seq<Option<Slot>>, n: int, cur: int, steps: nat, k: nat)
    ensures
        !(desc_within(s, cur, n, steps) && is_child(s, n, cur) && chain_ends(s, n, k)),
    decreases k,
{
    if desc_within(s, cur, n, steps) && is_child(s, n, cur) && chain_ends(s, n, k) {
        lemma_walk(s, cur, n, steps, k);
        if cur == n {
            assert(chain_ends(s, n, (k - 1) as nat));
            lemma_no_cycle(s, n, cur, steps, (k - 1) as nat);
        } else {
            assert(chain_ends(s, cur, (k - 1) as nat));
            assert(chain_ends(s, n, (k - 2) as nat));
            lemma_chain_mono(s, n, (k - 2) as nat, (k - 1) as nat);
            lemma_no_cycle(s, n, cur, steps, (k - 1) as nat);
        }
    }
}

} // verus!

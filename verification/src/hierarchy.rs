//! Parent/child relations between entities.
//!
//! Each parent keeps its children in a circular doubly linked list: the
//! parent records its first child and how many children it has, and every
//! child records its parent and its previous and next sibling. Parents that
//! are not children themselves are marked as roots.

use std::collections::{HashMap, HashSet};

use vstd::prelude::*;

verus! {

broadcast use vstd::std_specs::hash::group_hash_axioms;

/// The part of a parent entity that the hierarchy keeps.
#[derive(Clone, Copy, Debug, PartialEq, Eq, Structural)]
pub struct Parent {
    child_count: usize,
    first_child: u64,
}

/// The part of a child entity that the hierarchy keeps.
#[derive(Clone, Copy, Debug, PartialEq, Eq, Structural)]
pub struct Child {
    parent: u64,
    prev: u64,
    next: u64,
}

impl Child {
    /// The parent recorded in this child.
    pub closed spec fn spec_parent(self) -> u64 {
        self.parent
    }

    /// The parent of this child.
    pub fn parent(&self) -> (r: u64)
        ensures
            r == self.spec_parent(),
    {
        self.parent
    }
}

/// The abstract state of a hierarchy: the children of each parent in
/// sibling order, the parent of each child, and the set of roots.
pub struct HierarchyModel {
    pub lists: Map<u64, Seq<u64>>,
    pub parent: Map<u64, u64>,
    pub roots: Set<u64>,
}

/// The sibling after position `i` of a circular list.
pub open spec fn next_in(s: Seq<u64>, i: int) -> u64 {
    if i + 1 < s.len() {
        s[i + 1]
    } else {
        s[0]
    }
}

/// The sibling before position `i` of a circular list.
pub open spec fn prev_in(s: Seq<u64>, i: int) -> u64 {
    if i > 0 {
        s[i - 1]
    } else {
        s[s.len() - 1]
    }
}

/// What a well-formed model looks like: every parent has a non-empty list of
/// distinct children, a child belongs to exactly the list of its parent, and
/// every root is a parent.
pub open spec fn model_wf(m: HierarchyModel) -> bool {
    &&& m.lists.dom().finite()
    &&& m.parent.dom().finite()
    &&& forall|p: u64|
        #[trigger] m.lists.contains_key(p) ==> m.lists[p].len() > 0 && m.lists[p].no_duplicates()
    &&& forall|p: u64, c: u64|
        #![trigger m.lists[p].contains(c)]
        m.lists.contains_key(p) && m.lists[p].contains(c) ==> m.parent.contains_key(c)
            && m.parent[c] == p
    &&& forall|c: u64|
        #[trigger] m.parent.contains_key(c) ==> m.lists.contains_key(m.parent[c])
            && m.lists[m.parent[c]].contains(c)
    &&& m.roots.subset_of(m.lists.dom())
}

/// Roots are exactly the parents that are not children themselves.
pub open spec fn roots_consistent(m: HierarchyModel) -> bool {
    forall|x: u64| #[trigger] m.roots.contains(x) <==> m.lists.contains_key(x) && !m.parent.contains_key(x)
}

/// The model after `c` stops being a child: it leaves its parent's list, a
/// parent left without children stops being a parent and a root, and `c`
/// becomes a root if it is a parent.
pub open spec fn detach_model(m: HierarchyModel, c: u64) -> HierarchyModel {
    if m.parent.contains_key(c) {
        let p = m.parent[c];
        let s = m.lists[p];
        let rest = s.remove(s.index_of(c));
        let lists = if rest.len() == 0 {
            m.lists.remove(p)
        } else {
            m.lists.insert(p, rest)
        };
        let roots = if rest.len() == 0 {
            m.roots.remove(p)
        } else {
            m.roots
        };
        HierarchyModel {
            lists,
            parent: m.parent.remove(c),
            roots: if lists.contains_key(c) {
                roots.insert(c)
            } else {
                roots
            },
        }
    } else {
        m
    }
}

/// The model after `c` is detached and then attached as the last child of
/// `p`; `c` stops being a root and `p` becomes one unless it is a child.
pub open spec fn attach_model(m: HierarchyModel, p: u64, c: u64) -> HierarchyModel {
    let m1 = detach_model(m, c);
    let roots = m1.roots.remove(c);
    HierarchyModel {
        lists: if m1.lists.contains_key(p) {
            m1.lists.insert(p, m1.lists[p].push(c))
        } else {
            m1.lists.insert(p, seq![c])
        },
        parent: m1.parent.insert(c, p),
        roots: if m1.parent.contains_key(p) {
            roots
        } else {
            roots.insert(p)
        },
    }
}

/// The children of `x` in the model, in sibling order.
pub open spec fn children_of(m: HierarchyModel, x: u64) -> Seq<u64> {
    if m.lists.contains_key(x) {
        m.lists[x]
    } else {
        Seq::empty()
    }
}

/// The entity `k` steps up from `x`: `x` itself for no step, then its
/// parent, its grandparent and so on; `None` once the chain ends.
pub open spec fn ancestor_at(m: HierarchyModel, x: u64, k: nat) -> Option<u64>
    decreases k,
{
    if k == 0 {
        Some(x)
    } else if m.parent.contains_key(x) {
        ancestor_at(m, m.parent[x], (k - 1) as nat)
    } else {
        None
    }
}

/// `d` lies below `a`: `a` is reached from `d` in one or more steps up.
pub open spec fn is_descendant(m: HierarchyModel, a: u64, d: u64) -> bool {
    exists|k: nat| k >= 1 && #[trigger] ancestor_at(m, d, k) == Some(a)
}

/// `w` is reached from `d` in `k` steps up.
pub open spec fn reaches(m: HierarchyModel, d: u64, k: nat, w: u64) -> bool {
    ancestor_at(m, d, k) == Some(w)
}

/// The set of all entities below `a`.
pub open spec fn descendant_set(m: HierarchyModel, a: u64) -> Set<u64> {
    Set::new(|d: u64| is_descendant(m, a, d))
}

/// No entity lies below itself.
pub open spec fn acyclic(m: HierarchyModel) -> bool {
    forall|x: u64| !#[trigger] is_descendant(m, x, x)
}

/// The chain up from `id` ends.
pub open spec fn chain_ends(m: HierarchyModel, id: u64) -> bool {
    exists|k: nat| #[trigger] ancestor_at(m, id, k) is None
}

/// The model after `e` is removed from the hierarchy: it is detached from
/// its parent, each of its children is detached from it in turn, and it is
/// neither a parent nor a root any more.
pub open spec fn remove_model(m: HierarchyModel, e: u64) -> HierarchyModel {
    let m1 = detach_model(m, e);
    let cs = children_of(m1, e);
    HierarchyModel {
        lists: m1.lists.remove(e),
        parent: m1.parent.remove_keys(cs.to_set()),
        roots: m1.roots.remove(e).union(cs.to_set().filter(|c: u64| m1.lists.contains_key(c))),
    }
}


/// The model after `e` and everything below it are removed: `e` is detached
/// from its parent, and neither it nor any of its descendants is a child,
/// a parent or a root any more.
pub open spec fn remove_all_model(m: HierarchyModel, e: u64) -> HierarchyModel {
    let m1 = detach_model(m, e);
    let es = descendant_set(m, e).insert(e);
    HierarchyModel {
        lists: m1.lists.remove_keys(es),
        parent: m1.parent.remove_keys(es),
        roots: m1.roots.difference(es),
    }
}

/// The model while `remove` detaches the children `cs` of `e` one by one,
/// after the first `k` of them.
spec fn remove_partial(m1: HierarchyModel, e: u64, cs: Seq<u64>, k: int) -> HierarchyModel {
    let done = cs.take(k).to_set();
    HierarchyModel {
        lists: if k < cs.len() {
            m1.lists.insert(e, cs.skip(k))
        } else {
            m1.lists.remove(e)
        },
        parent: m1.parent.remove_keys(done),
        roots: (if k < cs.len() {
            m1.roots
        } else {
            m1.roots.remove(e)
        }).union(done.filter(|c: u64| m1.lists.contains_key(c))),
    }
}


/// The set of the first `k + 1` elements adds element `k` to that of the
/// first `k`.
proof fn lemma_take_to_set_step(s: Seq<u64>, k: int)
    requires
        0 <= k < s.len(),
    ensures
        s.take(k + 1).to_set() == s.take(k).to_set().insert(s[k]),
{
    let a = s.take(k + 1);
    let b = s.take(k);
    assert forall|x: u64| a.to_set().contains(x) <==> b.to_set().insert(s[k]).contains(x) by {
        if a.contains(x) {
            let j = choose|j: int| 0 <= j < a.len() && #[trigger] a[j] == x;
            if j < k {
                assert(b[j] == x);
            }
        }
        if b.contains(x) {
            let j = choose|j: int| 0 <= j < b.len() && #[trigger] b[j] == x;
            assert(a[j] == x);
        }
        if x == s[k] {
            assert(s.take(k + 1)[k] == x);
        }
    }
    assert(s.take(k + 1).to_set() =~= s.take(k).to_set().insert(s[k]));
}

/// Detaching the next child of `e` moves `remove_partial` one step on.
proof fn lemma_remove_step(m1: HierarchyModel, e: u64, k: int)
    requires
        model_wf(m1),
        !m1.parent.contains_key(e),
        m1.lists.contains_key(e),
        0 <= k < m1.lists[e].len(),
        model_wf(remove_partial(m1, e, m1.lists[e], k)),
    ensures
        detach_model(remove_partial(m1, e, m1.lists[e], k), m1.lists[e][k])
            == remove_partial(m1, e, m1.lists[e], k + 1),
{
    let cs = m1.lists[e];
    let mk = remove_partial(m1, e, cs, k);
    let c = cs[k];
    let next = remove_partial(m1, e, cs, k + 1);
    assert(m1.lists[e].contains(c));
    assert(m1.parent[c] == e);
    lemma_take_to_set_step(cs, k);
    assert(!cs.take(k).to_set().contains(c)) by {
        if cs.take(k).to_set().contains(c) {
            let j = choose|j: int| 0 <= j < k && cs.take(k)[j] == c;
            assert(cs[j] == c);
        }
    }
    assert(mk.parent.contains_key(c));
    assert(mk.parent[c] == e);
    let s = cs.skip(k);
    assert(mk.lists[e] == s);
    assert(s[0] == c);
    assert(s.contains(c));
    let i = s.index_of(c);
    assert(s[i] == c);
    assert(i == 0) by {
        assert(cs[k + i] == c);
    }
    assert(s.remove(0) =~= cs.skip(k + 1));
    assert(c != e);
    let d = detach_model(mk, c);
    assert(d.lists =~= next.lists);
    assert(d.parent =~= next.parent);
    assert(!cs.take(k).to_set().contains(e)) by {
        if cs.take(k).to_set().contains(e) {
            let j = choose|j: int| 0 <= j < cs.take(k).len() && #[trigger] cs.take(k)[j] == e;
            assert(cs[j] == e);
            assert(m1.lists[e].contains(e));
        }
    }
    assert(d.lists.contains_key(c) == m1.lists.contains_key(c));
    assert forall|x: u64| d.roots.contains(x) <==> next.roots.contains(x) by {
        if x == c {
            assert(cs.take(k + 1).to_set().contains(c));
        }
    }
    assert(d.roots =~= next.roots);
}

/// One more step up from `d` goes from the entity reached after `k` steps
/// to its parent.
pub proof fn lemma_ancestor_step(m: HierarchyModel, d: u64, k: nat)
    ensures
        ancestor_at(m, d, k + 1) == (match ancestor_at(m, d, k) {
            Some(y) => if m.parent.contains_key(y) {
                Some(m.parent[y])
            } else {
                None
            },
            None => None,
        }),
    decreases k,
{
    reveal_with_fuel(ancestor_at, 2);
    if k > 0 && m.parent.contains_key(d) {
        lemma_ancestor_step(m, m.parent[d], (k - 1) as nat);
    }
}

/// A child of an entity reached from `x` in `k` steps is reached in one
/// more step from the child.
proof fn lemma_child_ancestor(m: HierarchyModel, x: u64, c: u64, k: nat, a: u64)
    requires
        model_wf(m),
        m.lists.contains_key(x),
        m.lists[x].contains(c),
        ancestor_at(m, x, k) == Some(a),
    ensures
        ancestor_at(m, c, k + 1) == Some(a),
{
    assert(m.parent.contains_key(c) && m.parent[c] == x);
}

/// The entity one step below `x` on the way up from `d` is a child of `x`.
proof fn lemma_split_ancestor(m: HierarchyModel, d: u64, k: nat, x: u64)
    requires
        model_wf(m),
        k >= 1,
        ancestor_at(m, d, k) == Some(x),
    ensures
        ancestor_at(m, d, (k - 1) as nat) is Some,
        m.lists.contains_key(x),
        m.lists[x].contains(ancestor_at(m, d, (k - 1) as nat)->0),
{
    lemma_ancestor_step(m, d, (k - 1) as nat);
    let c = ancestor_at(m, d, (k - 1) as nat)->0;
    assert(m.parent.contains_key(c));
}

/// The entities below `a` are children, so there are finitely many.
proof fn lemma_descendant_set_finite(m: HierarchyModel, a: u64)
    requires
        model_wf(m),
    ensures
        descendant_set(m, a).subset_of(m.parent.dom()),
        descendant_set(m, a).finite(),
{
    assert forall|d: u64| descendant_set(m, a).contains(d) implies m.parent.dom().contains(d) by {
        let k = choose|k: nat| k >= 1 && #[trigger] ancestor_at(m, d, k) == Some(a);
        assert(m.parent.contains_key(d));
    }
    vstd::set_lib::lemma_len_subset(descendant_set(m, a), m.parent.dom());
}

/// Facts about the reverse of a sequence and about joining two sequences.
proof fn lemma_reverse_concat(a: Seq<u64>, s: Seq<u64>)
    ensures
        forall|w: u64| #[trigger] s.reverse().contains(w) <==> s.contains(w),
        s.no_duplicates() ==> s.reverse().no_duplicates(),
        forall|w: u64| #[trigger] (a + s.reverse()).contains(w) <==> a.contains(w) || s.contains(w),
        a.no_duplicates() && s.no_duplicates() && (forall|w: u64| a.contains(w) ==> !s.contains(w)) ==> (a
            + s.reverse()).no_duplicates(),
{
    let r = s.reverse();
    let n = s.len() as int;
    assert forall|w: u64| #[trigger] r.contains(w) <==> s.contains(w) by {
        if r.contains(w) {
            let t = choose|t: int| 0 <= t < r.len() && #[trigger] r[t] == w;
            assert(s[n - 1 - t] == w);
        }
        if s.contains(w) {
            let t = choose|t: int| 0 <= t < s.len() && #[trigger] s[t] == w;
            assert(r[n - 1 - t] == w);
        }
    }
    if s.no_duplicates() {
        assert forall|i: int, j: int| 0 <= i < r.len() && 0 <= j < r.len() && i != j implies r[i] != r[j] by {
            assert(r[i] == s[n - 1 - i] && r[j] == s[n - 1 - j]);
        }
    }
    let c = a + r;
    assert forall|w: u64| #[trigger] c.contains(w) <==> a.contains(w) || s.contains(w) by {
        if c.contains(w) {
            let t = choose|t: int| 0 <= t < c.len() && #[trigger] c[t] == w;
            if t < a.len() {
                assert(a[t] == w);
            } else {
                assert(r[t - a.len()] == w);
            }
        }
        if a.contains(w) {
            let t = choose|t: int| 0 <= t < a.len() && #[trigger] a[t] == w;
            assert(c[t] == w);
        }
        if r.contains(w) {
            let t = choose|t: int| 0 <= t < r.len() && #[trigger] r[t] == w;
            assert(c[a.len() + t] == w);
        }
    }
    if a.no_duplicates() && s.no_duplicates() && (forall|w: u64| a.contains(w) ==> !s.contains(w)) {
        assert forall|i: int, j: int| 0 <= i < c.len() && 0 <= j < c.len() && i != j implies c[i] != c[j] by {
            if i < a.len() && j >= a.len() {
                assert(a.contains(c[i]));
                assert(r.contains(c[j]));
            } else if i >= a.len() && j < a.len() {
                assert(a.contains(c[j]));
                assert(r.contains(c[i]));
            } else if i >= a.len() && j >= a.len() {
                assert(c[i] == r[i - a.len()] && c[j] == r[j - a.len()]);
            }
        }
    }
}

/// `a` and `b` are children of one parent, `a` listed before `b`.
pub open spec fn sibling_before(m: HierarchyModel, a: u64, b: u64) -> bool {
    &&& m.parent.contains_key(a)
    &&& m.parent.contains_key(b)
    &&& m.parent[a] == m.parent[b]
    &&& exists|i: int, j: int|
        0 <= i < j < children_of(m, m.parent[a]).len() && #[trigger] children_of(m, m.parent[a])[i] == a
            && #[trigger] children_of(m, m.parent[a])[j] == b
}

/// Siblings come in the order of their parent's list.
pub open spec fn siblings_in_order(m: HierarchyModel, out: Seq<u64>) -> bool {
    forall|i: int, j: int|
        0 <= i < out.len() && 0 <= j < out.len() && #[trigger] sibling_before(m, out[i], out[j]) ==> i < j
}

/// What lies below an entity comes right after it: nothing else comes
/// between it and one of its descendants.
pub open spec fn subtrees_contiguous(m: HierarchyModel, out: Seq<u64>) -> bool {
    forall|i: int, j: int, k: int|
        #![trigger is_descendant(m, out[i], out[k]), out[j]]
        0 <= i < j < k < out.len() && is_descendant(m, out[i], out[k]) ==> is_descendant(m, out[i], out[j])
}

/// What lies above a child lies above its parent, or is its parent.
proof fn lemma_desc_of_child(m: HierarchyModel, a: u64, c: u64)
    requires
        m.parent.contains_key(c),
        is_descendant(m, a, c),
    ensures
        a == m.parent[c] || is_descendant(m, a, m.parent[c]),
{
    let k = choose|k: nat| k >= 1 && #[trigger] ancestor_at(m, c, k) == Some(a);
    let k1 = (k - 1) as nat;
    assert(ancestor_at(m, c, k1 + 1) == ancestor_at(m, m.parent[c], k1));
    if k1 == 0 {
        assert(ancestor_at(m, m.parent[c], 0) == Some(m.parent[c]));
    } else {
        assert(ancestor_at(m, m.parent[c], k1) == Some(a));
    }
}

/// A child lies below whatever lies above its parent, and below its parent.
proof fn lemma_desc_to_child(m: HierarchyModel, a: u64, c: u64)
    requires
        m.parent.contains_key(c),
        a == m.parent[c] || is_descendant(m, a, m.parent[c]),
    ensures
        is_descendant(m, a, c),
{
    let p = m.parent[c];
    if a == p {
        assert(ancestor_at(m, c, 0 + 1) == ancestor_at(m, p, 0));
        assert(ancestor_at(m, c, 1) == Some(a));
    } else {
        let k = choose|k: nat| k >= 1 && #[trigger] ancestor_at(m, p, k) == Some(a);
        assert(ancestor_at(m, c, k + 1) == ancestor_at(m, p, k));
        assert(ancestor_at(m, c, k + 1) == Some(a));
    }
}

/// Lying below is transitive.
proof fn lemma_desc_trans(m: HierarchyModel, a: u64, b: u64, c: u64)
    requires
        is_descendant(m, a, b),
        is_descendant(m, b, c),
    ensures
        is_descendant(m, a, c),
{
    let k1 = choose|k: nat| k >= 1 && #[trigger] ancestor_at(m, c, k) == Some(b);
    let k2 = choose|k: nat| k >= 1 && #[trigger] ancestor_at(m, b, k) == Some(a);
    lemma_ancestor_compose(m, c, k1, k2);
    assert(ancestor_at(m, c, k1 + k2) == Some(a));
}

/// In a well-formed model the children of `x` are ordered by their
/// positions, and nothing is listed before itself.
proof fn lemma_sibling_positions(m: HierarchyModel, x: u64)
    requires
        model_wf(m),
    ensures
        forall|a: u64| !#[trigger] sibling_before(m, a, a),
        forall|p: int, q: int|
            0 <= p < children_of(m, x).len() && 0 <= q < children_of(m, x).len() ==> (#[trigger] sibling_before(
                m,
                children_of(m, x)[p],
                children_of(m, x)[q],
            ) <==> p < q),
{
    let cs = children_of(m, x);
    assert forall|a: u64| !#[trigger] sibling_before(m, a, a) by {
        if sibling_before(m, a, a) {
            let ps = children_of(m, m.parent[a]);
            let (i, j) = choose|i: int, j: int| 0 <= i < j < ps.len() && #[trigger] ps[i] == a && #[trigger] ps[j] == a;
            assert(m.lists.contains_key(m.parent[a]));
            assert(ps.no_duplicates());
        }
    }
    if m.lists.contains_key(x) {
        assert(cs.no_duplicates());
        assert forall|p: int, q: int| 0 <= p < cs.len() && 0 <= q < cs.len() implies (#[trigger] sibling_before(
            m,
            cs[p],
            cs[q],
        ) <==> p < q) by {
            assert(cs.contains(cs[p]));
            assert(cs.contains(cs[q]));
            assert(m.parent[cs[p]] == x && m.parent[cs[q]] == x);
            if sibling_before(m, cs[p], cs[q]) {
                let (i, j) = choose|i: int, j: int| 0 <= i < j < cs.len() && #[trigger] cs[i] == cs[p] && #[trigger] cs[j] == cs[q];
                assert(i == p);
                assert(j == q);
            }
            if p < q {
                assert(cs[p] == cs[p] && cs[q] == cs[q]);
            }
        }
    }
}

/// The parent of output element `j` is the start or an earlier output.
spec fn parent_before(m: HierarchyModel, id: u64, out: Seq<u64>, j: int) -> bool {
    &&& m.parent.contains_key(out[j])
    &&& (m.parent[out[j]] == id || exists|i: int| 0 <= i < j && out[i] == m.parent[out[j]])
}

/// What holds throughout the depth-first walk below `id`, with `out`
/// visited and `stack` waiting.
spec fn dfs_inv(m: HierarchyModel, id: u64, out: Seq<u64>, stack: Seq<u64>) -> bool {
    &&& out.no_duplicates()
    &&& stack.no_duplicates()
    &&& forall|w: u64| #[trigger] out.contains(w) ==> !stack.contains(w) && is_descendant(m, id, w)
    &&& forall|w: u64|
        #[trigger] stack.contains(w) ==> is_descendant(m, id, w) && m.parent.contains_key(w) && (m.parent[w]
            == id || out.contains(m.parent[w]))
    &&& forall|j: int| 0 <= j < out.len() ==> #[trigger] parent_before(m, id, out, j)
    &&& forall|d: u64|
        is_descendant(m, id, d) ==> out.contains(d) || exists|w: u64, k: nat|
            stack.contains(w) && #[trigger] reaches(m, d, k, w)
}

/// The walk starts with the children of `id` waiting.
proof fn lemma_dfs_init(m: HierarchyModel, id: u64)
    requires
        model_wf(m),
    ensures
        dfs_inv(m, id, Seq::empty(), Seq::empty() + children_of(m, id).reverse()),
{
    let top = children_of(m, id);
    let stack = Seq::<u64>::empty() + top.reverse();
    if m.lists.contains_key(id) {
        assert(top.no_duplicates());
    }
    lemma_reverse_concat(Seq::empty(), top);
    assert forall|w: u64| #[trigger] stack.contains(w) implies is_descendant(m, id, w) && m.parent.contains_key(
        w,
    ) && (m.parent[w] == id || Seq::<u64>::empty().contains(m.parent[w])) by {
        assert(top.contains(w));
        assert(m.lists.contains_key(id));
        assert(ancestor_at(m, id, 0) == Some(id));
        lemma_child_ancestor(m, id, w, 0, id);
        assert(ancestor_at(m, w, 1) == Some(id));
    }
    assert forall|d: u64| is_descendant(m, id, d) implies Seq::<u64>::empty().contains(d) || exists|w: u64, k: nat|
        stack.contains(w) && #[trigger] reaches(m, d, k, w) by {
        let k = choose|k: nat| k >= 1 && #[trigger] ancestor_at(m, d, k) == Some(id);
        lemma_split_ancestor(m, d, k, id);
        let c = ancestor_at(m, d, (k - 1) as nat)->0;
        assert(top.contains(c));
        assert(stack.contains(c));
        assert(reaches(m, d, (k - 1) as nat, c));
    }
}

/// Visiting the last waiting entity and putting its children in its place
/// keeps the walk's invariant, and the visited entities stay within the
/// finite set of entities below `id`.
proof fn lemma_dfs_step(m: HierarchyModel, id: u64, out0: Seq<u64>, stack0: Seq<u64>)
    requires
        model_wf(m),
        !is_descendant(m, id, id),
        dfs_inv(m, id, out0, stack0),
        stack0.len() > 0,
    ensures
        dfs_inv(
            m,
            id,
            out0.push(stack0.last()),
            stack0.drop_last() + children_of(m, stack0.last()).reverse(),
        ),
        out0.len() < descendant_set(m, id).len(),
{
    let x = stack0.last();
    let out = out0.push(x);
    let rest = stack0.drop_last();
    let cs = children_of(m, x);
    let stack = rest + cs.reverse();
    let dset = descendant_set(m, id);
    lemma_descendant_set_finite(m, id);
    assert(stack0.contains(x)) by {
        assert(stack0[stack0.len() - 1] == x);
    }
    assert(stack0 == rest.push(x));
    assert forall|w: u64| #[trigger] rest.contains(w) implies stack0.contains(w) && w != x by {
        let t = choose|t: int| 0 <= t < rest.len() && #[trigger] rest[t] == w;
        assert(stack0[t] == w);
    }
    assert(rest.no_duplicates());
    // the visited entities lie in the finite set of entities below `id`
    assert(out0.to_set().subset_of(dset));
    out0.unique_seq_to_set();
    assert(out0.to_set().insert(x).subset_of(dset));
    assert(!out0.to_set().contains(x));
    vstd::set_lib::lemma_len_subset(out0.to_set().insert(x), dset);
    // membership in the new output
    assert forall|w: u64| #[trigger] out.contains(w) <==> out0.contains(w) || w == x by {
        if out.contains(w) {
            let t = choose|t: int| 0 <= t < out.len() && #[trigger] out[t] == w;
            if t < out0.len() {
                assert(out0[t] == w);
            }
        }
        if out0.contains(w) {
            let t = choose|t: int| 0 <= t < out0.len() && #[trigger] out0[t] == w;
            assert(out[t] == w);
        }
        if w == x {
            assert(out[out0.len() as int] == x);
        }
    }
    assert(out.no_duplicates());
    if m.lists.contains_key(x) {
        assert(cs.no_duplicates());
    }
    // the children of x have not been seen
    assert forall|c: u64| #[trigger] cs.contains(c) implies !out.contains(c) && !rest.contains(c)
        && is_descendant(m, id, c) && m.parent.contains_key(c) && m.parent[c] == x by {
        assert(m.lists.contains_key(x));
        assert(m.parent[c] == x);
        if out0.contains(c) {
            let j = choose|j: int| 0 <= j < out0.len() && out0[j] == c;
            assert(parent_before(m, id, out0, j));
            if m.parent[c] != id {
                let i = choose|i: int| 0 <= i < j && out0[i] == m.parent[out0[j]];
                assert(out0.contains(x));
            }
        }
        if rest.contains(c) {
            assert(stack0.contains(c));
        }
        if c == x {
            assert(stack0.contains(x));
        }
        let k = choose|k: nat| k >= 1 && #[trigger] ancestor_at(m, x, k) == Some(id);
        lemma_child_ancestor(m, x, c, k, id);
        assert(ancestor_at(m, c, k + 1) == Some(id));
    }
    lemma_reverse_concat(rest, cs);
    assert(stack.no_duplicates());
    assert forall|w: u64| #[trigger] out.contains(w) implies !stack.contains(w) && is_descendant(m, id, w) by {
        if w != x {
            assert(out0.contains(w));
        }
    }
    assert forall|w: u64| #[trigger] stack.contains(w) implies is_descendant(m, id, w) && m.parent.contains_key(w)
        && (m.parent[w] == id || out.contains(m.parent[w])) by {
        if rest.contains(w) {
            assert(stack0.contains(w));
        }
    }
    assert forall|j: int| 0 <= j < out.len() implies #[trigger] parent_before(m, id, out, j) by {
        if j < out0.len() {
            assert(parent_before(m, id, out0, j));
            assert(out[j] == out0[j]);
            if m.parent[out0[j]] != id {
                let i = choose|i: int| 0 <= i < j && out0[i] == m.parent[out0[j]];
                assert(out[i] == out0[i]);
            }
        } else {
            assert(out[j] == x);
            if m.parent[x] != id {
                assert(out0.contains(m.parent[x]));
                let i = choose|i: int| 0 <= i < out0.len() && out0[i] == m.parent[x];
                assert(out[i] == out0[i]);
            }
        }
    }
    assert forall|d: u64| is_descendant(m, id, d) implies out.contains(d) || exists|w: u64, k: nat|
        stack.contains(w) && #[trigger] reaches(m, d, k, w) by {
        if !out0.contains(d) {
            let (w, k) = choose|w: u64, k: nat| stack0.contains(w) && #[trigger] reaches(m, d, k, w);
            if w == x {
                if k > 0 {
                    lemma_split_ancestor(m, d, k, x);
                    let c = ancestor_at(m, d, (k - 1) as nat)->0;
                    assert(cs.contains(c));
                    assert(stack.contains(c));
                    assert(reaches(m, d, (k - 1) as nat, c));
                }
            } else {
                assert(rest.contains(w)) by {
                    let t = choose|t: int| 0 <= t < stack0.len() && #[trigger] stack0[t] == w;
                    assert(t != stack0.len() - 1);
                    assert(rest[t] == w);
                }
                assert(stack.contains(w));
            }
        }
    }
}

/// What the depth-first walk keeps of the order of its output, with `out`
/// visited and `stack` waiting.
spec fn dfs_order_inv(m: HierarchyModel, id: u64, out: Seq<u64>, stack: Seq<u64>) -> bool {
    &&& siblings_in_order(m, out)
    &&& subtrees_contiguous(m, out)
    // no waiting entity is listed before a visited sibling
    &&& forall|i: int, w: u64| 0 <= i < out.len() && stack.contains(w) ==> !#[trigger] sibling_before(m, w, out[i])
    // of two waiting siblings, the one listed first waits nearer the top
    &&& forall|a: int, b: int|
        0 <= a < stack.len() && 0 <= b < stack.len() && #[trigger] sibling_before(m, stack[a], stack[b]) ==> a > b
    // once the walk has left what lies below a visited entity, none of it waits
    &&& forall|i: int, w: u64|
        0 <= i < out.len() && stack.contains(w) && (exists|j: int| i < j < out.len() && !is_descendant(m, out[i], out[j]))
            ==> !#[trigger] is_descendant(m, out[i], w)
    // the waiting entities below a visited one are on top of the others
    &&& forall|i: int, a: int, b: int|
        0 <= i < out.len() && 0 <= a < b < stack.len() && #[trigger] is_descendant(m, out[i], stack[a])
            ==> #[trigger] is_descendant(m, out[i], stack[b])
    // what lies between `id` and a visited entity has been visited
    &&& forall|o: u64, a: u64|
        #[trigger] out.contains(o) && #[trigger] is_descendant(m, a, o) && is_descendant(m, id, a) ==> out.contains(a)
}

/// The walk starts in order.
proof fn lemma_dfs_order_init(m: HierarchyModel, id: u64)
    requires
        model_wf(m),
    ensures
        dfs_order_inv(m, id, Seq::empty(), Seq::empty() + children_of(m, id).reverse()),
{
    let top = children_of(m, id);
    let stack = Seq::<u64>::empty() + top.reverse();
    let n = top.len() as int;
    assert(stack =~= top.reverse());
    lemma_sibling_positions(m, id);
    assert forall|a: int, b: int|
        0 <= a < stack.len() && 0 <= b < stack.len() && #[trigger] sibling_before(m, stack[a], stack[b]) implies a > b by {
        assert(stack[a] == top[n - 1 - a]);
        assert(stack[b] == top[n - 1 - b]);
        assert(sibling_before(m, top[n - 1 - a], top[n - 1 - b]));
    }
}

/// Visiting the last waiting entity and putting its children in its place
/// keeps the walk in order.
proof fn lemma_dfs_order_step(m: HierarchyModel, id: u64, out0: Seq<u64>, stack0: Seq<u64>)
    requires
        model_wf(m),
        !is_descendant(m, id, id),
        dfs_inv(m, id, out0, stack0),
        dfs_order_inv(m, id, out0, stack0),
        stack0.len() > 0,
    ensures
        dfs_order_inv(
            m,
            id,
            out0.push(stack0.last()),
            stack0.drop_last() + children_of(m, stack0.last()).reverse(),
        ),
{
    let t = stack0.len() - 1;
    let x = stack0.last();
    let out = out0.push(x);
    let n = out0.len() as int;
    let rest = stack0.drop_last();
    let cs = children_of(m, x);
    let r = rest.len() as int;
    let stack = rest + cs.reverse();
    assert(stack0[t] == x);
    assert(stack0.contains(x));
    assert(!out0.contains(x));
    assert(is_descendant(m, id, x));
    assert(x != id);
    lemma_sibling_positions(m, x);
    // membership in the new output and stack
    assert forall|w: u64| #[trigger] out.contains(w) <==> out0.contains(w) || w == x by {
        if out.contains(w) {
            let q = choose|q: int| 0 <= q < out.len() && #[trigger] out[q] == w;
            if q < n {
                assert(out0[q] == w);
            }
        }
        if out0.contains(w) {
            let q = choose|q: int| 0 <= q < out0.len() && #[trigger] out0[q] == w;
            assert(out[q] == w);
        }
        if w == x {
            assert(out[n] == x);
        }
    }
    assert forall|w: u64| #[trigger] rest.contains(w) implies stack0.contains(w) && w != x by {
        let q = choose|q: int| 0 <= q < rest.len() && #[trigger] rest[q] == w;
        assert(stack0[q] == w);
        assert(stack0.no_duplicates());
    }
    assert forall|w: u64| #[trigger] stack.contains(w) implies rest.contains(w) || (m.parent.contains_key(w)
        && m.parent[w] == x) by {
        let q = choose|q: int| 0 <= q < stack.len() && #[trigger] stack[q] == w;
        if q < r {
            assert(rest[q] == w);
        } else {
            assert(stack[q] == cs[cs.len() - 1 - (q - r)]);
            assert(cs.contains(w));
            assert(m.lists.contains_key(x));
        }
    }
    // no visited entity and no other waiting entity is a child of `x`
    assert forall|w: u64| m.parent.contains_key(w) && m.parent[w] == x implies !#[trigger] out0.contains(w)
        && !rest.contains(w) by {
        if out0.contains(w) {
            let q = choose|q: int| 0 <= q < out0.len() && #[trigger] out0[q] == w;
            assert(parent_before(m, id, out0, q));
            if m.parent[w] != id {
                let q2 = choose|q2: int| 0 <= q2 < q && out0[q2] == m.parent[out0[q]];
                assert(out0.contains(x));
            }
        }
        if rest.contains(w) {
            assert(stack0.contains(w));
        }
    }
    // `x` does not lie below itself, nor below a child of its own
    assert(!is_descendant(m, x, x)) by {
        if is_descendant(m, x, x) {
            let kd = choose|k: nat| k >= 1 && #[trigger] ancestor_at(m, x, k) == Some(x);
            let k = choose|k: nat| k >= 1 && #[trigger] ancestor_at(m, x, k) == Some(id);
            lemma_ancestor_compose(m, x, k, kd);
            lemma_ancestor_compose(m, x, kd, k);
            assert(ancestor_at(m, id, kd) == Some(id));
        }
    }
    // no other waiting entity lies below `x`
    assert forall|w: u64| #[trigger] rest.contains(w) implies !is_descendant(m, x, w) by {
        assert(stack0.contains(w));
        if is_descendant(m, x, w) {
            lemma_desc_of_child(m, x, w);
            let p = m.parent[w];
            if p == id {
                if x != p {
                    lemma_desc_trans(m, id, x, id);
                }
            } else {
                assert(out0.contains(p));
                if x != p {
                    assert(out0.contains(x));
                }
            }
        }
    }
    // siblings in order
    assert forall|i: int, j: int|
        0 <= i < out.len() && 0 <= j < out.len() && #[trigger] sibling_before(m, out[i], out[j]) implies i < j by {
        if i < n && j < n {
            assert(out[i] == out0[i] && out[j] == out0[j]);
        } else if i == n && j < n {
            assert(out[j] == out0[j]);
            assert(!sibling_before(m, x, out0[j]));
        } else if i == n && j == n {
        }
    }
    // what lies below comes right after
    assert forall|i: int, j: int, k: int|
        #![trigger is_descendant(m, out[i], out[k]), out[j]]
        0 <= i < j < k < out.len() && is_descendant(m, out[i], out[k]) implies is_descendant(m, out[i], out[j]) by {
        assert(out[i] == out0[i] && out[j] == out0[j]);
        if k < n {
            assert(out[k] == out0[k]);
        } else {
            if !is_descendant(m, out0[i], out0[j]) {
                assert(!is_descendant(m, out0[i], x));
            }
        }
    }
    // no waiting entity is listed before a visited sibling
    assert forall|i: int, w: u64| 0 <= i < out.len() && stack.contains(w) implies !#[trigger] sibling_before(m, w, out[i]) by {
        if sibling_before(m, w, out[i]) {
            if rest.contains(w) {
                if i < n {
                    assert(out[i] == out0[i]);
                } else {
                    let a = choose|a: int| 0 <= a < rest.len() && #[trigger] rest[a] == w;
                    assert(stack0[a] == w);
                    assert(sibling_before(m, stack0[a], stack0[t]));
                }
            } else {
                assert(m.parent[w] == x);
                if i < n {
                    assert(out[i] == out0[i]);
                    assert(out0.contains(out0[i]));
                } else {
                    assert(m.parent[x] == x);
                    lemma_desc_to_child(m, x, x);
                }
            }
        }
    }
    // of two waiting siblings, the one listed first waits nearer the top
    assert forall|a: int, b: int|
        0 <= a < stack.len() && 0 <= b < stack.len() && #[trigger] sibling_before(m, stack[a], stack[b]) implies a > b by {
        if a < r && b < r {
            assert(stack[a] == stack0[a] && stack[b] == stack0[b]);
        } else if a >= r && b >= r {
            let pa = cs.len() - 1 - (a - r);
            let pb = cs.len() - 1 - (b - r);
            assert(stack[a] == cs[pa]);
            assert(stack[b] == cs[pb]);
        } else if a < r {
            assert(stack.contains(stack[b]));
            assert(rest.contains(stack[a])) by {
                assert(rest[a] == stack[a]);
            }
            assert(m.parent[stack[b]] == x) by {
                assert(stack[b] == cs[cs.len() - 1 - (b - r)]);
                assert(cs.contains(stack[b]));
                assert(m.lists.contains_key(x));
            }
        } else {
            assert(rest.contains(stack[b])) by {
                assert(rest[b] == stack[b]);
            }
            assert(m.parent[stack[a]] == x) by {
                assert(stack[a] == cs[cs.len() - 1 - (a - r)]);
                assert(cs.contains(stack[a]));
                assert(m.lists.contains_key(x));
            }
        }
    }
    // once the walk has left what lies below a visited entity, none of it waits
    assert forall|i: int, w: u64|
        0 <= i < out.len() && stack.contains(w) && (exists|j: int| i < j < out.len() && !is_descendant(m, out[i], out[j]))
        implies !#[trigger] is_descendant(m, out[i], w) by {
        let j = choose|j: int| i < j < out.len() && !is_descendant(m, out[i], out[j]);
        assert(i < n);
        assert(out[i] == out0[i]);
        if is_descendant(m, out0[i], w) {
            if j < n {
                assert(out[j] == out0[j]);
                if rest.contains(w) {
                    assert(stack0.contains(w));
                } else {
                    lemma_desc_of_child(m, out0[i], w);
                    assert(out0[i] != x);
                    assert(!is_descendant(m, out0[i], x));
                }
            } else {
                assert(out[j] == x);
                if rest.contains(w) {
                    let a = choose|a: int| 0 <= a < rest.len() && #[trigger] rest[a] == w;
                    assert(stack0[a] == w);
                    assert(is_descendant(m, out0[i], stack0[a]));
                    assert(is_descendant(m, out0[i], stack0[t]));
                } else {
                    lemma_desc_of_child(m, out0[i], w);
                }
            }
        }
    }
    // the waiting entities below a visited one are on top of the others
    assert forall|i: int, a: int, b: int|
        0 <= i < out.len() && 0 <= a < b < stack.len() && #[trigger] is_descendant(m, out[i], stack[a]) implies #[trigger] is_descendant(
        m,
        out[i],
        stack[b],
    ) by {
        if b >= r {
            let cb = stack[b];
            assert(cb == cs[cs.len() - 1 - (b - r)]);
            assert(cs.contains(cb));
            assert(m.lists.contains_key(x));
            assert(m.parent[cb] == x);
            if i == n {
                assert(out[i] == x);
                lemma_desc_to_child(m, x, cb);
            } else {
                assert(out[i] == out0[i]);
                if a < r {
                    assert(stack[a] == stack0[a]);
                    assert(is_descendant(m, out0[i], stack0[t]));
                    lemma_desc_to_child(m, out0[i], cb);
                } else {
                    let ca = stack[a];
                    assert(ca == cs[cs.len() - 1 - (a - r)]);
                    assert(cs.contains(ca));
                    assert(m.parent[ca] == x);
                    lemma_desc_of_child(m, out0[i], ca);
                    lemma_desc_to_child(m, out0[i], cb);
                }
            }
        } else {
            assert(stack[a] == stack0[a] && stack[b] == stack0[b]);
            if i == n {
                assert(rest.contains(stack[a])) by {
                    assert(rest[a] == stack[a]);
                }
            } else {
                assert(out[i] == out0[i]);
            }
        }
    }
    // what lies between `id` and a visited entity has been visited
    assert forall|o: u64, a: u64|
        #[trigger] out.contains(o) && #[trigger] is_descendant(m, a, o) && is_descendant(m, id, a) implies out.contains(a) by {
        if o == x && !out0.contains(o) {
            lemma_desc_of_child(m, a, x);
            let p = m.parent[x];
            if p == id {
                if a != p {
                    lemma_desc_trans(m, id, a, id);
                }
            } else {
                assert(out0.contains(p));
            }
        }
    }
}

/// Once the chain up from `x` has ended it stays ended.
pub proof fn lemma_ancestor_none_stays(m: HierarchyModel, x: u64, a: nat, b: nat)
    requires
        ancestor_at(m, x, a) is None,
        a <= b,
    ensures
        ancestor_at(m, x, b) is None,
    decreases b - a,
{
    if a < b {
        lemma_ancestor_step(m, x, a);
        lemma_ancestor_none_stays(m, x, a + 1, b);
    }
}

/// What holds while the entities below `e` are detached from the deepest
/// up: the processed set `r` is gone, and everything outside `e` and its
/// descendants `es` is as it was after `e` was detached.
spec fn prune_inv(m1: HierarchyModel, es: Set<u64>, r: Set<u64>, cur: HierarchyModel) -> bool {
    &&& cur.parent == m1.parent.remove_keys(r)
    &&& forall|q: u64|
        !es.contains(q) ==> (#[trigger] cur.lists.contains_key(q) == m1.lists.contains_key(q) && (
        cur.lists.contains_key(q) ==> cur.lists[q] == m1.lists[q]) && cur.roots.contains(q)
            == m1.roots.contains(q))
    &&& forall|q: u64| #[trigger] r.contains(q) ==> !cur.lists.contains_key(q)
}

/// Detaching the next deepest unprocessed descendant keeps `prune_inv`.
#[verifier::spinoff_prover]
proof fn lemma_prune_step(
    m0: HierarchyModel,
    e: u64,
    ds: Seq<u64>,
    k: int,
    cur: HierarchyModel,
)
    requires
        model_wf(m0),
        model_wf(cur),
        !is_descendant(m0, e, e),
        ds.no_duplicates(),
        forall|d: u64| ds.contains(d) <==> is_descendant(m0, e, d),
        forall|j: int|
            0 <= j < ds.len() ==> m0.parent.contains_key(#[trigger] ds[j]) && (m0.parent[ds[j]] == e
                || exists|i: int| 0 <= i < j && ds[i] == m0.parent[ds[j]]),
        0 < k <= ds.len(),
        prune_inv(
            detach_model(m0, e),
            descendant_set(m0, e).insert(e),
            ds.subrange(k, ds.len() as int).to_set(),
            cur,
        ),
    ensures
        prune_inv(
            detach_model(m0, e),
            descendant_set(m0, e).insert(e),
            ds.subrange(k - 1, ds.len() as int).to_set(),
            detach_model(cur, ds[k - 1]),
        ),
{
    let m1 = detach_model(m0, e);
    let es = descendant_set(m0, e).insert(e);
    let n = ds.len() as int;
    let r = ds.subrange(k, n).to_set();
    let r2 = ds.subrange(k - 1, n).to_set();
    let d = ds[k - 1];
    assert(ds.contains(d));
    assert(is_descendant(m0, e, d));
    assert(d != e);
    assert(m1.parent.dom() == m0.parent.dom().remove(e) || m1.parent == m0.parent);
    assert forall|x: u64| #[trigger] r.contains(x) <==> exists|j: int| k <= j < n && ds[j] == x by {
        if r.contains(x) {
            let t = choose|t: int| 0 <= t < n - k && #[trigger] ds.subrange(k, n)[t] == x;
            assert(ds[k + t] == x);
        }
        if exists|j: int| k <= j < n && ds[j] == x {
            let j = choose|j: int| k <= j < n && ds[j] == x;
            assert(ds.subrange(k, n)[j - k] == x);
        }
    }
    assert(r2 =~= r.insert(d)) by {
        assert forall|x: u64| #[trigger] r2.contains(x) <==> r.insert(d).contains(x) by {
            if r2.contains(x) {
                let t = choose|t: int| 0 <= t < n - k + 1 && #[trigger] ds.subrange(k - 1, n)[t] == x;
                assert(ds[k - 1 + t] == x);
                if t > 0 {
                    assert(ds.subrange(k, n)[t - 1] == x);
                }
            }
            if r.contains(x) {
                let j = choose|j: int| k <= j < n && ds[j] == x;
                assert(ds.subrange(k - 1, n)[j - k + 1] == x);
            }
            if x == d {
                assert(ds.subrange(k - 1, n)[0] == x);
            }
        }
    }
    assert(!r.contains(d)) by {
        if r.contains(d) {
            let j = choose|j: int| k <= j < n && ds[j] == d;
        }
    }
    // the parent of d has not been processed
    assert(m0.parent.contains_key(d));
    let q = m0.parent[d];
    assert(m1.parent.contains_key(d) && m1.parent[d] == q);
    assert(cur.parent.contains_key(d) && cur.parent[d] == q);
    assert(es.contains(q) && !r.contains(q)) by {
        if q != e {
            assert(m0.parent[ds[k - 1]] == q);
            let i = choose|i: int| 0 <= i < k - 1 && #[trigger] ds[i] == q;
            assert(ds.contains(q));
            if r.contains(q) {
                let j = choose|j: int| k <= j < n && ds[j] == q;
            }
        } else {
            assert(!ds.contains(e));
        }
    }
    // d has no children left
    assert(!cur.lists.contains_key(d)) by {
        if cur.lists.contains_key(d) {
            let x = cur.lists[d][0];
            assert(cur.lists[d].contains(x));
            assert(cur.parent[x] == d);
            assert(!r.contains(x) && m1.parent.contains_key(x) && m1.parent[x] == d);
            assert(x != e);
            assert(m0.parent.contains_key(x) && m0.parent[x] == d);
            let kd = choose|kd: nat| kd >= 1 && #[trigger] ancestor_at(m0, d, kd) == Some(e);
            assert(m0.lists[d].contains(x));
            lemma_child_ancestor(m0, d, x, kd, e);
            assert(ancestor_at(m0, x, kd + 1) == Some(e));
            assert(ds.contains(x));
            let jx = choose|jx: int| 0 <= jx < n && ds[jx] == x;
            assert(m0.parent[ds[jx]] == d);
            let i = choose|i: int| 0 <= i < jx && ds[i] == m0.parent[ds[jx]];
            assert(i == k - 1);
            assert(r.contains(x));
        }
    }
    let nxt = detach_model(cur, d);
    assert(nxt.parent =~= m1.parent.remove_keys(r2));
    assert forall|x: u64| #[trigger] r2.contains(x) implies !nxt.lists.contains_key(x) by {
        if x != d {
            assert(r.contains(x));
            assert(x != q);
        }
    }
}

/// Going up from an entity that comes back to itself after `d` steps never
/// ends.
proof fn lemma_cycle_never_ends(m: HierarchyModel, x: u64, d: nat, t: nat)
    requires
        d >= 1,
        ancestor_at(m, x, d) == Some(x),
    ensures
        ancestor_at(m, x, t) is Some,
    decreases t,
{
    if t <= d {
        if ancestor_at(m, x, t) is None {
            lemma_ancestor_none_stays(m, x, t, d);
        }
    } else {
        let r = (t - d) as nat;
        lemma_ancestor_compose(m, x, d, r);
        lemma_cycle_never_ends(m, x, d, r);
    }
}

/// A chain that meets the same entity twice never ends.
proof fn lemma_repeat_never_ends(m: HierarchyModel, id: u64, i: nat, j: nat, x: u64)
    requires
        i < j,
        ancestor_at(m, id, i) == Some(x),
        ancestor_at(m, id, j) == Some(x),
    ensures
        !chain_ends(m, id),
{
    let d = (j - i) as nat;
    lemma_ancestor_compose(m, id, i, d);
    assert forall|k: nat| !(#[trigger] ancestor_at(m, id, k) is None) by {
        if k >= i {
            let t = (k - i) as nat;
            lemma_ancestor_compose(m, id, i, t);
            lemma_cycle_never_ends(m, x, d, t);
        } else if ancestor_at(m, id, k) is None {
            lemma_ancestor_none_stays(m, id, k, i);
        }
    }
}

/// Once the chain up from `id` comes back to where it was `d` steps
/// before, every later step repeats one of those `d`.
pub(crate) proof fn lemma_cycle_repeats(m: HierarchyModel, id: u64, i: nat, d: nat, t: nat)
    requires
        d >= 1,
        ancestor_at(m, id, i) is Some,
        ancestor_at(m, id, i + d) == ancestor_at(m, id, i),
        t >= i,
    ensures
        exists|s: nat| i <= s < i + d && ancestor_at(m, id, t) == #[trigger] ancestor_at(m, id, s),
    decreases t,
{
    if t < i + d {
        assert(ancestor_at(m, id, t) == ancestor_at(m, id, t));
    } else {
        let x = ancestor_at(m, id, i)->Some_0;
        let r = (t - i - d) as nat;
        lemma_ancestor_compose(m, id, i + d, r);
        lemma_ancestor_compose(m, id, i, r);
        assert(ancestor_at(m, id, t) == ancestor_at(m, id, (t - d) as nat));
        lemma_cycle_repeats(m, id, i, d, (t - d) as nat);
    }
}

/// Law: an entity whose chain of ancestors ends does not lie below itself.
pub proof fn lemma_chain_ends_not_below_itself(m: HierarchyModel, id: u64)
    requires
        chain_ends(m, id),
    ensures
        !is_descendant(m, id, id),
{
    if is_descendant(m, id, id) {
        let k = choose|k: nat| k >= 1 && #[trigger] ancestor_at(m, id, k) == Some(id);
        assert(ancestor_at(m, id, 0) == Some(id));
        lemma_repeat_never_ends(m, id, 0, k, id);
    }
}

/// Going up `a` steps and then `b` more is going up `a + b` steps.
pub proof fn lemma_ancestor_compose(m: HierarchyModel, y: u64, a: nat, b: nat)
    ensures
        ancestor_at(m, y, a + b) == (match ancestor_at(m, y, a) {
            Some(w) => ancestor_at(m, w, b),
            None => None,
        }),
    decreases a,
{
    if a > 0 && m.parent.contains_key(y) {
        lemma_ancestor_compose(m, m.parent[y], (a - 1) as nat, b);
    }
}

/// Two models whose parent maps agree except at `c`.
spec fn agree_except(m: HierarchyModel, m2: HierarchyModel, c: u64) -> bool {
    forall|y: u64|
        y != c ==> (#[trigger] m2.parent.contains_key(y) == m.parent.contains_key(y) && (m.parent.contains_key(y)
            ==> m2.parent[y] == m.parent[y]))
}

/// A chain in `m2` that reaches `c` reaches it in `m` too, no later.
proof fn lemma_reach_c(m: HierarchyModel, m2: HierarchyModel, c: u64, y: u64, t: nat)
    requires
        agree_except(m, m2, c),
        ancestor_at(m2, y, t) == Some(c),
    ensures
        exists|t2: nat| t2 <= t && #[trigger] ancestor_at(m, y, t2) == Some(c),
    decreases t,
{
    if y == c {
        assert(ancestor_at(m, y, 0) == Some(c));
    } else {
        assert(t > 0);
        assert(m2.parent.contains_key(y));
        let py = m.parent[y];
        lemma_reach_c(m, m2, c, py, (t - 1) as nat);
        let t3 = choose|t3: nat| t3 <= t - 1 && #[trigger] ancestor_at(m, py, t3) == Some(c);
        assert(ancestor_at(m, y, t3 + 1) == Some(c));
    }
}

/// A chain in `m2` either is the chain in `m` or passes `c` on the way.
proof fn lemma_reach_or_pass(m: HierarchyModel, m2: HierarchyModel, c: u64, y: u64, t: nat, z: u64)
    requires
        agree_except(m, m2, c),
        ancestor_at(m2, y, t) == Some(z),
    ensures
        ancestor_at(m, y, t) == Some(z) || exists|j: nat| j < t && #[trigger] ancestor_at(m2, y, j) == Some(c),
    decreases t,
{
    if t > 0 {
        if y == c {
            assert(ancestor_at(m2, y, 0) == Some(c));
        } else {
            assert(m2.parent.contains_key(y));
            let py = m.parent[y];
            lemma_reach_or_pass(m, m2, c, py, (t - 1) as nat, z);
            if ancestor_at(m, py, (t - 1) as nat) != Some(z) {
                let j = choose|j: nat| j < t - 1 && #[trigger] ancestor_at(m2, py, j) == Some(c);
                assert(ancestor_at(m2, y, j + 1) == Some(c));
            }
        }
    }
}

/// Law: attaching `c` below `p` keeps the hierarchy free of cycles when `c`
/// is not `p` and `p` does not lie below `c`.
pub proof fn lemma_attach_keeps_acyclic(m: HierarchyModel, p: u64, c: u64)
    requires
        model_wf(m),
        acyclic(m),
        p != c,
        !is_descendant(m, c, p),
    ensures
        acyclic(attach_model(m, p, c)),
{
    let m2 = attach_model(m, p, c);
    assert(agree_except(m, m2, c));
    assert forall|x: u64| !#[trigger] is_descendant(m2, x, x) by {
        if is_descendant(m2, x, x) {
            let k = choose|k: nat| k >= 1 && #[trigger] ancestor_at(m2, x, k) == Some(x);
            lemma_reach_or_pass(m, m2, c, x, k, x);
            if ancestor_at(m, x, k) == Some(x) {
                assert(is_descendant(m, x, x));
            } else {
                let j = choose|j: nat| j < k && #[trigger] ancestor_at(m2, x, j) == Some(c);
                lemma_ancestor_compose(m2, x, j, k);
                lemma_ancestor_compose(m2, x, k, j);
                assert(ancestor_at(m2, c, k) == Some(c));
                assert(m2.parent[c] == p);
                assert(ancestor_at(m2, p, (k - 1) as nat) == Some(c));
                lemma_reach_c(m, m2, c, p, (k - 1) as nat);
                let t2 = choose|t2: nat| t2 <= k - 1 && #[trigger] ancestor_at(m, p, t2) == Some(c);
                assert(t2 >= 1);
                assert(is_descendant(m, c, p));
            }
        }
    }
}

/// Law: detaching `c` and attaching it again as the last child of `p`, when
/// `c` was not a child and is not `p`, gives back the hierarchy as it was,
/// provided its roots were exactly the parents that are not children.
pub proof fn lemma_attach_detach_roundtrip(m: HierarchyModel, p: u64, c: u64)
    requires
        model_wf(m),
        roots_consistent(m),
        p != c,
        !m.parent.contains_key(c),
    ensures
        detach_model(attach_model(m, p, c), c) == m,
{
    let a = attach_model(m, p, c);
    let d = detach_model(a, c);
    assert(detach_model(m, c) == m);
    assert(a.parent[c] == p);
    assert forall|q: u64, x: u64| m.lists.contains_key(q) && #[trigger] m.lists[q].contains(x) implies x != c by {
    }
    if m.lists.contains_key(p) {
        let s = m.lists[p];
        let s2 = s.push(c);
        assert(a.lists[p] == s2);
        assert(s2.contains(c)) by {
            assert(s2[s.len() as int] == c);
        }
        let i = s2.index_of(c);
        assert(s2[i] == c);
        if i < s.len() {
            assert(s.contains(c));
        }
        assert(s2.remove(i) =~= s);
    } else {
        let s2 = seq![c];
        assert(a.lists[p] == s2);
        assert(s2.contains(c)) by {
            assert(s2[0] == c);
        }
        assert(s2.index_of(c) == 0);
        assert(s2.remove(0) =~= Seq::<u64>::empty());
    }
    assert(d.lists =~= m.lists);
    assert(d.parent =~= m.parent);
    assert(d.roots =~= m.roots);
}

/// Law: after `c` is attached to `p`, `c` is the last child of `p` and `p`
/// is the parent of `c`.
pub proof fn lemma_attach_then_read(m: HierarchyModel, p: u64, c: u64)
    ensures
        attach_model(m, p, c).parent.contains_key(c),
        attach_model(m, p, c).parent[c] == p,
        children_of(attach_model(m, p, c), p).len() > 0,
        children_of(attach_model(m, p, c), p).last() == c,
{
}

/// Law: attaching, with `c` different from `p`, keeps the roots exactly the
/// parents that are not children.
pub proof fn lemma_attach_keeps_roots_consistent(m: HierarchyModel, p: u64, c: u64)
    requires
        model_wf(m),
        roots_consistent(m),
        p != c,
    ensures
        roots_consistent(attach_model(m, p, c)),
{
    lemma_detach_keeps_roots_consistent(m, c);
}

/// Law: detaching keeps the roots exactly the parents that are not children.
pub proof fn lemma_detach_keeps_roots_consistent(m: HierarchyModel, c: u64)
    requires
        model_wf(m),
        roots_consistent(m),
    ensures
        roots_consistent(detach_model(m, c)),
{
}

/// Removing an element from a sequence without duplicates leaves the others.
proof fn lemma_remove_members(s: Seq<u64>, i: int)
    requires
        s.no_duplicates(),
        0 <= i < s.len(),
    ensures
        s.remove(i).no_duplicates(),
        forall|x: u64| #[trigger] s.remove(i).contains(x) <==> s.contains(x) && x != s[i],
{
    let r = s.remove(i);
    s.remove_ensures(i);
    assert forall|a: int, b: int| 0 <= a < r.len() && 0 <= b < r.len() && a != b implies r[a] != r[b] by {
        let oa = if a < i { a } else { a + 1 };
        let ob = if b < i { b } else { b + 1 };
        assert(r[a] == s[oa] && r[b] == s[ob]);
    }
    assert forall|x: u64| #[trigger] r.contains(x) <==> s.contains(x) && x != s[i] by {
        if r.contains(x) {
            let t = choose|t: int| 0 <= t < r.len() && #[trigger] r[t] == x;
            let ot = if t < i { t } else { t + 1 };
            assert(s[ot] == x);
        }
        if s.contains(x) && x != s[i] {
            let t = choose|t: int| 0 <= t < s.len() && #[trigger] s[t] == x;
            let rt = if t < i { t } else { t - 1 };
            assert(r[rt] == x);
        }
    }
}

/// Detaching keeps a model well-formed.
pub proof fn lemma_detach_model_wf(m: HierarchyModel, c: u64)
    requires
        model_wf(m),
    ensures
        model_wf(detach_model(m, c)),
{
    if m.parent.contains_key(c) {
        let p = m.parent[c];
        let s = m.lists[p];
        assert(s.contains(c));
        let i = s.index_of(c);
        assert(s[i] == c);
        lemma_remove_members(s, i);
        let rest = s.remove(i);
        let d = detach_model(m, c);
        assert forall|q: u64, x: u64|
            #![trigger d.lists[q].contains(x)]
            d.lists.contains_key(q) && d.lists[q].contains(x) implies d.parent.contains_key(x) && d.parent[x] == q by {
            if q == p {
                assert(rest.contains(x));
            } else {
                assert(m.lists[q].contains(x));
                if x == c {
                    assert(m.parent[x] == q);
                }
            }
        }
        assert forall|x: u64| #[trigger] d.parent.contains_key(x) implies d.lists.contains_key(d.parent[x])
            && d.lists[d.parent[x]].contains(x) by {
            let q = m.parent[x];
            assert(m.lists[q].contains(x));
            if q == p {
                assert(rest.contains(x));
            }
        }
    }
}

/// Law: attaching keeps a model well-formed.
pub proof fn lemma_attach_model_wf(m: HierarchyModel, p: u64, c: u64)
    requires
        model_wf(m),
    ensures
        model_wf(attach_model(m, p, c)),
{
    lemma_detach_model_wf(m, c);
    let m1 = detach_model(m, c);
    let a = attach_model(m, p, c);
    assert(!m1.parent.contains_key(c));
    assert forall|q: u64| #[trigger] m1.lists.contains_key(q) implies !m1.lists[q].contains(c) by {
        if m1.lists[q].contains(c) {
            assert(m1.parent.contains_key(c));
        }
    }
    let s = if m1.lists.contains_key(p) { m1.lists[p].push(c) } else { seq![c] };
    assert(a.lists[p] == s);
    assert(s.no_duplicates()) by {
        if m1.lists.contains_key(p) {
            let old_s = m1.lists[p];
            assert forall|i: int, j: int| 0 <= i < s.len() && 0 <= j < s.len() && i != j implies s[i] != s[j] by {
                if i < old_s.len() && j < old_s.len() {
                    assert(s[i] == old_s[i] && s[j] == old_s[j]);
                } else if i == old_s.len() {
                    assert(s[j] == old_s[j]);
                    assert(old_s.contains(old_s[j]));
                } else {
                    assert(s[i] == old_s[i]);
                    assert(old_s.contains(old_s[i]));
                }
            }
        }
    }
    assert(s.contains(c)) by {
        assert(s[s.len() - 1] == c);
    }
    assert forall|q: u64, x: u64|
        #![trigger a.lists[q].contains(x)]
        a.lists.contains_key(q) && a.lists[q].contains(x) implies a.parent.contains_key(x) && a.parent[x] == q by {
        if q == p {
            if x != c {
                assert(m1.lists.contains_key(p));
                let i = choose|i: int| 0 <= i < s.len() && s[i] == x;
                assert(m1.lists[p][i] == x);
                assert(m1.lists[p].contains(x));
            }
        } else {
            assert(m1.lists[q].contains(x));
        }
    }
    assert forall|x: u64| #[trigger] a.parent.contains_key(x) implies a.lists.contains_key(a.parent[x])
        && a.lists[a.parent[x]].contains(x) by {
        if x != c {
            let q = m1.parent[x];
            assert(m1.lists[q].contains(x));
            if q == p {
                let i = choose|i: int| 0 <= i < m1.lists[p].len() && m1.lists[p][i] == x;
                assert(s[i] == x);
            }
        }
    }
    assert forall|q: u64| #[trigger] a.lists.contains_key(q) implies a.lists[q].len() > 0 && a.lists[q].no_duplicates() by {
        if q != p {
            assert(m1.lists.contains_key(q));
        }
    }
}

/// Law: removing an entity keeps the roots exactly the parents that are not
/// children.
pub proof fn lemma_remove_keeps_roots_consistent(m: HierarchyModel, e: u64)
    requires
        model_wf(m),
        roots_consistent(m),
    ensures
        roots_consistent(remove_model(m, e)),
{
    lemma_detach_keeps_roots_consistent(m, e);
    lemma_detach_model_wf(m, e);
    let m1 = detach_model(m, e);
    let cs = children_of(m1, e);
    let r = remove_model(m, e);
    assert forall|x: u64| #[trigger] r.roots.contains(x) <==> r.lists.contains_key(x) && !r.parent.contains_key(x) by {
        if cs.to_set().contains(x) {
            assert(cs.contains(x));
            assert(m1.lists.contains_key(e));
            assert(m1.parent.contains_key(x) && m1.parent[x] == e);
            assert(x != e);
        }
    }
}

/// Law: removing an entity with everything below it keeps the roots exactly
/// the parents that are not children.
pub proof fn lemma_remove_all_keeps_roots_consistent(m: HierarchyModel, e: u64)
    requires
        model_wf(m),
        roots_consistent(m),
    ensures
        roots_consistent(remove_all_model(m, e)),
{
    lemma_detach_keeps_roots_consistent(m, e);
}

/// Law: detaching never creates a cycle.
pub proof fn lemma_detach_keeps_acyclic(m: HierarchyModel, c: u64)
    requires
        model_wf(m),
        acyclic(m),
    ensures
        acyclic(detach_model(m, c)),
{
    let m2 = detach_model(m, c);
    assert(agree_except(m, m2, c));
    assert(!m2.parent.contains_key(c));
    assert forall|x: u64| !#[trigger] is_descendant(m2, x, x) by {
        if is_descendant(m2, x, x) {
            let k = choose|k: nat| k >= 1 && #[trigger] ancestor_at(m2, x, k) == Some(x);
            lemma_reach_or_pass(m, m2, c, x, k, x);
            if ancestor_at(m, x, k) == Some(x) {
                assert(is_descendant(m, x, x));
            } else {
                let j = choose|j: nat| j < k && #[trigger] ancestor_at(m2, x, j) == Some(c);
                lemma_ancestor_compose(m2, x, j, k);
                lemma_ancestor_compose(m2, x, k, j);
                assert(ancestor_at(m2, c, k) == Some(c));
            }
        }
    }
}

/// Every parent link of `m2` is one of `m`.
pub open spec fn fewer_links(m: HierarchyModel, m2: HierarchyModel) -> bool {
    forall|y: u64| #[trigger] m2.parent.contains_key(y) ==> m.parent.contains_key(y) && m.parent[y] == m2.parent[y]
}

/// Walking up through some of the parent links reaches, where it reaches
/// anything, what walking up through all of them reaches.
proof fn lemma_fewer_links_ancestor(m: HierarchyModel, m2: HierarchyModel, x: u64, k: nat)
    requires
        fewer_links(m, m2),
    ensures
        ancestor_at(m2, x, k) is Some ==> ancestor_at(m2, x, k) == ancestor_at(m, x, k),
    decreases k,
{
    if k > 0 && m2.parent.contains_key(x) {
        lemma_fewer_links_ancestor(m, m2, m2.parent[x], (k - 1) as nat);
    }
}

/// Law: dropping parent links keeps a hierarchy free of cycles.
pub proof fn lemma_fewer_links_keep_acyclic(m: HierarchyModel, m2: HierarchyModel)
    requires
        fewer_links(m, m2),
        acyclic(m),
    ensures
        acyclic(m2),
{
    assert forall|x: u64| !#[trigger] is_descendant(m2, x, x) by {
        if is_descendant(m2, x, x) {
            let k = choose|k: nat| k >= 1 && #[trigger] ancestor_at(m2, x, k) == Some(x);
            lemma_fewer_links_ancestor(m, m2, x, k);
            assert(is_descendant(m, x, x));
        }
    }
}

/// Law: removing an entity keeps a hierarchy free of cycles.
pub proof fn lemma_remove_keeps_acyclic(m: HierarchyModel, e: u64)
    requires
        acyclic(m),
    ensures
        acyclic(remove_model(m, e)),
{
    lemma_fewer_links_keep_acyclic(m, remove_model(m, e));
}

/// Law: removing an entity and everything below it keeps a hierarchy free
/// of cycles.
pub proof fn lemma_remove_all_keeps_acyclic(m: HierarchyModel, e: u64)
    requires
        acyclic(m),
    ensures
        acyclic(remove_all_model(m, e)),
{
    lemma_fewer_links_keep_acyclic(m, remove_all_model(m, e));
}

/// Slot `i` of the list `s` of parent `p` is linked as the list says.
spec fn slot_ok(children: Map<u64, Child>, p: u64, s: Seq<u64>, i: int) -> bool {
    &&& children.contains_key(s[i])
    &&& children[s[i]] == Child { parent: p, prev: prev_in(s, i), next: next_in(s, i) }
}

/// The list `s` of parent `p` matches the stored parent and child records.
spec fn list_ok(parents: Map<u64, Parent>, children: Map<u64, Child>, p: u64, s: Seq<u64>) -> bool {
    &&& s.len() > 0
    &&& parents.contains_key(p)
    &&& parents[p].child_count == s.len()
    &&& parents[p].first_child == s[0]
    &&& s.no_duplicates()
    &&& forall|i: int| 0 <= i < s.len() ==> #[trigger] slot_ok(children, p, s, i)
}

/// The stored records agree with the ghost lists.
spec fn parts_wf(
    parents: Map<u64, Parent>,
    children: Map<u64, Child>,
    roots: Set<u64>,
    lists: Map<u64, Seq<u64>>,
) -> bool {
    &&& parents.dom() == lists.dom()
    &&& parents.dom().finite()
    &&& children.dom().finite()
    &&& forall|p: u64| #[trigger] lists.contains_key(p) ==> list_ok(parents, children, p, lists[p])
    &&& forall|c: u64|
        #[trigger] children.contains_key(c) ==> lists.contains_key(children[c].parent)
            && lists[children[c].parent].contains(c)
    &&& roots.subset_of(lists.dom())
}

spec fn parent_map(children: Map<u64, Child>) -> Map<u64, u64> {
    Map::new(|c: u64| children.contains_key(c), |c: u64| children[c].parent)
}

/// A member of a well-formed list sits in a slot whose record names the
/// list's parent.
proof fn lemma_member_slot(
    parents: Map<u64, Parent>,
    children: Map<u64, Child>,
    roots: Set<u64>,
    lists: Map<u64, Seq<u64>>,
    p: u64,
    c: u64,
)
    requires
        parts_wf(parents, children, roots, lists),
        lists.contains_key(p),
        lists[p].contains(c),
    ensures
        children.contains_key(c),
        children[c].parent == p,
        0 <= lists[p].index_of(c) < lists[p].len(),
        lists[p][lists[p].index_of(c)] == c,
        slot_ok(children, p, lists[p], lists[p].index_of(c)),
{
    let s = lists[p];
    let i = s.index_of(c);
    assert(list_ok(parents, children, p, s));
    assert(slot_ok(children, p, s, i));
}

/// The ghost lists together with the stored records form a well-formed model.
proof fn lemma_parts_model_wf(
    parents: Map<u64, Parent>,
    children: Map<u64, Child>,
    roots: Set<u64>,
    lists: Map<u64, Seq<u64>>,
)
    requires
        parts_wf(parents, children, roots, lists),
    ensures
        model_wf(HierarchyModel { lists, parent: parent_map(children), roots }),
{
    let m = HierarchyModel { lists, parent: parent_map(children), roots };
    assert(lists.dom() =~= parents.dom());
    assert(m.parent.dom() =~= children.dom());
    assert forall|p: u64| #[trigger] m.lists.contains_key(p) implies m.lists[p].len() > 0
        && m.lists[p].no_duplicates() by {
        assert(list_ok(parents, children, p, lists[p]));
    }
    assert forall|p: u64, c: u64|
        #![trigger m.lists[p].contains(c)]
        m.lists.contains_key(p) && m.lists[p].contains(c) implies m.parent.contains_key(c)
        && m.parent[c] == p by {
        lemma_member_slot(parents, children, roots, lists, p, c);
    }
}


/// Unlinking a child from a list of two or more keeps the records
/// well-formed, with the child gone from its parent's list.
#[verifier::spinoff_prover]
#[verifier::rlimit(40)]
proof fn lemma_unlink(
    parents: Map<u64, Parent>,
    children: Map<u64, Child>,
    roots: Set<u64>,
    lists: Map<u64, Seq<u64>>,
    c: u64,
    parents2: Map<u64, Parent>,
    children2: Map<u64, Child>,
    lists2: Map<u64, Seq<u64>>,
)
    requires
        parts_wf(parents, children, roots, lists),
        children.contains_key(c),
        lists[children[c].parent].len() >= 2,
        ({
            let ch = children[c];
            let p = ch.parent;
            let s = lists[p];
            let c1 = children.remove(c);
            let pn = c1[ch.prev];
            let c2 = c1.insert(ch.prev, Child { parent: pn.parent, prev: pn.prev, next: ch.next });
            let nn = c2[ch.next];
            &&& children2 == c2.insert(ch.next, Child { parent: nn.parent, prev: ch.prev, next: nn.next })
            &&& parents2 == parents.insert(
                p,
                Parent {
                    child_count: (parents[p].child_count - 1) as usize,
                    first_child: if parents[p].first_child == c {
                        ch.next
                    } else {
                        parents[p].first_child
                    },
                },
            )
            &&& lists2 == lists.insert(p, s.remove(s.index_of(c)))
        }),
    ensures
        parts_wf(parents2, children2, roots, lists2),
        parent_map(children2) == parent_map(children).remove(c),
{
    let ch = children[c];
    let p = ch.parent;
    let s = lists[p];
    lemma_member_slot(parents, children, roots, lists, p, c);
    let i = s.index_of(c);
    let n = s.len();
    let s2 = s.remove(i);
    assert(list_ok(parents, children, p, s));
    s.remove_ensures(i);
    let pi = if i > 0 { i - 1 } else { n - 1 };
    let ni = if i + 1 < n { i + 1 } else { 0 };
    assert(ch.prev == s[pi]);
    assert(ch.next == s[ni]);
    assert(pi != i && ni != i);
    assert(slot_ok(children, p, s, pi));
    assert(slot_ok(children, p, s, ni));
    // Members of the new list keep their links, except the neighbours of `c`.
    assert forall|j: int| 0 <= j < s2.len() implies #[trigger] slot_ok(children2, p, s2, j) by {
        let oj = if j < i { j } else { j + 1 };
        assert(s2[j] == s[oj]);
        assert(slot_ok(children, p, s, oj));
        if oj != pi && oj != ni {
            assert(s[oj] != ch.prev && s[oj] != ch.next && s[oj] != c);
        }
    }
    assert(s2.no_duplicates()) by {
        assert forall|a: int, b: int| 0 <= a < s2.len() && 0 <= b < s2.len() && a != b implies s2[a] != s2[b] by {
            let oa = if a < i { a } else { a + 1 };
            let ob = if b < i { b } else { b + 1 };
            assert(s2[a] == s[oa] && s2[b] == s[ob]);
        }
    }
    assert(list_ok(parents2, children2, p, s2)) by {
        if i == 0 {
            assert(s2[0] == s[1]);
        } else {
            assert(s2[0] == s[0]);
            assert(s[0] != c);
        }
    }
    assert forall|q: u64| #[trigger] lists2.contains_key(q) implies list_ok(parents2, children2, q, lists2[q]) by {
        if q != p {
            let t = lists[q];
            assert(list_ok(parents, children, q, t));
            assert forall|j: int| 0 <= j < t.len() implies #[trigger] slot_ok(children2, q, t, j) by {
                assert(slot_ok(children, q, t, j));
                assert(t[j] != c && t[j] != ch.prev && t[j] != ch.next);
            }
        }
    }
    assert forall|x: u64| #[trigger] children2.contains_key(x) implies lists2.contains_key(children2[x].parent)
        && lists2[children2[x].parent].contains(x) by {
        assert(x != c);
        assert(children.contains_key(x));
        assert(children2[x].parent == children[x].parent);
        if children[x].parent == p {
            let k = s.index_of(x);
            lemma_member_slot(parents, children, roots, lists, p, x);
            assert(k != i);
            let k2 = if k < i { k } else { k - 1 };
            assert(s2[k2] == x);
        }
    }
    assert(parent_map(children2) =~= parent_map(children).remove(c));
}


/// Removing the only child of a parent removes the parent record too.
proof fn lemma_unlink_last(
    parents: Map<u64, Parent>,
    children: Map<u64, Child>,
    roots: Set<u64>,
    lists: Map<u64, Seq<u64>>,
    c: u64,
)
    requires
        parts_wf(parents, children, roots, lists),
        children.contains_key(c),
        lists[children[c].parent].len() == 1,
    ensures
        ({
            let p = children[c].parent;
            parts_wf(parents.remove(p), children.remove(c), roots.remove(p), lists.remove(p))
        }),
        parent_map(children.remove(c)) == parent_map(children).remove(c),
        lists[children[c].parent].remove(lists[children[c].parent].index_of(c)).len() == 0,
{
    let p = children[c].parent;
    let s = lists[p];
    lemma_member_slot(parents, children, roots, lists, p, c);
    assert(s[0] == c);
    let parents2 = parents.remove(p);
    let children2 = children.remove(c);
    let lists2 = lists.remove(p);
    assert forall|q: u64| #[trigger] lists2.contains_key(q) implies list_ok(parents2, children2, q, lists2[q]) by {
        let t = lists[q];
        assert(list_ok(parents, children, q, t));
        assert forall|j: int| 0 <= j < t.len() implies #[trigger] slot_ok(children2, q, t, j) by {
            assert(slot_ok(children, q, t, j));
        }
    }
    assert forall|x: u64| #[trigger] children2.contains_key(x) implies lists2.contains_key(children2[x].parent)
        && lists2[children2[x].parent].contains(x) by {
        if children[x].parent == p {
            lemma_member_slot(parents, children, roots, lists, p, x);
            assert(x == c);
        }
    }
    assert(parents2.dom() =~= lists2.dom());
    assert(parent_map(children2) =~= parent_map(children).remove(c));
    s.remove_ensures(0);
}


/// A list of distinct children is no longer than the set of all children.
proof fn lemma_list_len_bound(
    parents: Map<u64, Parent>,
    children: Map<u64, Child>,
    roots: Set<u64>,
    lists: Map<u64, Seq<u64>>,
    p: u64,
)
    requires
        parts_wf(parents, children, roots, lists),
        lists.contains_key(p),
    ensures
        lists[p].len() <= children.dom().len(),
{
    let s = lists[p];
    assert(list_ok(parents, children, p, s));
    s.unique_seq_to_set();
    assert forall|x: u64| s.to_set().contains(x) implies children.dom().contains(x) by {
        lemma_member_slot(parents, children, roots, lists, p, x);
    }
    vstd::set_lib::lemma_len_subset(s.to_set(), children.dom());
}

/// Making `c` the only child of a new parent `p` keeps the records
/// well-formed.
proof fn lemma_link_first(
    parents: Map<u64, Parent>,
    children: Map<u64, Child>,
    roots: Set<u64>,
    lists: Map<u64, Seq<u64>>,
    p: u64,
    c: u64,
    roots2: Set<u64>,
)
    requires
        parts_wf(parents, children, roots, lists),
        !children.contains_key(c),
        !parents.contains_key(p),
        roots2.subset_of(lists.dom().insert(p)),
    ensures
        parts_wf(
            parents.insert(p, Parent { child_count: 1, first_child: c }),
            children.insert(c, Child { parent: p, prev: c, next: c }),
            roots2,
            lists.insert(p, seq![c]),
        ),
        parent_map(children.insert(c, Child { parent: p, prev: c, next: c })) == parent_map(
            children,
        ).insert(c, p),
{
    let parents2 = parents.insert(p, Parent { child_count: 1, first_child: c });
    let children2 = children.insert(c, Child { parent: p, prev: c, next: c });
    let lists2 = lists.insert(p, seq![c]);
    assert(slot_ok(children2, p, seq![c], 0));
    assert(list_ok(parents2, children2, p, seq![c]));
    assert forall|q: u64| #[trigger] lists2.contains_key(q) implies list_ok(parents2, children2, q, lists2[q]) by {
        if q != p {
            let t = lists[q];
            assert(list_ok(parents, children, q, t));
            assert forall|j: int| 0 <= j < t.len() implies #[trigger] slot_ok(children2, q, t, j) by {
                assert(slot_ok(children, q, t, j));
            }
        }
    }
    assert forall|x: u64| #[trigger] children2.contains_key(x) implies lists2.contains_key(children2[x].parent)
        && lists2[children2[x].parent].contains(x) by {
        if x == c {
            assert(lists2[p][0] == c);
        } else if children[x].parent == p {
            assert(lists.contains_key(p));
        }
    }
    assert(parents2.dom() =~= lists2.dom());
    assert(parent_map(children2) =~= parent_map(children).insert(c, p));
}

/// Appending `c` to the end of the circular list of parent `p` keeps the
/// records well-formed.
proof fn lemma_link_append(
    parents: Map<u64, Parent>,
    children: Map<u64, Child>,
    roots: Set<u64>,
    lists: Map<u64, Seq<u64>>,
    p: u64,
    c: u64,
    roots2: Set<u64>,
    parents2: Map<u64, Parent>,
    children2: Map<u64, Child>,
)
    requires
        parts_wf(parents, children, roots, lists),
        !children.contains_key(c),
        parents.contains_key(p),
        parents[p].child_count < usize::MAX,
        roots2.subset_of(lists.dom()),
        ({
            let s = lists[p];
            let first = parents[p].first_child;
            let prev = children[first].prev;
            let pn = children[prev];
            let c2 = children.insert(prev, Child { parent: pn.parent, prev: pn.prev, next: c });
            let nn = c2[first];
            let c3 = c2.insert(first, Child { parent: nn.parent, prev: c, next: nn.next });
            &&& children2 == c3.insert(c, Child { parent: p, prev: prev, next: first })
            &&& parents2 == parents.insert(
                p,
                Parent { child_count: (parents[p].child_count + 1) as usize, first_child: first },
            )
        }),
    ensures
        parts_wf(parents2, children2, roots2, lists.insert(p, lists[p].push(c))),
        parent_map(children2) == parent_map(children).insert(c, p),
{
    let s = lists[p];
    let n = s.len();
    let s2 = s.push(c);
    let lists2 = lists.insert(p, s2);
    assert(list_ok(parents, children, p, s));
    let first = s[0];
    assert(slot_ok(children, p, s, 0));
    assert(slot_ok(children, p, s, n - 1));
    let prev = s[n - 1];
    assert(children[first].prev == prev);
    assert forall|j: int| 0 <= j < s2.len() implies #[trigger] slot_ok(children2, p, s2, j) by {
        if j < n {
            assert(slot_ok(children, p, s, j));
            assert(s[j] != c);
        }
    }
    assert(s2.no_duplicates()) by {
        assert forall|a: int, b: int| 0 <= a < s2.len() && 0 <= b < s2.len() && a != b implies s2[a] != s2[b] by {
            if a < n && b < n {
                assert(s2[a] == s[a] && s2[b] == s[b]);
            } else if a < n {
                assert(slot_ok(children, p, s, a));
            } else if b < n {
                assert(slot_ok(children, p, s, b));
            }
        }
    }
    assert(list_ok(parents2, children2, p, s2));
    assert forall|q: u64| #[trigger] lists2.contains_key(q) implies list_ok(parents2, children2, q, lists2[q]) by {
        if q != p {
            let t = lists[q];
            assert(list_ok(parents, children, q, t));
            assert forall|j: int| 0 <= j < t.len() implies #[trigger] slot_ok(children2, q, t, j) by {
                assert(slot_ok(children, q, t, j));
                assert(t[j] != c && t[j] != prev && t[j] != first);
            }
        }
    }
    assert forall|x: u64| #[trigger] children2.contains_key(x) implies lists2.contains_key(children2[x].parent)
        && lists2[children2[x].parent].contains(x) by {
        if x == c {
            assert(s2[n as int] == c);
        } else {
            assert(children.contains_key(x));
            if children[x].parent == p {
                lemma_member_slot(parents, children, roots, lists, p, x);
                let k = s.index_of(x);
                assert(s2[k] == x);
            }
        }
    }
    assert(parents2.dom() =~= lists2.dom());
    assert(parent_map(children2) =~= parent_map(children).insert(c, p));
}


/// Pushes the elements of `s` onto `stack` from last to first.
fn push_reversed(stack: &mut Vec<u64>, s: &Vec<u64>)
    ensures
        final(stack)@ == old(stack)@ + s@.reverse(),
{
    let ghost base = stack@;
    let mut i: usize = s.len();
    while i > 0
        invariant
            i <= s@.len(),
            stack@ == base + s@.subrange(i as int, s@.len() as int).reverse(),
        decreases i,
    {
        i = i - 1;
        stack.push(s[i]);
        assert(s@.subrange(i as int, s@.len() as int).reverse() =~= s@.subrange(
            i + 1,
            s@.len() as int,
        ).reverse().push(s@[i as int]));
    }
    assert(s@.subrange(0, s@.len() as int) =~= s@);
}

/// An entity hierarchy.
pub struct HierarchyBundle {
    parents: HashMap<u64, Parent>,
    children: HashMap<u64, Child>,
    roots: HashSet<u64>,
    lists: Ghost<Map<u64, Seq<u64>>>,
}

impl View for HierarchyBundle {
    type V = HierarchyModel;

    closed spec fn view(&self) -> HierarchyModel {
        HierarchyModel {
            lists: self.lists@,
            parent: parent_map(self.children@),
            roots: self.roots@,
        }
    }
}

impl HierarchyBundle {
    /// The stored records agree with each other.
    pub closed spec fn wf(&self) -> bool {
        parts_wf(self.parents@, self.children@, self.roots@, self.lists@)
    }

    /// A well-formed hierarchy has a well-formed model.
    pub proof fn lemma_wf_model(&self)
        requires
            self.wf(),
        ensures
            model_wf(self@),
    {
        lemma_parts_model_wf(self.parents@, self.children@, self.roots@, self.lists@);
    }

    /// An empty hierarchy.
    pub fn new() -> (r: Self)
        ensures
            r.wf(),
            r@.lists == Map::<u64, Seq<u64>>::empty(),
            r@.parent == Map::<u64, u64>::empty(),
            r@.roots == Set::<u64>::empty(),
    {
        let r = HierarchyBundle {
            parents: HashMap::new(),
            children: HashMap::new(),
            roots: HashSet::new(),
            lists: Ghost(Map::empty()),
        };
        assert(r@.parent =~= Map::<u64, u64>::empty());
        r
    }

    /// The parent of `id`, if it is a child.
    pub fn parent(&self, id: u64) -> (r: Option<u64>)
        ensures
            r == (if self@.parent.contains_key(id) {
                Some(self@.parent[id])
            } else {
                None
            }),
    {
        match self.children.get(&id) {
            Some(child) => Some(child.parent),
            None => None,
        }
    }

    /// Whether `id` is a parent.
    pub fn is_parent(&self, id: u64) -> (r: bool)
        requires
            self.wf(),
        ensures
            r == self@.lists.contains_key(id),
    {
        self.parents.contains_key(&id)
    }

    /// Whether `id` is a child.
    pub fn is_child(&self, id: u64) -> (r: bool)
        ensures
            r == self@.parent.contains_key(id),
    {
        self.children.contains_key(&id)
    }

    /// How many entities are children of some parent.
    pub fn child_entity_count(&self) -> (r: usize)
        ensures
            r == self@.parent.dom().len(),
    {
        assert(self@.parent.dom() =~= self.children@.dom());
        self.children.len()
    }

    /// Whether the chain of ancestors of `id` ends, rather than running
    /// into a cycle.
    pub fn chain_ends_from(&self, id: u64) -> (r: bool)
        requires
            self.wf(),
        ensures
            r == chain_ends(self@, id),
    {
        let ghost m = self@;
        proof {
            self.lemma_wf_model();
        }
        let n = self.child_entity_count();
        let mut cursor = id;
        let mut steps: usize = 0;
        let ghost mut path: Seq<u64> = seq![id];
        loop
            invariant
                m == self@,
                model_wf(m),
                n == m.parent.dom().len(),
                steps <= n,
                path.len() == steps + 1,
                path[steps as int] == cursor,
                forall|i: int| 0 <= i < path.len() ==> ancestor_at(m, id, i as nat) == Some(#[trigger] path[i]),
                forall|i: int| 0 <= i < steps ==> m.parent.contains_key(#[trigger] path[i]),
            decreases n - steps,
        {
            proof {
                lemma_ancestor_step(m, id, steps as nat);
                assert(ancestor_at(m, id, steps as nat) == Some(path[steps as int]));
            }
            match self.parent(cursor) {
                None => {
                    assert(ancestor_at(m, id, (steps + 1) as nat) is None);
                    return true;
                },
                Some(p) => {
                    if steps == n {
                        proof {
                            assert forall|i: int| 0 <= i < path.len() implies m.parent.contains_key(#[trigger] path[i]) by {
                                if i == steps {
                                    assert(path[i] == cursor);
                                }
                            }
                            if path.no_duplicates() {
                                path.unique_seq_to_set();
                                assert(path.to_set().subset_of(m.parent.dom()));
                                vstd::set_lib::lemma_len_subset(path.to_set(), m.parent.dom());
                                assert(false);
                            }
                            let (i, j) = choose|i: int, j: int|
                                0 <= i < path.len() && 0 <= j < path.len() && i != j && path[i] == path[j];
                            assert(ancestor_at(m, id, i as nat) == Some(path[i]));
                            assert(ancestor_at(m, id, j as nat) == Some(path[j]));
                            if i < j {
                                lemma_repeat_never_ends(m, id, i as nat, j as nat, path[i]);
                            } else {
                                lemma_repeat_never_ends(m, id, j as nat, i as nat, path[i]);
                            }
                        }
                        return false;
                    }
                    proof {
                        path = path.push(p);
                    }
                    steps = steps + 1;
                    cursor = p;
                },
            }
        }
    }

    /// Whether `id` lies below itself, that is, whether walking up from
    /// `id` leads back to it.
    pub fn lies_below_itself(&self, id: u64) -> (r: bool)
        requires
            self.wf(),
        ensures
            r == is_descendant(self@, id, id),
    {
        let ghost m = self@;
        proof {
            self.lemma_wf_model();
        }
        let n = self.child_entity_count();
        let mut cursor = id;
        let mut steps: usize = 0;
        let ghost mut path: Seq<u64> = seq![id];
        loop
            invariant
                m == self@,
                model_wf(m),
                n == m.parent.dom().len(),
                steps <= n,
                path.len() == steps + 1,
                path[0] == id,
                path[steps as int] == cursor,
                forall|i: int| 0 <= i < path.len() ==> ancestor_at(m, id, i as nat) == Some(#[trigger] path[i]),
                forall|i: int| 0 <= i < steps ==> m.parent.contains_key(#[trigger] path[i]),
                forall|i: int| 1 <= i < path.len() ==> #[trigger] path[i] != id,
            decreases n - steps,
        {
            proof {
                lemma_ancestor_step(m, id, steps as nat);
                assert(ancestor_at(m, id, steps as nat) == Some(path[steps as int]));
            }
            match self.parent(cursor) {
                None => {
                    proof {
                        let next = (steps + 1) as nat;
                        assert(ancestor_at(m, id, next) is None);
                        assert forall|k: nat| k >= 1 implies #[trigger] ancestor_at(m, id, k) != Some(id) by {
                            if k > steps {
                                lemma_ancestor_none_stays(m, id, next, k);
                            } else {
                                assert(ancestor_at(m, id, k) == Some(path[k as int]));
                            }
                        }
                    }
                    return false;
                },
                Some(p) => {
                    if p == id {
                        assert(ancestor_at(m, id, (steps + 1) as nat) == Some(id));
                        return true;
                    }
                    if steps == n {
                        proof {
                            assert forall|i: int| 0 <= i < path.len() implies m.parent.contains_key(#[trigger] path[i]) by {
                                if i == steps {
                                    assert(path[i] == cursor);
                                }
                            }
                            if path.no_duplicates() {
                                path.unique_seq_to_set();
                                assert(path.to_set().subset_of(m.parent.dom()));
                                vstd::set_lib::lemma_len_subset(path.to_set(), m.parent.dom());
                                assert(false);
                            }
                            let (a, b) = choose|a: int, b: int|
                                0 <= a < path.len() && 0 <= b < path.len() && a != b && path[a] == path[b];
                            let i: int = if a < b { a } else { b };
                            let j: int = if a < b { b } else { a };
                            assert(path[i] == path[j]);
                            assert(i >= 1) by {
                                if i == 0 {
                                    assert(path[j] != id);
                                }
                            }
                            let d = (j - i) as nat;
                            assert(ancestor_at(m, id, i as nat) == Some(path[i]));
                            assert(ancestor_at(m, id, (i as nat + d) as nat) == Some(path[j]));
                            assert forall|k: nat| k >= 1 implies #[trigger] ancestor_at(m, id, k) != Some(id) by {
                                if k < i {
                                    assert(ancestor_at(m, id, k) == Some(path[k as int]));
                                } else {
                                    lemma_cycle_repeats(m, id, i as nat, d, k);
                                    let s = choose|s: nat| i <= s < i + d && ancestor_at(m, id, k) == #[trigger] ancestor_at(m, id, s);
                                    assert(ancestor_at(m, id, s) == Some(path[s as int]));
                                }
                            }
                        }
                        return false;
                    }
                    proof {
                        path = path.push(p);
                    }
                    steps = steps + 1;
                    cursor = p;
                },
            }
        }
    }

    /// Whether `id` is a root.
    pub fn is_root(&self, id: u64) -> (r: bool)
        ensures
            r == self@.roots.contains(id),
    {
        self.roots.contains(&id)
    }

    /// Removes the child status of `child_id`: it leaves its parent's list,
    /// a parent left without children stops being a parent and a root, and
    /// `child_id` becomes a root if it is a parent itself. Nothing happens
    /// to an entity that is not a child.
    pub fn detach(&mut self, child_id: u64)
        requires
            old(self).wf(),
        ensures
            final(self).wf(),
            final(self)@ == detach_model(old(self)@, child_id),
    {
        let ghost parents0 = self.parents@;
        let ghost children0 = self.children@;
        let ghost roots0 = self.roots@;
        let ghost lists0 = self.lists@;
        let removed = self.children.remove(&child_id);
        match removed {
            None => {
                assert(self.children@ =~= children0);
            },
            Some(child) => {
                let p = child.parent;
                let ghost s = lists0[p];
                proof {
                    lemma_member_slot(parents0, children0, roots0, lists0, p, child_id);
                    assert(list_ok(parents0, children0, p, s));
                }
                let parent = match self.parents.get(&p) {
                    Some(x) => *x,
                    None => {
                        assert(false);
                        return ;
                    },
                };
                let count = parent.child_count - 1;
                if count == 0 {
                    self.parents.remove(&p);
                    self.roots.remove(&p);
                    proof {
                        lemma_unlink_last(parents0, children0, roots0, lists0, child_id);
                        self.lists@ = lists0.remove(p);
                    }
                } else {
                    let first = if parent.first_child == child_id {
                        child.next
                    } else {
                        parent.first_child
                    };
                    let ghost c1 = self.children@;
                    let pn = match self.children.get(&child.prev) {
                        Some(x) => *x,
                        None => {
                            proof {
                                let i = s.index_of(child_id);
                                let pi = if i > 0 { i - 1 } else { s.len() - 1 };
                                assert(slot_ok(children0, p, s, pi));
                                assert(s[pi] != child_id);
                            }
                            assert(false);
                            return ;
                        },
                    };
                    self.children.insert(
                        child.prev,
                        Child { parent: pn.parent, prev: pn.prev, next: child.next },
                    );
                    let nn = match self.children.get(&child.next) {
                        Some(x) => *x,
                        None => {
                            proof {
                                let i = s.index_of(child_id);
                                let ni = if i + 1 < s.len() { i + 1 } else { 0 };
                                assert(slot_ok(children0, p, s, ni));
                                assert(s[ni] != child_id);
                            }
                            assert(false);
                            return ;
                        },
                    };
                    self.children.insert(
                        child.next,
                        Child { parent: nn.parent, prev: child.prev, next: nn.next },
                    );
                    self.parents.insert(p, Parent { child_count: count, first_child: first });
                    proof {
                        let lists2 = lists0.insert(p, s.remove(s.index_of(child_id)));
                        lemma_unlink(
                            parents0,
                            children0,
                            roots0,
                            lists0,
                            child_id,
                            self.parents@,
                            self.children@,
                            lists2,
                        );
                        self.lists@ = lists2;
                    }
                }
                if self.parents.contains_key(&child_id) {
                    self.roots.insert(child_id);
                }
                proof {
                    let m0 = HierarchyModel {
                        lists: lists0,
                        parent: parent_map(children0),
                        roots: roots0,
                    };
                    let m2 = detach_model(m0, child_id);
                    assert(self.lists@ =~= m2.lists);
                    assert(self.roots@ =~= m2.roots);
                    assert(parent_map(self.children@) =~= m2.parent);
                }
            },
        }
    }

    /// Attaches `child_id` as the last child of `parent_id`, first detaching
    /// it from any earlier parent. The child stops being a root, and the
    /// parent becomes one unless it is a child itself.
    pub fn attach(&mut self, parent_id: u64, child_id: u64)
        requires
            old(self).wf(),
        ensures
            final(self).wf(),
            final(self)@ == attach_model(old(self)@, parent_id, child_id),
    {
        let ghost m0 = self@;
        proof {
            lemma_parts_model_wf(self.parents@, self.children@, self.roots@, self.lists@);
        }
        self.detach(child_id);
        let ghost m1 = self@;
        let ghost parents1 = self.parents@;
        let ghost children1 = self.children@;
        let ghost roots1 = self.roots@;
        let ghost lists1 = self.lists@;
        proof {
            assert(parent_map(children1).dom() =~= children1.dom());
            assert(children1.dom().subset_of(m0.parent.dom()));
            assert(m0.parent.dom().finite());
            vstd::set_lib::lemma_len_subset(children1.dom(), m0.parent.dom());
        }
        self.roots.remove(&child_id);
        if !self.children.contains_key(&parent_id) {
            self.roots.insert(parent_id);
        }
        let ghost roots2 = self.roots@;
        match self.parents.get(&parent_id) {
            Some(parent) => {
                let parent = *parent;
                proof {
                    lemma_list_len_bound(parents1, children1, roots1, lists1, parent_id);
                    assert(list_ok(parents1, children1, parent_id, lists1[parent_id]));
                    assert(slot_ok(children1, parent_id, lists1[parent_id], 0));
                    assert(slot_ok(
                        children1,
                        parent_id,
                        lists1[parent_id],
                        lists1[parent_id].len() - 1,
                    ));
                }
                let first = parent.first_child;
                let first_node = match self.children.get(&first) {
                    Some(x) => *x,
                    None => {
                        assert(false);
                        return ;
                    },
                };
                let prev = first_node.prev;
                let pn = match self.children.get(&prev) {
                    Some(x) => *x,
                    None => {
                        assert(false);
                        return ;
                    },
                };
                self.children.insert(prev, Child { parent: pn.parent, prev: pn.prev, next: child_id });
                let nn = match self.children.get(&first) {
                    Some(x) => *x,
                    None => {
                        assert(false);
                        return ;
                    },
                };
                self.children.insert(first, Child { parent: nn.parent, prev: child_id, next: nn.next });
                self.children.insert(child_id, Child { parent: parent_id, prev, next: first });
                proof {
                    // The map of children holds one more entry than before,
                    // and a map's size fits in a usize.
                    vstd::std_specs::hash::axiom_spec_hash_map_len(&self.children);
                    assert(!children1.dom().contains(child_id));
                    assert(children1.dom().contains(prev) && children1.dom().contains(first));
                    assert(self.children@.dom() =~= children1.dom().insert(child_id));
                    assert(self.children@.dom().len() == children1.dom().len() + 1);
                    assert(parent.child_count == lists1[parent_id].len());
                }
                self.parents.insert(
                    parent_id,
                    Parent { child_count: parent.child_count + 1, first_child: first },
                );
                proof {
                    lemma_link_append(
                        parents1,
                        children1,
                        roots1,
                        lists1,
                        parent_id,
                        child_id,
                        roots2,
                        self.parents@,
                        self.children@,
                    );
                    self.lists@ = lists1.insert(parent_id, lists1[parent_id].push(child_id));
                }
            },
            None => {
                self.children.insert(child_id, Child { parent: parent_id, prev: child_id, next: child_id });
                self.parents.insert(parent_id, Parent { child_count: 1, first_child: child_id });
                proof {
                    lemma_link_first(parents1, children1, roots1, lists1, parent_id, child_id, roots2);
                    self.lists@ = lists1.insert(parent_id, seq![child_id]);
                }
            },
        }
        proof {
            let m2 = attach_model(m0, parent_id, child_id);
            assert(self.lists@ =~= m2.lists);
            assert(self.roots@ =~= m2.roots);
            assert(parent_map(self.children@) =~= m2.parent);
        }
    }

    /// Removes `entity_id` from the hierarchy: it is detached from its
    /// parent, and each of its children is detached from it.
    pub fn remove(&mut self, entity_id: u64)
        requires
            old(self).wf(),
        ensures
            final(self).wf(),
            final(self)@ == remove_model(old(self)@, entity_id),
    {
        let ghost m0 = self@;
        self.detach(entity_id);
        let ghost m1 = self@;
        proof {
            self.lemma_wf_model();
        }
        let cs = self.children(entity_id);
        let ghost n = cs@.len();
        proof {
            if n == 0 {
                assert(!m1.lists.contains_key(entity_id));
            }
            let p0 = remove_partial(m1, entity_id, cs@, 0);
            assert(cs@.take(0).to_set() =~= Set::<u64>::empty());
            assert(cs@.skip(0) =~= cs@);
            assert(p0.lists =~= m1.lists);
            assert(p0.parent =~= m1.parent);
            assert(p0.roots =~= m1.roots);
        }
        let mut k: usize = 0;
        while k < cs.len()
            invariant
                self.wf(),
                model_wf(m1),
                !m1.parent.contains_key(entity_id),
                cs@ == children_of(m1, entity_id),
                k <= cs@.len(),
                self@ == remove_partial(m1, entity_id, cs@, k as int),
            decreases cs@.len() - k,
        {
            proof {
                self.lemma_wf_model();
                lemma_remove_step(m1, entity_id, k as int);
            }
            self.detach(cs[k]);
            k = k + 1;
        }
        proof {
            self.lemma_wf_model();
            assert(cs@.take(n as int) =~= cs@);
            assert(!self@.lists.contains_key(entity_id));
        }
        let ghost before = self.parents@;
        self.parents.remove(&entity_id);
        assert(self.parents@ =~= before);
    }

    /// Every entity below `id`, each once, in depth-first order: each
    /// entity comes after its parent, siblings in sibling order, and what
    /// lies below an entity right after it. `id` must not lie below itself.
    pub fn descendants(&self, id: u64) -> (r: Vec<u64>)
        requires
            self.wf(),
            !is_descendant(self@, id, id),
        ensures
            r@.no_duplicates(),
            forall|d: u64| r@.contains(d) <==> is_descendant(self@, id, d),
            forall|j: int|
                0 <= j < r@.len() ==> self@.parent.contains_key(#[trigger] r@[j]) && (self@.parent[r@[j]]
                    == id || exists|i: int| 0 <= i < j && r@[i] == self@.parent[r@[j]]),
            siblings_in_order(self@, r@),
            subtrees_contiguous(self@, r@),
    {
        let ghost m = self@;
        proof {
            self.lemma_wf_model();
            lemma_descendant_set_finite(m, id);
            lemma_dfs_init(m, id);
            lemma_dfs_order_init(m, id);
        }
        let ghost dset = descendant_set(m, id);
        let top = self.children(id);
        let mut stack: Vec<u64> = Vec::new();
        push_reversed(&mut stack, &top);
        let mut out: Vec<u64> = Vec::new();
        while stack.len() > 0
            invariant
                self.wf(),
                model_wf(m),
                m == self@,
                dset == descendant_set(m, id),
                !is_descendant(m, id, id),
                dfs_inv(m, id, out@, stack@),
                dfs_order_inv(m, id, out@, stack@),
            decreases dset.len() - out@.len(),
        {
            let ghost out0 = out@;
            let ghost stack0 = stack@;
            proof {
                lemma_dfs_step(m, id, out0, stack0);
                lemma_dfs_order_step(m, id, out0, stack0);
            }
            let x = match stack.pop() {
                Some(x) => x,
                None => {
                    assert(false);
                    return out;
                },
            };
            assert(x == stack0.last());
            assert(stack@ == stack0.drop_last());
            out.push(x);
            let cs = self.children(x);
            push_reversed(&mut stack, &cs);
        }
        proof {
            assert forall|d: u64| is_descendant(m, id, d) implies out@.contains(d) by {
                if !out@.contains(d) {
                    let (w, k) = choose|w: u64, k: nat| stack@.contains(w) && #[trigger] reaches(m, d, k, w);
                    assert(false);
                }
            }
            assert forall|j: int| 0 <= j < out@.len() implies self@.parent.contains_key(#[trigger] out@[j]) && (
            self@.parent[out@[j]] == id || exists|i: int| 0 <= i < j && out@[i] == self@.parent[out@[j]]) by {
                assert(parent_before(m, id, out@, j));
            }
        }
        out
    }

    /// The entities above `id`: its parent, its grandparent and so on, up
    /// to the first that is not a child. The chain must end.
    pub fn ancestors(&self, id: u64) -> (r: Vec<u64>)
        requires
            self.wf(),
            exists|k: nat| #[trigger] ancestor_at(self@, id, k) is None,
        ensures
            forall|i: int| 0 <= i < r@.len() ==> ancestor_at(self@, id, (i + 1) as nat) == Some(#[trigger] r@[i]),
            ancestor_at(self@, id, (r@.len() + 1) as nat) is None,
    {
        let ghost m = self@;
        let ghost k0 = choose|k: nat| #[trigger] ancestor_at(m, id, k) is None;
        let mut out: Vec<u64> = Vec::new();
        let mut cursor = id;
        while self.children.contains_key(&cursor)
            invariant
                m == self@,
                ancestor_at(m, id, k0) is None,
                ancestor_at(m, id, out@.len()) == Some(cursor),
                forall|i: int| 0 <= i < out@.len() ==> ancestor_at(m, id, (i + 1) as nat) == Some(#[trigger] out@[i]),
            decreases k0 - out@.len(),
        {
            proof {
                if out@.len() >= k0 {
                    lemma_ancestor_none_stays(m, id, k0, out@.len());
                }
                lemma_ancestor_step(m, id, out@.len());
            }
            let parent = match self.children.get(&cursor) {
                Some(child) => child.parent,
                None => {
                    assert(false);
                    return out;
                },
            };
            out.push(parent);
            cursor = parent;
        }
        proof {
            lemma_ancestor_step(m, id, out@.len());
        }
        out
    }

    /// Removes `entity_id` and everything below it from the hierarchy. The
    /// entity is detached from its parent; it and its descendants stop being
    /// children, parents and roots; everything else stays as it was.
    /// `entity_id` must not lie below itself.
    pub fn remove_all(&mut self, entity_id: u64)
        requires
            old(self).wf(),
            !is_descendant(old(self)@, entity_id, entity_id),
        ensures
            final(self).wf(),
            final(self)@ == remove_all_model(old(self)@, entity_id),
    {
        let ghost m0 = self@;
        proof {
            self.lemma_wf_model();
        }
        let ds = self.descendants(entity_id);
        self.detach(entity_id);
        let ghost m1 = self@;
        let ghost es = descendant_set(m0, entity_id).insert(entity_id);
        proof {
            assert(ds@.subrange(ds@.len() as int, ds@.len() as int).to_set() =~= Set::<u64>::empty());
            assert(m1.parent.remove_keys(Set::<u64>::empty()) =~= m1.parent);
        }
        let mut k: usize = ds.len();
        while k > 0
            invariant
                self.wf(),
                model_wf(m0),
                !is_descendant(m0, entity_id, entity_id),
                m1 == detach_model(m0, entity_id),
                es == descendant_set(m0, entity_id).insert(entity_id),
                ds@.no_duplicates(),
                forall|d: u64| ds@.contains(d) <==> is_descendant(m0, entity_id, d),
                forall|j: int|
                    0 <= j < ds@.len() ==> m0.parent.contains_key(#[trigger] ds@[j]) && (m0.parent[ds@[j]]
                        == entity_id || exists|i: int| 0 <= i < j && ds@[i] == m0.parent[ds@[j]]),
                k <= ds@.len(),
                prune_inv(m1, es, ds@.subrange(k as int, ds@.len() as int).to_set(), self@),
            decreases k,
        {
            proof {
                self.lemma_wf_model();
                lemma_prune_step(m0, entity_id, ds@, k as int, self@);
            }
            k = k - 1;
            self.detach(ds[k]);
        }
        proof {
            self.lemma_wf_model();
            let dset = descendant_set(m0, entity_id);
            let r = ds@.subrange(0, ds@.len() as int).to_set();
            assert(ds@.subrange(0, ds@.len() as int) =~= ds@);
            assert(r =~= dset);
            let cur = self@;
            assert(!ds@.contains(entity_id));
            assert(!m1.parent.contains_key(entity_id));
            assert(!cur.lists.contains_key(entity_id)) by {
                if cur.lists.contains_key(entity_id) {
                    let x = cur.lists[entity_id][0];
                    assert(cur.lists[entity_id].contains(x));
                    assert(cur.parent[x] == entity_id);
                    assert(m1.parent.contains_key(x) && !r.contains(x));
                    assert(x != entity_id);
                    assert(m0.parent.contains_key(x) && m0.parent[x] == entity_id);
                    reveal_with_fuel(ancestor_at, 2);
                    assert(ancestor_at(m0, x, 1) == Some(entity_id));
                    assert(ds@.contains(x));
                }
            }
            assert(cur.lists =~= m1.lists.remove_keys(es));
            assert(cur.parent =~= m1.parent.remove_keys(es));
            assert forall|q: u64| cur.roots.contains(q) == m1.roots.difference(es).contains(q) by {
                if es.contains(q) {
                    if q != entity_id {
                        assert(r.contains(q));
                    }
                    assert(!cur.lists.contains_key(q));
                    assert(!cur.roots.contains(q));
                } else {
                    assert(cur.lists.contains_key(q) == m1.lists.contains_key(q));
                }
            }
            assert(cur.roots =~= m1.roots.difference(es));
            assert(cur == remove_all_model(m0, entity_id));
        }
    }

    /// The children of `id` in sibling order, starting at its first child.
    pub fn children(&self, id: u64) -> (r: Vec<u64>)
        requires
            self.wf(),
        ensures
            r@ == children_of(self@, id),
    {
        match self.parents.get(&id) {
            None => Vec::new(),
            Some(parent) => {
                let ghost s = self.lists@[id];
                assert(list_ok(self.parents@, self.children@, id, s));
                let count = parent.child_count;
                let mut cursor = parent.first_child;
                let mut out: Vec<u64> = Vec::new();
                let mut k: usize = 0;
                while k < count
                    invariant
                        self.wf(),
                        self.lists@.contains_key(id),
                        s == self.lists@[id],
                        list_ok(self.parents@, self.children@, id, s),
                        count == s.len(),
                        k <= count,
                        k < count ==> cursor == s[k as int],
                        out@ == s.take(k as int),
                    decreases count - k,
                {
                    assert(slot_ok(self.children@, id, s, k as int));
                    out.push(cursor);
                    let child = self.children.get(&cursor);
                    match child {
                        Some(c) => {
                            cursor = c.next;
                        },
                        None => {
                            assert(false);
                        },
                    }
                    assert(out@ =~= s.take(k + 1));
                    k = k + 1;
                }
                assert(out@ =~= s);
                out
            },
        }
    }
}

} // verus!

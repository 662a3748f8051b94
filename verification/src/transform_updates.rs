//! Which global transforms need recomputing after local transforms change.
//!
//! A child that inherits its parent's transform is recomputed together with
//! the ancestor whose change reaches it, so only the highest changed entity
//! of such a chain starts an update, which then flows down to the children
//! that inherit.

use std::collections::{HashMap, HashSet};

use vstd::prelude::*;

use crate::hierarchy::{
    HierarchyBundle, HierarchyModel, ancestor_at, chain_ends, children_of, is_descendant, lemma_ancestor_compose,
    lemma_ancestor_none_stays, lemma_ancestor_step, lemma_cycle_repeats, model_wf, reaches, sibling_before, siblings_in_order,
    subtrees_contiguous,
};

verus! {

broadcast use {vstd::std_specs::hash::group_hash_axioms, vstd::seq_lib::lemma_seq_contains_after_push};

/// What the update logic reads of each entity.
pub struct TransformFlags {
    /// Entities with a local transform.
    pub has_transform: HashSet<u64>,
    /// Entities with a global transform.
    pub has_global: HashSet<u64>,
    /// Entities whose local transform changed since the last update.
    pub changed: HashSet<u64>,
    /// Entities that inherit their parent's global transform.
    pub inherits: HashSet<u64>,
}

impl TransformFlags {
    /// `x` has both a local and a global transform.
    pub open spec fn has_both(&self, x: u64) -> bool {
        self.has_transform@.contains(x) && self.has_global@.contains(x)
    }

    /// Whether `x` has both a local and a global transform.
    pub fn has_both_transforms(&self, x: u64) -> (r: bool)
        ensures
            r == self.has_both(x),
    {
        self.has_transform.contains(&x) && self.has_global.contains(&x)
    }
}

/// Every entity from one step up to `k - 1` steps up from `id` has both
/// transforms, is unchanged, and inherits from its own parent.
pub open spec fn passes_through(m: HierarchyModel, f: TransformFlags, id: u64, k: nat) -> bool {
    forall|j: nat|
        1 <= j < k ==> (#[trigger] ancestor_at(m, id, j) matches Some(a) && f.has_both(a)
            && !f.changed@.contains(a) && f.inherits@.contains(a))
}

/// The entity `k` steps up from `id` has both transforms and changed, and
/// the walk up from `id` gets there.
pub open spec fn changed_above(m: HierarchyModel, f: TransformFlags, id: u64, k: nat) -> bool {
    &&& ancestor_at(m, id, k) matches Some(a) && f.has_both(a) && f.changed@.contains(a)
    &&& passes_through(m, f, id, k)
}

/// `id` inherits a change from above: it inherits its parent's transform,
/// and walking up through unchanged, inheriting ancestors with both
/// transforms one meets an ancestor with both transforms that changed.
pub open spec fn inherits_change(m: HierarchyModel, f: TransformFlags, id: u64) -> bool {
    f.inherits@.contains(id) && exists|k: nat| k >= 1 && #[trigger] changed_above(m, f, id, k)
}

/// The walk up from `id` ends `k` steps up: there is no entity there, or
/// it lacks a transform or does not inherit from its own parent.
pub open spec fn climb_end(m: HierarchyModel, f: TransformFlags, id: u64, k: nat) -> bool {
    match ancestor_at(m, id, k) {
        None => true,
        Some(a) => !f.has_both(a) || !f.inherits@.contains(a),
    }
}

/// The walk up from `id` through ancestors with both transforms that
/// inherit from their own parents stops: `id` does not inherit, or the walk
/// ends some steps up.
pub open spec fn climb_stops(m: HierarchyModel, f: TransformFlags, id: u64) -> bool {
    !f.inherits@.contains(id) || exists|k: nat| k >= 1 && #[trigger] climb_end(m, f, id, k)
}

/// Where the walk up ends bounds how far it has come.
proof fn lemma_climb_bound(m: HierarchyModel, f: TransformFlags, id: u64, k0: nat, steps: nat)
    requires
        k0 >= 1,
        climb_end(m, f, id, k0),
        climbs(m, f, id, steps + 1),
    ensures
        steps < k0,
{
    if k0 <= steps {
        assert(ancestor_at(m, id, k0) matches Some(a) && f.has_both(a) && f.inherits@.contains(a));
    }
}

/// Whether the walk up from `id` through ancestors with both transforms
/// that inherit from their own parents stops.
pub fn climb_stops_from(h: &HierarchyBundle, f: &TransformFlags, id: u64) -> (r: bool)
    requires
        h.wf(),
    ensures
        r == climb_stops(h@, *f, id),
{
    let ghost m = h@;
    proof {
        h.lemma_wf_model();
    }
    if !f.inherits.contains(&id) {
        return true;
    }
    let n = h.child_entity_count();
    let mut cursor = id;
    let mut steps: usize = 0;
    let ghost mut path: Seq<u64> = seq![id];
    loop
        invariant
            m == h@,
            model_wf(m),
            f.inherits@.contains(id),
            n == m.parent.dom().len(),
            steps <= n,
            path.len() == steps + 1,
            path[steps as int] == cursor,
            forall|i: int| 0 <= i < path.len() ==> ancestor_at(m, id, i as nat) == Some(#[trigger] path[i]),
            forall|i: int| 0 <= i < steps ==> m.parent.contains_key(#[trigger] path[i]),
            climbs(m, *f, id, steps as nat + 1),
        decreases n - steps,
    {
        proof {
            lemma_ancestor_step(m, id, steps as nat);
            assert(ancestor_at(m, id, steps as nat) == Some(path[steps as int]));
        }
        let ghost next: nat = steps as nat + 1;
        match h.parent(cursor) {
            None => {
                assert(climb_end(m, *f, id, next));
                return true;
            },
            Some(p) => {
                assert(ancestor_at(m, id, next) == Some(p));
                if !f.has_both_transforms(p) || !f.inherits.contains(&p) {
                    assert(climb_end(m, *f, id, next));
                    return true;
                }
                if steps == n {
                    proof {
                        assert forall|i: int| 0 <= i < path.len() implies m.parent.contains_key(#[trigger] path[i]) by {
                            if i == steps {
                                assert(path[i] == cursor);
                            }
                        }
                        if path.no_duplicates() {
                            path.unique_seq_to_set();
                            assert(path.to_set().subset_of(m.parent.dom()));
                            vstd::set_lib::lemma_len_subset(path.to_set(), m.parent.dom());
                            assert(false);
                        }
                        let (i, j) = choose|i: int, j: int|
                            0 <= i < path.len() && 0 <= j < path.len() && i != j && path[i] == path[j];
                        let (lo, hi) = if i < j { (i as nat, j as nat) } else { (j as nat, i as nat) };
                        assert(ancestor_at(m, id, lo) == Some(path[lo as int]));
                        assert(ancestor_at(m, id, hi) == Some(path[hi as int]));
                        // Every step up within the walk so far keeps going.
                        assert forall|j2: nat| 1 <= j2 <= next implies (#[trigger] ancestor_at(m, id, j2) matches Some(a)
                            && f.has_both(a) && f.inherits@.contains(a)) by {
                            if j2 < next {
                                assert(climbs(m, *f, id, steps as nat + 1));
                            }
                        }
                        assert forall|k: nat| k >= 1 implies !#[trigger] climb_end(m, *f, id, k) by {
                            if k > hi {
                                lemma_cycle_repeats(m, id, lo, (hi - lo) as nat, k);
                                let s2 = choose|s2: nat| lo <= s2 < hi && ancestor_at(m, id, k) == #[trigger] ancestor_at(m, id, s2);
                                if s2 == 0 {
                                    assert(ancestor_at(m, id, hi) == ancestor_at(m, id, 0));
                                } else {
                                    assert(ancestor_at(m, id, s2) matches Some(a) && f.has_both(a) && f.inherits@.contains(a));
                                }
                            } else {
                                assert(ancestor_at(m, id, k) matches Some(a) && f.has_both(a) && f.inherits@.contains(a));
                            }
                        }
                    }
                    return false;
                }
                proof {
                    assert forall|j2: nat| 1 <= j2 < next + 1 implies (#[trigger] ancestor_at(m, id, j2) matches Some(a)
                        && f.has_both(a) && f.inherits@.contains(a)) by {
                        if j2 < next {
                            assert(climbs(m, *f, id, steps as nat + 1));
                        }
                    }
                    path = path.push(p);
                }
                steps = steps + 1;
                cursor = p;
            },
        }
    }
}

/// Whether a change above `id` reaches it through inheriting ancestors, so
/// that updating that ancestor updates `id` too. The walk up from `id`
/// must stop.
pub fn ancestor_changed(h: &HierarchyBundle, f: &TransformFlags, id: u64) -> (r: bool)
    requires
        h.wf(),
        climb_stops(h@, *f, id),
    ensures
        r == inherits_change(h@, *f, id),
{
    let ghost m = h@;
    if !f.inherits.contains(&id) {
        return false;
    }
    let ghost k0 = choose|k: nat| k >= 1 && #[trigger] climb_end(m, *f, id, k);
    let mut cursor = id;
    let ghost mut steps: nat = 0;
    loop
        invariant
            m == h@,
            f.inherits@.contains(id),
            k0 >= 1,
            climb_end(m, *f, id, k0),
            steps < k0,
            ancestor_at(m, id, steps) == Some(cursor),
            passes_through(m, *f, id, steps + 1),
        decreases k0 - steps,
    {
        proof {
            lemma_ancestor_step(m, id, steps);
        }
        let ghost next: nat = steps + 1;
        let p = match h.parent(cursor) {
            Some(p) => p,
            None => {
                proof {
                    assert forall|k: nat| k >= 1 implies !#[trigger] changed_above(m, *f, id, k) by {
                        if k > next {
                            assert(ancestor_at(m, id, next) is None);
                        }
                    }
                }
                return false;
            },
        };
        assert(ancestor_at(m, id, next) == Some(p));
        if !f.has_both_transforms(p) || !f.inherits.contains(&p) || f.changed.contains(&p) {
            if f.has_both_transforms(p) && f.changed.contains(&p) {
                assert(changed_above(m, *f, id, next));
                return true;
            }
            proof {
                assert forall|k: nat| k >= 1 implies !#[trigger] changed_above(m, *f, id, k) by {
                    if k > next {
                        assert(ancestor_at(m, id, next) == Some(p));
                    }
                }
            }
            return false;
        }
        proof {
            assert forall|j: nat| 1 <= j < next + 1 implies (#[trigger] ancestor_at(m, id, j) matches Some(a)
                && f.has_both(a) && !f.changed@.contains(a) && f.inherits@.contains(a)) by {
                if j < next {
                    assert(passes_through(m, *f, id, next));
                }
            }
            assert forall|j: nat| 1 <= j < next + 1 implies (#[trigger] ancestor_at(m, id, j) matches Some(a)
                && f.has_both(a) && f.inherits@.contains(a)) by {
                assert(passes_through(m, *f, id, next + 1));
            }
            lemma_climb_bound(m, *f, id, k0, next);
            steps = next;
        }
        cursor = p;
    }
}

/// Every entity from one step up to `k - 1` steps up from `id` has both
/// transforms and inherits from its own parent.
pub open spec fn climbs(m: HierarchyModel, f: TransformFlags, id: u64, k: nat) -> bool {
    forall|j: nat|
        1 <= j < k ==> (#[trigger] ancestor_at(m, id, j) matches Some(a) && f.has_both(a)
            && f.inherits@.contains(a))
}

/// The walk up from an inheriting `id` reaches the entity `k` steps up,
/// which has both transforms and whose transform changed.
pub open spec fn changed_reached(m: HierarchyModel, f: TransformFlags, id: u64, k: nat) -> bool {
    &&& f.inherits@.contains(id)
    &&& ancestor_at(m, id, k) matches Some(a) && f.has_both(a) && f.changed@.contains(a)
    &&& climbs(m, f, id, k)
}

/// `k` steps up from `id` lies the highest changed ancestor that the walk
/// up from `id` reaches.
pub open spec fn highest_reached(m: HierarchyModel, f: TransformFlags, id: u64, k: nat) -> bool {
    &&& k >= 1
    &&& changed_reached(m, f, id, k)
    &&& forall|k2: nat| k2 > k ==> !#[trigger] changed_reached(m, f, id, k2)
}

/// The entity whose update covers `id`: the highest changed ancestor that
/// the walk up from `id` reaches, or `id` itself when there is none.
pub open spec fn update_source(m: HierarchyModel, f: TransformFlags, id: u64) -> u64 {
    if exists|k: nat| #[trigger] highest_reached(m, f, id, k) {
        let k = choose|k: nat| #[trigger] highest_reached(m, f, id, k);
        ancestor_at(m, id, k)->Some_0
    } else {
        id
    }
}

/// Computes the entity whose update covers `id`. The
/// walk starts only if `id` inherits, stops before an ancestor without both
/// transforms, and stops after one that does not inherit; it must stop.
pub fn highest_changed_ancestor(h: &HierarchyBundle, f: &TransformFlags, id: u64) -> (r: u64)
    requires
        h.wf(),
        climb_stops(h@, *f, id),
    ensures
        r == update_source(h@, *f, id),
{
    let ghost m = h@;
    if !f.inherits.contains(&id) {
        return id;
    }
    let ghost k0 = choose|k: nat| k >= 1 && #[trigger] climb_end(m, *f, id, k);
    let mut cursor = id;
    let mut best = id;
    let ghost mut steps: nat = 0;
    let ghost mut best_k: nat = 0;
    loop
        invariant_except_break
            climbs(m, *f, id, steps + 1),
            steps < k0,
            best_k <= steps,
            forall|k: nat| best_k < k <= steps ==> !#[trigger] changed_reached(m, *f, id, k),
        invariant
            m == h@,
            f.inherits@.contains(id),
            k0 >= 1,
            climb_end(m, *f, id, k0),
            ancestor_at(m, id, steps) == Some(cursor),
            best_k == 0 ==> best == id,
            best_k >= 1 ==> changed_reached(m, *f, id, best_k) && ancestor_at(m, id, best_k) == Some(best),
        ensures
            best_k == 0 ==> best == id,
            best_k >= 1 ==> changed_reached(m, *f, id, best_k) && ancestor_at(m, id, best_k) == Some(best),
            forall|k: nat| k > best_k ==> !#[trigger] changed_reached(m, *f, id, k),
        decreases k0 - steps,
    {
        proof {
            lemma_ancestor_step(m, id, steps);
        }
        let ghost next: nat = steps + 1;
        let p = match h.parent(cursor) {
            Some(p) => p,
            None => {
                proof {
                    assert forall|k: nat| k > best_k implies !#[trigger] changed_reached(m, *f, id, k) by {
                        if k > next {
                            assert(ancestor_at(m, id, next) is None);
                        }
                    }
                }
                break;
            },
        };
        assert(ancestor_at(m, id, next) == Some(p));
        if !f.has_both_transforms(p) {
            proof {
                assert forall|k: nat| k > best_k implies !#[trigger] changed_reached(m, *f, id, k) by {
                    if k > next {
                        assert(ancestor_at(m, id, next) == Some(p));
                    }
                }
            }
            break;
        }
        if f.changed.contains(&p) {
            best = p;
            proof {
                best_k = next;
            }
        }
        if !f.inherits.contains(&p) {
            proof {
                assert forall|k: nat| k > best_k implies !#[trigger] changed_reached(m, *f, id, k) by {
                    if k > next {
                        assert(ancestor_at(m, id, next) == Some(p));
                    }
                }
            }
            break;
        }
        proof {
            assert forall|j: nat| 1 <= j < next + 1 implies (#[trigger] ancestor_at(m, id, j) matches Some(a)
                && f.has_both(a) && f.inherits@.contains(a)) by {
                if j < next {
                    assert(climbs(m, *f, id, next));
                }
            }
            lemma_climb_bound(m, *f, id, k0, next);
            steps = next;
        }
        cursor = p;
    }
    proof {
        if best_k >= 1 {
            assert(highest_reached(m, *f, id, best_k));
            let k = choose|k: nat| highest_reached(m, *f, id, k);
            assert(k == best_k) by {
                if k < best_k {
                    assert(changed_reached(m, *f, id, best_k));
                } else if k > best_k {
                    assert(changed_reached(m, *f, id, k));
                }
            }
        }
    }
    best
}

/// Some occurrence of `x` in `s` comes before every occurrence of `y`.
pub open spec fn occurs_first(s: Seq<u64>, x: u64, y: u64) -> bool {
    exists|i: int| 0 <= i < s.len() && s[i] == x && forall|j: int| 0 <= j < s.len() && s[j] == y ==> i < j
}

/// `x` starts an update of its own when its transform changed: as a parent
/// that is no child, or as a child that no change from above reaches.
pub open spec fn starts_update(m: HierarchyModel, f: TransformFlags, x: u64) -> bool {
    ||| m.lists.contains_key(x) && !m.parent.contains_key(x)
    ||| m.parent.contains_key(x) && !inherits_change(m, f, x)
}

/// The entities among `candidates` (those whose transform changed and that
/// have a global transform) that start an update of their own, each once,
/// in the order they first come among the candidates. The walk up from
/// every candidate must stop.
pub fn hierarchy_update_roots(h: &HierarchyBundle, f: &TransformFlags, candidates: &Vec<u64>) -> (r: Vec<u64>)
    requires
        h.wf(),
        forall|i: int| 0 <= i < candidates@.len() ==> climb_stops(h@, *f, #[trigger] candidates@[i]),
    ensures
        r@.no_duplicates(),
        forall|x: u64| #[trigger] r@.contains(x) <==> candidates@.contains(x) && starts_update(h@, *f, x),
        forall|a: int, b: int| 0 <= a < b < r@.len() ==> #[trigger] occurs_first(candidates@, r@[a], r@[b]),
{
    let ghost m = h@;
    let mut out: Vec<u64> = Vec::new();
    let mut seen: HashSet<u64> = HashSet::new();
    let mut i: usize = 0;
    while i < candidates.len()
        invariant
            h.wf(),
            m == h@,
            i <= candidates@.len(),
            forall|i: int| 0 <= i < candidates@.len() ==> climb_stops(h@, *f, #[trigger] candidates@[i]),
            out@.no_duplicates(),
            forall|x: u64| #[trigger] seen@.contains(x) <==> out@.contains(x),
            forall|x: u64| #[trigger] out@.contains(x) <==> candidates@.take(i as int).contains(x) && starts_update(m, *f, x),
            forall|a: int, b: int| 0 <= a < b < out@.len() ==> #[trigger] occurs_first(candidates@, out@[a], out@[b]),
        decreases candidates@.len() - i,
    {
        let x = candidates[i];
        assert(climb_stops(m, *f, candidates@[i as int]));
        let keep = if h.is_child(x) {
            !ancestor_changed(h, f, x)
        } else {
            h.is_parent(x)
        };
        assert(keep == starts_update(m, *f, x));
        let ghost before = candidates@.take(i as int);
        assert(candidates@.take(i + 1) =~= before.push(x));
        let ghost out0 = out@;
        if keep && !seen.contains(&x) {
            out.push(x);
            seen.insert(x);
            proof {
                let n = out0.len() as int;
                assert(!before.contains(x));
                assert forall|j: int| 0 <= j < candidates@.len() && candidates@[j] == x implies j >= i by {
                    if j < i {
                        assert(before[j] == x);
                    }
                }
                assert forall|a: int, b: int| 0 <= a < b < out@.len() implies #[trigger] occurs_first(
                    candidates@,
                    out@[a],
                    out@[b],
                ) by {
                    assert(out@[a] == out0[a]);
                    if b < n {
                        assert(out@[b] == out0[b]);
                        assert(occurs_first(candidates@, out0[a], out0[b]));
                    } else {
                        assert(out0.contains(out0[a]));
                        let i2 = choose|i2: int| 0 <= i2 < before.len() && before[i2] == out0[a];
                        assert(candidates@[i2] == out@[a]);
                        assert(out@[b] == x);
                    }
                }
            }
        }
        i = i + 1;
    }
    assert(candidates@.take(i as int) =~= candidates@);
    out
}

/// The update that covers candidate `c` is started by `x`: `c` is a parent
/// and no child and `x` is `c`, or `c` is a child and `x` is the entity
/// whose update covers it.
pub open spec fn covers(m: HierarchyModel, f: TransformFlags, c: u64, x: u64) -> bool {
    ||| m.lists.contains_key(c) && !m.parent.contains_key(c) && x == c
    ||| m.parent.contains_key(c) && update_source(m, f, c) == x
}

/// Some candidate covered by `x` comes before every candidate covered by
/// `y`.
pub open spec fn covers_first(m: HierarchyModel, f: TransformFlags, s: Seq<u64>, x: u64, y: u64) -> bool {
    exists|i: int|
        0 <= i < s.len() && covers(m, f, s[i], x) && forall|j: int| 0 <= j < s.len() && covers(m, f, s[j], y) ==> i < j
}

/// The entities whose updates cover the changed ones among `candidates`,
/// each once, in the order the candidates they cover first come: every
/// candidate that is a parent and no child, and for every candidate that is
/// a child the entity whose update covers it. The walk up from every
/// candidate must stop.
pub fn modified_update_roots(h: &HierarchyBundle, f: &TransformFlags, candidates: &Vec<u64>) -> (r: Vec<u64>)
    requires
        h.wf(),
        forall|i: int| 0 <= i < candidates@.len() ==> climb_stops(h@, *f, #[trigger] candidates@[i]),
    ensures
        r@.no_duplicates(),
        forall|x: u64| #[trigger] r@.contains(x) <==> exists|c: u64| #[trigger] candidates@.contains(c) && covers(h@, *f, c, x),
        forall|a: int, b: int| 0 <= a < b < r@.len() ==> #[trigger] covers_first(h@, *f, candidates@, r@[a], r@[b]),
{
    let ghost m = h@;
    let mut out: Vec<u64> = Vec::new();
    let mut seen: HashSet<u64> = HashSet::new();
    let mut i: usize = 0;
    while i < candidates.len()
        invariant
            h.wf(),
            m == h@,
            i <= candidates@.len(),
            forall|i: int| 0 <= i < candidates@.len() ==> climb_stops(h@, *f, #[trigger] candidates@[i]),
            out@.no_duplicates(),
            forall|x: u64| #[trigger] seen@.contains(x) <==> out@.contains(x),
            forall|x: u64| #[trigger] out@.contains(x) <==> exists|c: u64| #[trigger] candidates@.take(i as int).contains(c) && covers(m, *f, c, x),
            forall|a: int, b: int| 0 <= a < b < out@.len() ==> #[trigger] covers_first(m, *f, candidates@, out@[a], out@[b]),
        decreases candidates@.len() - i,
    {
        let x = candidates[i];
        assert(climb_stops(m, *f, candidates@[i as int]));
        let ghost before = candidates@.take(i as int);
        assert(candidates@.take(i + 1) =~= before.push(x));
        let target = if h.is_child(x) {
            Some(highest_changed_ancestor(h, f, x))
        } else if h.is_parent(x) {
            Some(x)
        } else {
            None
        };
        assert(forall|y: u64| covers(m, *f, x, y) <==> target == Some(y));
        let ghost out0 = out@;
        match target {
            Some(t) => {
                if !seen.contains(&t) {
                    out.push(t);
                    seen.insert(t);
                    proof {
                        let n = out0.len() as int;
                        assert forall|j: int| 0 <= j < candidates@.len() && covers(m, *f, candidates@[j], t) implies j >= i by {
                            if j < i {
                                assert(before[j] == candidates@[j]);
                                assert(before.contains(candidates@[j]));
                            }
                        }
                        assert forall|a: int, b: int| 0 <= a < b < out@.len() implies #[trigger] covers_first(
                            m,
                            *f,
                            candidates@,
                            out@[a],
                            out@[b],
                        ) by {
                            assert(out@[a] == out0[a]);
                            if b < n {
                                assert(out@[b] == out0[b]);
                                assert(covers_first(m, *f, candidates@, out0[a], out0[b]));
                            } else {
                                assert(out0.contains(out0[a]));
                                let c = choose|c: u64| #[trigger] before.contains(c) && covers(m, *f, c, out0[a]);
                                let i2 = choose|i2: int| 0 <= i2 < before.len() && before[i2] == c;
                                assert(candidates@[i2] == c);
                                assert(out@[b] == t);
                            }
                        }
                    }
                }
            },
            None => {},
        }
        proof {
            let after = before.push(x);
            assert(forall|y: u64| out@.contains(y) ==> out0.contains(y) || target == Some(y));
            assert(forall|y: u64| out0.contains(y) ==> out@.contains(y));
            assert(target is Some ==> out@.contains(target->Some_0));
            assert forall|y: u64| #[trigger] out@.contains(y) <==> exists|c: u64| #[trigger] after.contains(c) && covers(m, *f, c, y) by {
                if exists|c: u64| #[trigger] after.contains(c) && covers(m, *f, c, y) {
                    let c = choose|c: u64| #[trigger] after.contains(c) && covers(m, *f, c, y);
                    if c != x {
                        assert(before.contains(c));
                    }
                }
                if out0.contains(y) {
                    let c = choose|c: u64| #[trigger] before.contains(c) && covers(m, *f, c, y);
                    assert(after.contains(c));
                }
                if target == Some(y) {
                    assert(after.contains(x));
                }
            }
        }
        i = i + 1;
    }
    assert(candidates@.take(i as int) =~= candidates@);
    out
}

/// Where an updated root takes its parent's global transform from: its
/// parent, when it is a child that inherits and the parent has a global
/// transform; otherwise nowhere, and the root starts from the identity.
pub fn root_source(h: &HierarchyBundle, f: &TransformFlags, root: u64) -> (r: Option<u64>)
    ensures
        r == (if h@.parent.contains_key(root) && f.inherits@.contains(root) && f.has_global@.contains(
            h@.parent[root],
        ) {
            Some(h@.parent[root])
        } else {
            None
        }),
{
    match h.parent(root) {
        Some(p) => {
            if f.inherits.contains(&root) && f.has_global.contains(&p) {
                Some(p)
            } else {
                None
            }
        },
        None => None,
    }
}

/// `d` and every entity above it, up to but not including the one `k`
/// steps up, has a local transform and inherits from its parent.
pub open spec fn flows_down(m: HierarchyModel, f: TransformFlags, d: u64, k: nat) -> bool {
    forall|j: nat|
        j < k ==> (#[trigger] ancestor_at(m, d, j) matches Some(a) && f.has_transform@.contains(a)
            && f.inherits@.contains(a))
}

/// An update of `root` flows down to `d`: `d` lies below `root`, and it and
/// every entity between them has a local transform and inherits.
pub open spec fn updated_below(m: HierarchyModel, f: TransformFlags, root: u64, d: u64) -> bool {
    exists|k: nat| k >= 1 && #[trigger] reaches(m, d, k, root) && flows_down(m, f, d, k)
}

/// An update flows down to a child exactly when the child has a local
/// transform, inherits, and its parent is the root or is reached itself.
proof fn lemma_updated_step(m: HierarchyModel, f: TransformFlags, root: u64, d: u64)
    requires
        m.parent.contains_key(d),
    ensures
        updated_below(m, f, root, d) <==> f.has_transform@.contains(d) && f.inherits@.contains(d) && (
        m.parent[d] == root || updated_below(m, f, root, m.parent[d])),
{
    let p = m.parent[d];
    assert forall|j: nat| #[trigger] ancestor_at(m, d, j + 1) == ancestor_at(m, p, j) by {}
    assert(ancestor_at(m, d, 0) == Some(d));
    if updated_below(m, f, root, d) {
        let k = choose|k: nat| k >= 1 && #[trigger] reaches(m, d, k, root) && flows_down(m, f, d, k);
        assert(ancestor_at(m, d, 0) matches Some(a) && f.has_transform@.contains(a) && f.inherits@.contains(a));
        if k >= 2 {
            let k1 = (k - 1) as nat;
            assert(ancestor_at(m, d, k1 + 1) == ancestor_at(m, p, k1));
            assert forall|j: nat| j < k1 implies (#[trigger] ancestor_at(m, p, j) matches Some(a)
                && f.has_transform@.contains(a) && f.inherits@.contains(a)) by {
                assert(ancestor_at(m, d, j + 1) == ancestor_at(m, p, j));
            }
            assert(reaches(m, p, k1, root));
        } else {
            assert(ancestor_at(m, d, 0 + 1) == ancestor_at(m, p, 0));
        }
    }
    if f.has_transform@.contains(d) && f.inherits@.contains(d) {
        if p == root {
            assert(ancestor_at(m, d, 0 + 1) == ancestor_at(m, p, 0));
            assert(reaches(m, d, 1, root));
            assert(flows_down(m, f, d, 1));
        } else if updated_below(m, f, root, p) {
            let k1 = choose|k: nat| k >= 1 && #[trigger] reaches(m, p, k, root) && flows_down(m, f, p, k);
            let k = k1 + 1;
            assert(ancestor_at(m, d, k1 + 1) == ancestor_at(m, p, k1));
            assert forall|j: nat| j < k implies (#[trigger] ancestor_at(m, d, j) matches Some(a)
                && f.has_transform@.contains(a) && f.inherits@.contains(a)) by {
                if j > 0 {
                    let j1 = (j - 1) as nat;
                    assert(ancestor_at(m, d, j1 + 1) == ancestor_at(m, p, j1));
                    assert(ancestor_at(m, p, j1) matches Some(a) && f.has_transform@.contains(a)
                        && f.inherits@.contains(a));
                }
            }
            assert(reaches(m, d, k, root));
        }
    }
}

/// The entities below `root` that an update of `root` flows down to, each
/// once, in depth-first order: every one after its parent unless its parent
/// is `root`, siblings in sibling order, and what lies below an entity right
/// after it. `root` must not lie below itself.
pub fn propagation_order(h: &HierarchyBundle, f: &TransformFlags, root: u64) -> (r: Vec<u64>)
    requires
        h.wf(),
        !is_descendant(h@, root, root),
    ensures
        r@.no_duplicates(),
        forall|d: u64| #[trigger] r@.contains(d) <==> updated_below(h@, *f, root, d),
        forall|j: int|
            0 <= j < r@.len() ==> h@.parent.contains_key(#[trigger] r@[j]) && (h@.parent[r@[j]] == root
                || exists|i: int| 0 <= i < j && r@[i] == h@.parent[r@[j]]),
        siblings_in_order(h@, r@),
        subtrees_contiguous(h@, r@),
{
    let ghost m = h@;
    let all = h.descendants(root);
    let mut out: Vec<u64> = Vec::new();
    let mut seen: HashSet<u64> = HashSet::new();
    let mut i: usize = 0;
    let ghost mut pos: Seq<int> = Seq::empty();
    while i < all.len()
        invariant
            m == h@,
            i <= all@.len(),
            all@.no_duplicates(),
            siblings_in_order(m, all@),
            subtrees_contiguous(m, all@),
            pos.len() == out@.len(),
            forall|t: int| 0 <= t < pos.len() ==> 0 <= #[trigger] pos[t] < i && all@[pos[t]] == out@[t],
            forall|t1: int, t2: int| 0 <= t1 < t2 < pos.len() ==> #[trigger] pos[t1] < #[trigger] pos[t2],
            forall|d: u64| all@.contains(d) <==> is_descendant(m, root, d),
            forall|j: int|
                0 <= j < all@.len() ==> m.parent.contains_key(#[trigger] all@[j]) && (m.parent[all@[j]]
                    == root || exists|i: int| 0 <= i < j && all@[i] == m.parent[all@[j]]),
            out@.no_duplicates(),
            forall|x: u64| #[trigger] seen@.contains(x) <==> out@.contains(x),
            forall|x: u64| #[trigger] out@.contains(x) <==> all@.take(i as int).contains(x) && updated_below(m, *f, root, x),
            forall|j: int|
                0 <= j < out@.len() ==> m.parent.contains_key(#[trigger] out@[j]) && (m.parent[out@[j]] == root
                    || exists|i: int| 0 <= i < j && out@[i] == m.parent[out@[j]]),
        decreases all@.len() - i,
    {
        let d = all[i];
        let ghost before = all@.take(i as int);
        assert(all@.take(i + 1) =~= before.push(d));
        assert(m.parent.contains_key(all@[i as int]));
        let p = match h.parent(d) {
            Some(p) => p,
            None => {
                assert(false);
                return out;
            },
        };
        proof {
            lemma_updated_step(m, *f, root, d);
            if p != root {
                let i2 = choose|i2: int| 0 <= i2 < i && all@[i2] == m.parent[all@[i as int]];
                assert(before[i2] == p);
                assert(before.contains(p));
            }
            if before.contains(d) {
                let i3 = choose|i3: int| 0 <= i3 < before.len() && before[i3] == d;
                assert(all@[i3] == all@[i as int]);
            }
        }
        let ghost out0 = out@;
        if f.has_transform.contains(&d) && f.inherits.contains(&d) && (p == root || seen.contains(&p)) {
            proof {
                if p != root {
                    assert(out0.contains(p));
                }
            }
            out.push(d);
            seen.insert(d);
            proof {
                pos = pos.push(i as int);
                assert forall|j: int| 0 <= j < out@.len() implies m.parent.contains_key(#[trigger] out@[j]) && (
                m.parent[out@[j]] == root || exists|i: int| 0 <= i < j && out@[i] == m.parent[out@[j]]) by {
                    if j < out0.len() {
                        assert(out@[j] == out0[j]);
                        if m.parent[out0[j]] != root {
                            let i4 = choose|i4: int| 0 <= i4 < j && out0[i4] == m.parent[out0[j]];
                            assert(out@[i4] == out0[i4]);
                        }
                    } else if p != root {
                        let i5 = choose|i5: int| 0 <= i5 < out0.len() && out0[i5] == p;
                        assert(out@[i5] == out0[i5]);
                    }
                }
            }
        }
        i = i + 1;
    }
    proof {
        assert(all@.take(i as int) =~= all@);
        assert forall|d: u64| updated_below(m, *f, root, d) implies out@.contains(d) by {
            let k = choose|k: nat| k >= 1 && #[trigger] reaches(m, d, k, root) && flows_down(m, *f, d, k);
            assert(is_descendant(m, root, d));
        }
        assert forall|a: int, b: int|
            0 <= a < out@.len() && 0 <= b < out@.len() && #[trigger] sibling_before(m, out@[a], out@[b]) implies a
            < b by {
            assert(all@[pos[a]] == out@[a] && all@[pos[b]] == out@[b]);
            if b < a {
                assert(pos[b] < pos[a]);
            }
        }
        assert forall|a: int, b: int, c: int|
            #![trigger is_descendant(m, out@[a], out@[c]), out@[b]]
            0 <= a < b < c < out@.len() && is_descendant(m, out@[a], out@[c]) implies is_descendant(m, out@[a], out@[b]) by {
            assert(pos[a] < pos[b] && pos[b] < pos[c]);
            assert(all@[pos[a]] == out@[a] && all@[pos[b]] == out@[b] && all@[pos[c]] == out@[c]);
            assert(is_descendant(m, all@[pos[a]], all@[pos[c]]));
        }
    }
    out
}

/// An update that flows from `r` down to `a`, and from `a` on down to `d`,
/// flows from `r` down to `d`, provided `a` itself has a local transform
/// and inherits.
proof fn lemma_updated_compose(m: HierarchyModel, f: TransformFlags, r: u64, a: u64, d: u64)
    requires
        updated_below(m, f, r, a),
        updated_below(m, f, a, d),
        f.has_transform@.contains(a),
        f.inherits@.contains(a),
    ensures
        updated_below(m, f, r, d),
{
    let k1 = choose|k: nat| k >= 1 && #[trigger] reaches(m, d, k, a) && flows_down(m, f, d, k);
    let k2 = choose|k: nat| k >= 1 && #[trigger] reaches(m, a, k, r) && flows_down(m, f, a, k);
    lemma_ancestor_compose(m, d, k1, k2);
    assert forall|j: nat| j < k1 + k2 implies (#[trigger] ancestor_at(m, d, j) matches Some(b)
        && f.has_transform@.contains(b) && f.inherits@.contains(b)) by {
        if j >= k1 {
            let j2 = (j - k1) as nat;
            lemma_ancestor_compose(m, d, k1, j2);
            assert(ancestor_at(m, d, k1 + j2) == ancestor_at(m, a, j2));
            assert(ancestor_at(m, a, j2) matches Some(b) && f.has_transform@.contains(b) && f.inherits@.contains(b));
        }
    }
    assert(reaches(m, d, k1 + k2, r));
}

/// The induction behind `lemma_changes_covered`, on how far the chain up
/// from `x` goes.
proof fn lemma_covered_within(m: HierarchyModel, f: TransformFlags, x: u64, bound: nat)
    requires
        model_wf(m),
        ancestor_at(m, x, bound) is None,
        f.changed@.contains(x),
        f.has_both(x),
        m.lists.contains_key(x) || m.parent.contains_key(x),
    ensures
        exists|r: u64| #[trigger] starts_update(m, f, r) && f.changed@.contains(r) && f.has_both(r)
            && (r == x || updated_below(m, f, r, x)),
    decreases bound,
{
    if starts_update(m, f, x) {
        return;
    }
    let k = choose|k: nat| k >= 1 && #[trigger] changed_above(m, f, x, k);
    let a = ancestor_at(m, x, k)->Some_0;
    // `a` lies above `x`, so it is a parent.
    lemma_ancestor_step(m, x, (k - 1) as nat);
    let below = ancestor_at(m, x, (k - 1) as nat)->Some_0;
    assert(m.parent.contains_key(below) && m.parent[below] == a);
    assert(m.lists.contains_key(a));
    // The update of `a` flows down to `x`.
    assert forall|j: nat| j < k implies (#[trigger] ancestor_at(m, x, j) matches Some(b)
        && f.has_transform@.contains(b) && f.inherits@.contains(b)) by {
        if j == 0 {
            assert(ancestor_at(m, x, 0) == Some(x));
        }
    }
    assert(reaches(m, x, k, a));
    assert(updated_below(m, f, a, x));
    // The chain up from `a` is shorter.
    if k >= bound {
        lemma_ancestor_none_stays(m, x, bound, k);
    }
    let rest = (bound - k) as nat;
    lemma_ancestor_compose(m, x, k, rest);
    lemma_covered_within(m, f, a, rest);
    let r = choose|r: u64| #[trigger] starts_update(m, f, r) && f.changed@.contains(r) && f.has_both(r)
        && (r == a || updated_below(m, f, r, a));
    if r != a {
        assert(f.inherits@.contains(a)) by {
            let k2 = choose|k2: nat| k2 >= 1 && #[trigger] reaches(m, a, k2, r) && flows_down(m, f, a, k2);
            assert(ancestor_at(m, a, 0) == Some(a));
        }
        lemma_updated_compose(m, f, r, a, x);
    }
    assert(starts_update(m, f, r));
}

/// No changed transform is missed: an entity in a hierarchy whose local
/// transform changed, and that has both transforms, either starts an update
/// of its own, or the update of a changed entity above it that starts one
/// flows down to it.
pub proof fn lemma_changes_covered(m: HierarchyModel, f: TransformFlags, x: u64)
    requires
        model_wf(m),
        chain_ends(m, x),
        f.changed@.contains(x),
        f.has_both(x),
        m.lists.contains_key(x) || m.parent.contains_key(x),
    ensures
        exists|r: u64| #[trigger] starts_update(m, f, r) && f.changed@.contains(r) && f.has_both(r)
            && (r == x || updated_below(m, f, r, x)),
{
    let bound = choose|k: nat| #[trigger] ancestor_at(m, x, k) is None;
    lemma_covered_within(m, f, x, bound);
}

/// The entities an update reaches next when it moves down one level at a
/// time: the children of the entities of `level` that have both
/// transforms, each once, taken entity by entity and in sibling order.
pub fn next_update_level(h: &HierarchyBundle, f: &TransformFlags, level: &Vec<u64>) -> (r: Vec<u64>)
    requires
        h.wf(),
    ensures
        r@.no_duplicates(),
        forall|x: u64| #[trigger] r@.contains(x) <==> h@.parent.contains_key(x) && level@.contains(h@.parent[x])
            && f.has_both(h@.parent[x]),
{
    let ghost m = h@;
    proof {
        h.lemma_wf_model();
    }
    let mut out: Vec<u64> = Vec::new();
    let mut seen: HashSet<u64> = HashSet::new();
    let mut i: usize = 0;
    while i < level.len()
        invariant
            h.wf(),
            m == h@,
            model_wf(m),
            i <= level@.len(),
            out@.no_duplicates(),
            forall|x: u64| #[trigger] seen@.contains(x) <==> out@.contains(x),
            forall|x: u64| #[trigger] out@.contains(x) <==> m.parent.contains_key(x) && level@.take(i as int).contains(
                m.parent[x],
            ) && f.has_both(m.parent[x]),
        decreases level@.len() - i,
    {
        let e = level[i];
        let ghost before = level@.take(i as int);
        assert(level@.take(i + 1) =~= before.push(e));
        if f.has_both_transforms(e) {
            let cs = h.children(e);
            let mut k: usize = 0;
            while k < cs.len()
                invariant
                    m == h@,
                    model_wf(m),
                    cs@ == children_of(m, e),
                    f.has_both(e),
                    k <= cs@.len(),
                    out@.no_duplicates(),
                    forall|x: u64| #[trigger] seen@.contains(x) <==> out@.contains(x),
                    forall|x: u64| #[trigger] out@.contains(x) <==> (m.parent.contains_key(x) && before.contains(m.parent[x])
                        && f.has_both(m.parent[x])) || cs@.take(k as int).contains(x),
                decreases cs@.len() - k,
            {
                let c = cs[k];
                let ghost out0 = out@;
                assert(cs@.take(k + 1) =~= cs@.take(k as int).push(c));
                if !seen.contains(&c) {
                    out.push(c);
                    seen.insert(c);
                }
                k = k + 1;
            }
            proof {
                assert(cs@.take(cs@.len() as int) =~= cs@);
                assert forall|x: u64| #[trigger] out@.contains(x) <==> m.parent.contains_key(x) && level@.take(i + 1).contains(
                    m.parent[x],
                ) && f.has_both(m.parent[x]) by {
                    if cs@.contains(x) {
                        assert(m.lists.contains_key(e));
                        assert(m.lists[e].contains(x));
                    }
                    if m.parent.contains_key(x) && m.parent[x] == e {
                        assert(m.lists[e].contains(x));
                    }
                    if m.parent.contains_key(x) {
                        assert(before.push(e).contains(m.parent[x]) == (m.parent[x] == e || before.contains(
                            m.parent[x],
                        )));
                    }
                }
            }
        } else {
            proof {
                assert forall|x: u64| #[trigger] out@.contains(x) <==> m.parent.contains_key(x) && level@.take(i + 1).contains(
                    m.parent[x],
                ) && f.has_both(m.parent[x]) by {
                    if m.parent.contains_key(x) {
                        assert(before.push(e).contains(m.parent[x]) == (m.parent[x] == e || before.contains(
                            m.parent[x],
                        )));
                    }
                }
            }
        }
        i = i + 1;
    }
    proof {
        assert(level@.take(i as int) =~= level@);
    }
    out
}

/// The entities an update started at `roots` reaches `k` levels down: the
/// roots, then the children of the entities of the level above that have
/// both transforms.
pub open spec fn update_level(m: HierarchyModel, f: TransformFlags, roots: Seq<u64>, k: nat) -> Set<u64>
    decreases k,
{
    if k == 0 {
        roots.to_set()
    } else {
        let above = update_level(m, f, roots, (k - 1) as nat);
        Set::new(|x: u64| m.parent.contains_key(x) && above.contains(m.parent[x]) && f.has_both(m.parent[x]))
    }
}

/// Once a level is empty, so is every level below it.
proof fn lemma_empty_level_stays(m: HierarchyModel, f: TransformFlags, roots: Seq<u64>, a: nat, b: nat)
    requires
        a <= b,
        update_level(m, f, roots, a).is_empty(),
    ensures
        update_level(m, f, roots, b).is_empty(),
    decreases b - a,
{
    if a < b {
        let next = update_level(m, f, roots, a + 1);
        assert(next =~= Set::<u64>::empty()) by {
            assert forall|x: u64| !next.contains(x) by {
                if m.parent.contains_key(x) {
                    assert(!update_level(m, f, roots, a).contains(m.parent[x]));
                }
            }
        }
        lemma_empty_level_stays(m, f, roots, a + 1, b);
    }
}

/// The levels an update started at `roots` moves through, from the roots
/// down to the last level that is not empty, or `None` when the update is
/// still going after a hundred levels below the roots.
pub fn update_levels(h: &HierarchyBundle, f: &TransformFlags, roots: Vec<u64>) -> (r: Option<Vec<Vec<u64>>>)
    requires
        h.wf(),
    ensures
        r is None <==> !update_level(h@, *f, roots@, 100).is_empty(),
        r matches Some(ls) ==> {
            &&& ls@.len() <= 100
            &&& update_level(h@, *f, roots@, ls@.len() as nat).is_empty()
            &&& forall|k: int|
                0 <= k < ls@.len() ==> (#[trigger] ls@[k])@.len() > 0 && forall|y: u64|
                    ls@[k]@.contains(y) <==> update_level(h@, *f, roots@, k as nat).contains(y)
        },
{
    let ghost m = h@;
    let ghost rs = roots@;
    if roots.len() == 0 {
        proof {
            assert(rs.to_set() =~= Set::<u64>::empty());
            lemma_empty_level_stays(m, *f, rs, 0, 100);
        }
        return Some(Vec::new());
    }
    proof {
        assert(!rs.to_set().is_empty()) by {
            assert(rs.to_set().contains(rs[0]));
        }
    }
    let mut levels: Vec<Vec<u64>> = Vec::new();
    let mut current = roots;
    let mut count: usize = 0;
    loop
        invariant
            h.wf(),
            m == h@,
            rs == roots@,
            count < 100,
            levels@.len() == count,
            current@.len() > 0,
            forall|y: u64| current@.contains(y) <==> update_level(m, *f, rs, count as nat).contains(y),
            forall|k: int|
                0 <= k < levels@.len() ==> (#[trigger] levels@[k])@.len() > 0 && forall|y: u64|
                    levels@[k]@.contains(y) <==> update_level(m, *f, rs, k as nat).contains(y),
        decreases 100 - count,
    {
        let next = next_update_level(h, f, &current);
        let ghost below = update_level(m, *f, rs, (count + 1) as nat);
        assert(forall|y: u64| next@.contains(y) <==> below.contains(y));
        let ghost levels0 = levels@;
        let ghost cur = current@;
        levels.push(current);
        assert(levels@ == levels0.push(current));
        assert forall|k: int|
            0 <= k < levels@.len() implies (#[trigger] levels@[k])@.len() > 0 && forall|y: u64|
                levels@[k]@.contains(y) <==> update_level(m, *f, rs, k as nat).contains(y) by {
            if k < count {
                assert(levels@[k] == levels0[k]);
            } else {
                assert(levels@[k]@ == cur);
            }
        }
        if next.len() == 0 {
            proof {
                assert(below =~= Set::<u64>::empty()) by {
                    assert forall|y: u64| !below.contains(y) by {
                        if below.contains(y) {
                            assert(next@.contains(y));
                        }
                    }
                }
                lemma_empty_level_stays(m, *f, rs, (count + 1) as nat, 100);
            }
            assert(levels@.len() == count + 1);
            return Some(levels);
        }
        count = count + 1;
        if count >= 100 {
            proof {
                assert(below.contains(next@[0]));
            }
            return None;
        }
        current = next;
    }
}

/// The identifiers in tags, after the first one.
pub open spec fn tagged_below(r: Seq<(u64, u64, Option<u64>)>) -> Seq<u64> {
    r.skip(1).map_values(|t: (u64, u64, Option<u64>)| t.0)
}

/// The tags an update marks `root` and everything below it with: `root`
/// first, lying no steps below itself, with its parent if it has one; then
/// each entity below `root` in depth-first order, with how many steps below
/// `root` it lies and its parent. `root` must not lie below itself.
pub fn dirty_tags(h: &HierarchyBundle, root: u64) -> (r: Vec<(u64, u64, Option<u64>)>)
    requires
        h.wf(),
        !is_descendant(h@, root, root),
    ensures
        r@.len() >= 1,
        r@[0] == (root, 0u64, if h@.parent.contains_key(root) {
            Some(h@.parent[root])
        } else {
            None
        }),
        forall|j: int|
            1 <= j < r@.len() ==> {
                let (d, k, p) = #[trigger] r@[j];
                &&& h@.parent.contains_key(d)
                &&& p == Some(h@.parent[d])
                &&& ancestor_at(h@, d, k as nat) == Some(root)
            },
        tagged_below(r@).no_duplicates(),
        forall|d: u64| tagged_below(r@).contains(d) <==> is_descendant(h@, root, d),
        forall|j: int|
            0 <= j < tagged_below(r@).len() ==> (h@.parent[#[trigger] tagged_below(r@)[j]] == root || exists|i: int|
                0 <= i < j && tagged_below(r@)[i] == h@.parent[tagged_below(r@)[j]]),
        siblings_in_order(h@, tagged_below(r@)),
        subtrees_contiguous(h@, tagged_below(r@)),
{
    let ghost m = h@;
    let below = h.descendants(root);
    let mut out: Vec<(u64, u64, Option<u64>)> = Vec::new();
    out.push((root, 0, h.parent(root)));
    let mut depth: HashMap<u64, u64> = HashMap::new();
    depth.insert(root, 0);
    let mut i: usize = 0;
    while i < below.len()
        invariant
            m == h@,
            below@.no_duplicates(),
            forall|j: int|
                0 <= j < below@.len() ==> m.parent.contains_key(#[trigger] below@[j]) && (m.parent[below@[j]]
                    == root || exists|i: int| 0 <= i < j && below@[i] == m.parent[below@[j]]),
            i <= below@.len(),
            out@.len() == i + 1,
            out@[0] == (root, 0u64, if m.parent.contains_key(root) {
                Some(m.parent[root])
            } else {
                None
            }),
            forall|j: int| 0 <= j < i ==> (#[trigger] out@[j + 1]).0 == below@[j],
            forall|j: int|
                1 <= j < out@.len() ==> {
                    let (d, k, p) = #[trigger] out@[j];
                    &&& m.parent.contains_key(d)
                    &&& p == Some(m.parent[d])
                    &&& ancestor_at(m, d, k as nat) == Some(root)
                },
            forall|e: u64| #[trigger] depth@.contains_key(e) <==> (e == root || below@.take(i as int).contains(e)),
            forall|e: u64|
                #[trigger] depth@.contains_key(e) ==> depth@[e] <= i && ancestor_at(m, e, depth@[e] as nat) == Some(root),
        decreases below@.len() - i,
    {
        let d = below[i];
        let p = match h.parent(d) {
            Some(p) => p,
            None => {
                assert(false);
                0
            },
        };
        assert(p == root || below@.take(i as int).contains(p)) by {
            if p != root {
                let j = choose|j: int| 0 <= j < i && below@[j] == m.parent[below@[i as int]];
                assert(below@.take(i as int)[j] == p);
            }
        }
        let k = match depth.get(&p) {
            Some(k) => *k,
            None => {
                assert(false);
                0
            },
        };
        assert(ancestor_at(m, d, (k + 1) as nat) == ancestor_at(m, p, k as nat));
        out.push((d, k + 1, Some(p)));
        depth.insert(d, k + 1);
        proof {
            assert(below@.take(i + 1) =~= below@.take(i as int).push(d));
        }
        i = i + 1;
    }
    proof {
        let t = tagged_below(out@);
        assert(t =~= below@) by {
            assert forall|j: int| 0 <= j < t.len() implies t[j] == below@[j] by {
                assert(out@[j + 1].0 == below@[j]);
            }
        }
    }
    out
}

} // verus!

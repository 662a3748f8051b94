//! Bookkeeping for the per-texture instance buffers of the texture
//! renderer: which buffers to create, to grow, to write and to drop each
//! frame.

use std::collections::{HashMap, HashSet};

use vstd::prelude::*;

use crate::handle::HandleInner;

verus! {

broadcast use vstd::std_specs::hash::group_hash_axioms;

/// One thing to do to the instance buffer of a texture.
#[derive(Clone, Copy, Debug, PartialEq, Eq, Structural)]
pub enum BufferAction {
    /// Create a buffer holding the texture's instances; it holds that many.
    Create(HandleInner, u32),
    /// Replace the buffer by a new one holding the texture's instances,
    /// because the old one holds too few.
    Recreate(HandleInner, u32),
    /// Write the texture's instances into its buffer.
    Write(HandleInner),
}

/// The actions for one texture with `len` instances this frame, given the
/// buffer sizes so far.
pub open spec fn step_actions(caps: Map<u32, u32>, id: HandleInner, len: usize) -> Seq<BufferAction> {
    let count = len as u32;
    if count == 0 {
        Seq::empty()
    } else if caps.contains_key(id.0) {
        if count > caps[id.0] {
            seq![BufferAction::Recreate(id, count), BufferAction::Write(id)]
        } else {
            seq![BufferAction::Write(id)]
        }
    } else {
        seq![BufferAction::Create(id, count)]
    }
}

/// The buffer sizes after one texture with `len` instances: a new or
/// replaced buffer holds exactly that many; a buffer written into keeps its
/// size.
pub open spec fn step_caps(caps: Map<u32, u32>, id: HandleInner, len: usize) -> Map<u32, u32> {
    let count = len as u32;
    if count == 0 {
        caps
    } else if caps.contains_key(id.0) {
        if count > caps[id.0] {
            caps.insert(id.0, count)
        } else {
            caps
        }
    } else {
        caps.insert(id.0, count)
    }
}

/// The actions, buffer sizes and drawn textures after the textures
/// `counts`, taken in order.
pub open spec fn plan(caps: Map<u32, u32>, counts: Seq<(HandleInner, usize)>) -> (
    Seq<BufferAction>,
    Map<u32, u32>,
    Set<u32>,
)
    decreases counts.len(),
{
    if counts.len() == 0 {
        (Seq::empty(), caps, Set::empty())
    } else {
        let prev = plan(caps, counts.drop_last());
        let (id, len) = counts.last();
        (
            prev.0 + step_actions(prev.1, id, len),
            step_caps(prev.1, id, len),
            if len as u32 == 0 {
                prev.2
            } else {
                prev.2.insert(id.0)
            },
        )
    }
}

/// The entities drawn with one texture: their positions in the list of
/// entities, in order.
pub struct InstanceGroup {
    pub texture: HandleInner,
    pub members: Vec<usize>,
}

/// `groups` gathers the visible entries of `entries` by texture: one group
/// per texture, in the order the textures first show up, each listing the
/// positions of that texture's visible entries in order.
pub open spec fn groups_visible(entries: Seq<(HandleInner, bool)>, groups: Seq<InstanceGroup>) -> bool {
    &&& forall|a: int, b: int|
        0 <= a < groups.len() && 0 <= b < groups.len() && #[trigger] groups[a].texture == #[trigger] groups[b].texture
            ==> a == b
    &&& forall|g: int| 0 <= g < groups.len() ==> #[trigger] groups[g].members@.len() > 0
    &&& forall|g: int, k: int|
        0 <= g < groups.len() && 0 <= k < groups[g].members@.len() ==> {
            let i = #[trigger] groups[g].members@[k];
            &&& i < entries.len()
            &&& entries[i as int].0 == groups[g].texture
            &&& entries[i as int].1
        }
    &&& forall|g: int, k1: int, k2: int|
        0 <= g < groups.len() && 0 <= k1 < k2 < groups[g].members@.len() ==> #[trigger] groups[g].members@[k1]
            < #[trigger] groups[g].members@[k2]
    &&& forall|a: int, b: int|
        0 <= a < b < groups.len() ==> #[trigger] groups[a].members@[0] < #[trigger] groups[b].members@[0]
    &&& forall|i: int|
        0 <= i < entries.len() && #[trigger] entries[i].1 ==> exists|g: int, k: int|
            0 <= g < groups.len() && 0 <= k < groups[g].members@.len() && #[trigger] groups[g].members@[k] == i
}

/// Gathers the visible entries, each a texture and whether its entity is
/// visible, by texture.
#[verifier::spinoff_prover]
pub fn group_visible(entries: &Vec<(HandleInner, bool)>) -> (r: Vec<InstanceGroup>)
    ensures
        groups_visible(entries@, r@),
{
    let mut groups: Vec<InstanceGroup> = Vec::new();
    let mut i: usize = 0;
    while i < entries.len()
        invariant
            i <= entries@.len(),
            groups_visible(entries@.take(i as int), groups@),
            forall|g: int, k: int|
                0 <= g < groups@.len() && 0 <= k < groups@[g].members@.len() ==> #[trigger] groups@[g].members@[k] < i,
        decreases entries@.len() - i,
    {
        let (texture, visible) = entries[i];
        let ghost e0 = entries@.take(i as int);
        let ghost e1 = entries@.take(i + 1);
        let ghost g0 = groups@;
        proof {
            assert(e1 =~= e0.push((texture, visible)));
        }
        if visible {
            let mut found: Option<usize> = None;
            let mut g: usize = 0;
            while g < groups.len()
                invariant_except_break
                    found is None,
                invariant
                    groups@ == g0,
                    g <= groups@.len(),
                    forall|a: int| 0 <= a < g ==> groups@[a].texture != texture,
                ensures
                    found matches Some(f) ==> f < g0.len() && g0[f as int].texture == texture,
                    found is None ==> forall|a: int| 0 <= a < g0.len() ==> g0[a].texture != texture,
                decreases groups@.len() - g,
            {
                if groups[g].texture.0 == texture.0 {
                    found = Some(g);
                    break;
                }
                g = g + 1;
            }
            match found {
                Some(f) => {
                    let mut group = groups.remove(f);
                    proof {
                        assert(group == g0[f as int]);
                    }
                    let ghost m0 = group.members@;
                    group.members.push(i);
                    groups.insert(f, group);
                    proof {
                        assert(groups@ =~= g0.update(f as int, group));
                        assert(group.members@ == m0.push(i));
                        assert(m0.len() > 0);
                        assert forall|a: int, b: int|
                            0 <= a < groups@.len() && 0 <= b < groups@.len() && #[trigger] groups@[a].texture
                                == #[trigger] groups@[b].texture implies a == b by {
                            assert(g0[a].texture == groups@[a].texture);
                            assert(g0[b].texture == groups@[b].texture);
                        }
                        assert forall|g2: int, k: int|
                            0 <= g2 < groups@.len() && 0 <= k < groups@[g2].members@.len() implies {
                                let j = #[trigger] groups@[g2].members@[k];
                                &&& j < e1.len()
                                &&& e1[j as int].0 == groups@[g2].texture
                                &&& e1[j as int].1
                            } by {
                            if g2 == f && k == m0.len() {
                                assert(groups@[g2].members@[k] == i);
                            } else {
                                assert(groups@[g2].members@[k] == g0[g2].members@[k]);
                                assert(e1[g0[g2].members@[k] as int] == e0[g0[g2].members@[k] as int]);
                            }
                        }
                        assert forall|g2: int, k1: int, k2: int|
                            0 <= g2 < groups@.len() && 0 <= k1 < k2 < groups@[g2].members@.len() implies #[trigger] groups@[g2].members@[k1]
                                < #[trigger] groups@[g2].members@[k2] by {
                            if g2 == f && k2 == m0.len() {
                                assert(groups@[g2].members@[k1] == g0[g2].members@[k1]);
                            } else {
                                assert(groups@[g2].members@[k1] == g0[g2].members@[k1]);
                                assert(groups@[g2].members@[k2] == g0[g2].members@[k2]);
                            }
                        }
                        assert forall|a: int, b: int| 0 <= a < b < groups@.len() implies #[trigger] groups@[a].members@[0]
                            < #[trigger] groups@[b].members@[0] by {
                            assert(groups@[a].members@[0] == g0[a].members@[0]);
                            assert(groups@[b].members@[0] == g0[b].members@[0]);
                        }
                        assert forall|j: int| 0 <= j < e1.len() && #[trigger] e1[j].1 implies exists|g2: int, k: int|
                            0 <= g2 < groups@.len() && 0 <= k < groups@[g2].members@.len() && #[trigger] groups@[g2].members@[k]
                                == j by {
                            if j == i {
                                assert(groups@[f as int].members@[m0.len() as int] == i);
                            } else {
                                assert(e0[j].1);
                                let (g2, k) = choose|g2: int, k: int|
                                    0 <= g2 < g0.len() && 0 <= k < g0[g2].members@.len() && #[trigger] g0[g2].members@[k] == j;
                                assert(groups@[g2].members@[k] == g0[g2].members@[k]);
                            }
                        }
                        assert forall|g2: int, k: int|
                            0 <= g2 < groups@.len() && 0 <= k < groups@[g2].members@.len() implies #[trigger] groups@[g2].members@[k]
                                < i + 1 by {
                            if !(g2 == f && k == m0.len()) {
                                assert(groups@[g2].members@[k] == g0[g2].members@[k]);
                            }
                        }
                    }
                },
                None => {
                    let mut members: Vec<usize> = Vec::new();
                    members.push(i);
                    let group = InstanceGroup { texture, members };
                    groups.push(group);
                    proof {
                        let n = g0.len() as int;
                        assert(groups@ == g0.push(group));
                        assert(group.members@ == seq![i]);
                        assert forall|a: int, b: int|
                            0 <= a < groups@.len() && 0 <= b < groups@.len() && #[trigger] groups@[a].texture
                                == #[trigger] groups@[b].texture implies a == b by {
                            if a < n {
                                assert(groups@[a] == g0[a]);
                            }
                            if b < n {
                                assert(groups@[b] == g0[b]);
                            }
                        }
                        assert forall|g2: int, k: int|
                            0 <= g2 < groups@.len() && 0 <= k < groups@[g2].members@.len() implies {
                                let j = #[trigger] groups@[g2].members@[k];
                                &&& j < e1.len()
                                &&& e1[j as int].0 == groups@[g2].texture
                                &&& e1[j as int].1
                            } by {
                            if g2 < n {
                                assert(groups@[g2] == g0[g2]);
                                assert(e1[g0[g2].members@[k] as int] == e0[g0[g2].members@[k] as int]);
                            }
                        }
                        assert forall|g2: int, k1: int, k2: int|
                            0 <= g2 < groups@.len() && 0 <= k1 < k2 < groups@[g2].members@.len() implies #[trigger] groups@[g2].members@[k1]
                                < #[trigger] groups@[g2].members@[k2] by {
                            assert(groups@[g2] == g0[g2]);
                        }
                        assert forall|a: int, b: int| 0 <= a < b < groups@.len() implies #[trigger] groups@[a].members@[0]
                            < #[trigger] groups@[b].members@[0] by {
                            assert(groups@[a] == g0[a]);
                            if b < n {
                                assert(groups@[b] == g0[b]);
                            }
                        }
                        assert forall|j: int| 0 <= j < e1.len() && #[trigger] e1[j].1 implies exists|g2: int, k: int|
                            0 <= g2 < groups@.len() && 0 <= k < groups@[g2].members@.len() && #[trigger] groups@[g2].members@[k]
                                == j by {
                            if j == i {
                                assert(groups@[n].members@[0] == i);
                            } else {
                                assert(e0[j].1);
                                let (g2, k) = choose|g2: int, k: int|
                                    0 <= g2 < g0.len() && 0 <= k < g0[g2].members@.len() && #[trigger] g0[g2].members@[k] == j;
                                assert(groups@[g2] == g0[g2]);
                            }
                        }
                        assert forall|g2: int, k: int|
                            0 <= g2 < groups@.len() && 0 <= k < groups@[g2].members@.len() implies #[trigger] groups@[g2].members@[k]
                                < i + 1 by {
                            if g2 < n {
                                assert(groups@[g2] == g0[g2]);
                            }
                        }
                    }
                },
            }
        } else {
            proof {
                assert forall|g2: int, k: int|
                    0 <= g2 < groups@.len() && 0 <= k < groups@[g2].members@.len() implies {
                        let j = #[trigger] groups@[g2].members@[k];
                        &&& j < e1.len()
                        &&& e1[j as int].0 == groups@[g2].texture
                        &&& e1[j as int].1
                    } by {
                    assert(e1[groups@[g2].members@[k] as int] == e0[groups@[g2].members@[k] as int]);
                }
                assert forall|j: int| 0 <= j < e1.len() && #[trigger] e1[j].1 implies exists|g2: int, k: int|
                    0 <= g2 < groups@.len() && 0 <= k < groups@[g2].members@.len() && #[trigger] groups@[g2].members@[k]
                        == j by {
                    assert(e0[j].1);
                }
            }
        }
        i = i + 1;
    }
    proof {
        assert(entries@.take(i as int) =~= entries@);
    }
    groups
}

/// The instance buffer sizes of the textures drawn in the last frame.
pub struct DrawBufferTable {
    capacities: HashMap<u32, u32>,
    should_render: HashSet<u32>,
}

impl DrawBufferTable {
    /// The number of instances each texture's buffer holds.
    pub closed spec fn spec_capacities(&self) -> Map<u32, u32> {
        self.capacities@
    }

    /// The textures drawn this frame.
    pub closed spec fn spec_rendered(&self) -> Set<u32> {
        self.should_render@
    }

    /// A table with no buffers.
    pub fn new() -> (r: Self)
        ensures
            r.spec_capacities() == Map::<u32, u32>::empty(),
            r.spec_rendered() == Set::<u32>::empty(),
    {
        DrawBufferTable { capacities: HashMap::new(), should_render: HashSet::new() }
    }

    /// Whether texture `id` is drawn this frame.
    pub fn is_rendered(&self, id: HandleInner) -> (r: bool)
        ensures
            r == self.spec_rendered().contains(id.0),
    {
        self.should_render.contains(&id.0)
    }

    /// How many instances the buffer of texture `id` holds, if it has one.
    pub fn capacity(&self, id: HandleInner) -> (r: Option<u32>)
        ensures
            r == (if self.spec_capacities().contains_key(id.0) {
                Some(self.spec_capacities()[id.0])
            } else {
                None
            }),
    {
        match self.capacities.get(&id.0) {
            Some(c) => Some(*c),
            None => None,
        }
    }

    /// Plans one frame from the number of instances of each texture, taken
    /// in order (a count is taken modulo 2^32). A texture with no instance
    /// is not drawn. A texture without a buffer gets one holding its
    /// instances; one whose buffer holds too few gets a new buffer, and
    /// then, like one whose buffer is big enough, has its instances
    /// written. Buffers of textures not drawn this frame are dropped.
    pub fn process(&mut self, counts: &Vec<(HandleInner, usize)>) -> (r: Vec<BufferAction>)
        ensures
            r@ == plan(old(self).spec_capacities(), counts@).0,
            final(self).spec_rendered() == plan(old(self).spec_capacities(), counts@).2,
            final(self).spec_capacities() == plan(old(self).spec_capacities(), counts@).1.restrict(
                plan(old(self).spec_capacities(), counts@).2,
            ),
            forall|k: u32|
                #[trigger] final(self).spec_rendered().contains(k) <==> exists|t: int|
                    0 <= t < counts@.len() && #[trigger] counts@[t].0.0 == k && counts@[t].1 as u32 != 0,
            forall|k: u32|
                #[trigger] final(self).spec_capacities().contains_key(k) <==> final(self).spec_rendered().contains(k),
            forall|i: int| 0 <= i < r@.len() ==> action_listed(counts@, #[trigger] r@[i]),
    {
        let ghost caps0 = self.capacities@;
        self.should_render.clear();
        let mut actions: Vec<BufferAction> = Vec::new();
        let mut i: usize = 0;
        proof {
            assert(counts@.take(0) =~= Seq::<(HandleInner, usize)>::empty());
            assert(self.should_render@ =~= Set::<u32>::empty());
        }
        while i < counts.len()
            invariant
                i <= counts@.len(),
                plan(caps0, counts@.take(i as int)) == (actions@, self.capacities@, self.should_render@),
            decreases counts@.len() - i,
        {
            let (id, len) = counts[i];
            let count = (#[verifier::truncate] (len as u32));
            proof {
                let t = counts@.take(i + 1);
                assert(t.drop_last() =~= counts@.take(i as int));
                assert(t.last() == (id, len));
            }
            let ghost caps_before = self.capacities@;
            let ghost acts_before = actions@;
            if count != 0 {
                self.should_render.insert(id.0);
                match self.capacities.get(&id.0) {
                    Some(cap) => {
                        let cap = *cap;
                        if count > cap {
                            actions.push(BufferAction::Recreate(id, count));
                            self.capacities.insert(id.0, count);
                        }
                        actions.push(BufferAction::Write(id));
                    },
                    None => {
                        actions.push(BufferAction::Create(id, count));
                        self.capacities.insert(id.0, count);
                    },
                }
            }
            proof {
                assert(actions@ =~= acts_before + step_actions(caps_before, id, len));
            }
            i = i + 1;
        }
        proof {
            assert(counts@.take(counts@.len() as int) =~= counts@);
        }
        let ghost after = self.capacities@;
        let ghost rendered = self.should_render@;
        proof {
            lemma_plan_rendered(caps0, counts@);
            assert forall|k: u32| #[trigger] rendered.contains(k) implies after.contains_key(k) by {
                assert(plan(caps0, counts@).2.contains(k));
            }
        }
        let mut kept: HashMap<u32, u32> = HashMap::new();
        let mut j: usize = 0;
        while j < counts.len()
            invariant
                j <= counts@.len(),
                after == self.capacities@,
                rendered == self.should_render@,
                plan(caps0, counts@) == (actions@, after, rendered),
                forall|k: u32| #[trigger] rendered.contains(k) ==> after.contains_key(k),
                forall|k: u32| #[trigger] kept@.contains_key(k) ==> rendered.contains(k) && after.contains_key(k)
                    && kept@[k] == after[k],
                forall|t: int|
                    0 <= t < j && rendered.contains(#[trigger] counts@[t].0.0) ==> kept@.contains_key(counts@[t].0.0),
            decreases counts@.len() - j,
        {
            let (id, _len) = counts[j];
            if self.should_render.contains(&id.0) {
                match self.capacities.get(&id.0) {
                    Some(cap) => {
                        kept.insert(id.0, *cap);
                    },
                    None => {},
                }
            }
            j = j + 1;
        }
        proof {
            assert forall|k: u32| #[trigger] rendered.contains(k) implies kept@.contains_key(k) by {
                assert(plan(caps0, counts@).2.contains(k));
                let t = choose|t: int| 0 <= t < counts@.len() && counts@[t].0.0 == k;
                assert(rendered.contains(counts@[t].0.0));
            }
            assert(kept@ =~= after.restrict(rendered));
            lemma_drawn_iff_listed(caps0, counts@);
            lemma_actions_listed(caps0, counts@);
        }
        self.capacities = kept;
        proof {
            assert forall|k: u32| #[trigger] self.should_render@.contains(k) <==> exists|t: int|
                0 <= t < counts@.len() && #[trigger] counts@[t].0.0 == k && counts@[t].1 as u32 != 0 by {
                assert(plan(caps0, counts@).2.contains(k) == rendered.contains(k));
            }
            assert forall|i: int| 0 <= i < actions@.len() implies action_listed(counts@, #[trigger] actions@[i]) by {
                assert(actions@[i] == plan(caps0, counts@).0[i]);
            }
        }
        actions
    }
}

/// Every texture drawn has a buffer and appears among the counts.
proof fn lemma_plan_rendered(caps: Map<u32, u32>, counts: Seq<(HandleInner, usize)>)
    ensures
        forall|k: u32|
            #[trigger] plan(caps, counts).2.contains(k) ==> plan(caps, counts).1.contains_key(k) && exists|t: int|
                0 <= t < counts.len() && counts[t].0.0 == k,
    decreases counts.len(),
{
    if counts.len() > 0 {
        let init = counts.drop_last();
        lemma_plan_rendered(caps, init);
        let prev = plan(caps, init);
        assert forall|k: u32| #[trigger] plan(caps, counts).2.contains(k) implies plan(caps, counts).1.contains_key(k)
            && exists|t: int| 0 <= t < counts.len() && counts[t].0.0 == k by {
            if prev.2.contains(k) {
                let t = choose|t: int| 0 <= t < init.len() && init[t].0.0 == k;
                assert(counts[t] == init[t]);
            } else {
                assert(counts[counts.len() - 1].0.0 == k);
            }
        }
    }
}

/// The action `a` is one that a listed count asks for: a buffer is made
/// for a texture only with a count listed for it, holding that many, and
/// instances are written only for a texture listed with some.
pub open spec fn action_listed(counts: Seq<(HandleInner, usize)>, a: BufferAction) -> bool {
    match a {
        BufferAction::Create(k, c) | BufferAction::Recreate(k, c) => c != 0 && exists|t: int|
            0 <= t < counts.len() && #[trigger] counts[t].0 == k && counts[t].1 as u32 == c,
        BufferAction::Write(k) => exists|t: int|
            0 <= t < counts.len() && #[trigger] counts[t].0 == k && counts[t].1 as u32 != 0,
    }
}

/// Law: every planned action comes from a listed non-zero count: a new
/// buffer holds exactly the instances listed for its texture, and nothing
/// is done for a texture with no instance.
pub proof fn lemma_actions_listed(caps: Map<u32, u32>, counts: Seq<(HandleInner, usize)>)
    ensures
        forall|i: int| 0 <= i < plan(caps, counts).0.len() ==> action_listed(counts, #[trigger] plan(caps, counts).0[i]),
    decreases counts.len(),
{
    if counts.len() > 0 {
        let init = counts.drop_last();
        lemma_actions_listed(caps, init);
        let prev = plan(caps, init);
        let (id, len) = counts.last();
        let acts = plan(caps, counts).0;
        let last = counts.len() - 1;
        assert(counts[last] == (id, len));
        assert forall|i: int| 0 <= i < acts.len() implies action_listed(counts, #[trigger] acts[i]) by {
            if i < prev.0.len() {
                assert(acts[i] == prev.0[i]);
                assert(action_listed(init, prev.0[i]));
                match prev.0[i] {
                    BufferAction::Create(k, c) | BufferAction::Recreate(k, c) => {
                        let t = choose|t: int| 0 <= t < init.len() && #[trigger] init[t].0 == k && init[t].1 as u32 == c;
                        assert(counts[t] == init[t]);
                    },
                    BufferAction::Write(k) => {
                        let t = choose|t: int| 0 <= t < init.len() && #[trigger] init[t].0 == k && init[t].1 as u32 != 0;
                        assert(counts[t] == init[t]);
                    },
                }
            } else {
                assert(acts[i] == step_actions(prev.1, id, len)[i - prev.0.len()]);
            }
        }
    }
}

/// Law: a texture is drawn in a frame exactly when some count listed for it
/// is not zero (taken modulo 2^32), whatever buffers there were before.
pub proof fn lemma_drawn_iff_listed(caps: Map<u32, u32>, counts: Seq<(HandleInner, usize)>)
    ensures
        forall|k: u32|
            #[trigger] plan(caps, counts).2.contains(k) <==> exists|t: int|
                0 <= t < counts.len() && #[trigger] counts[t].0.0 == k && counts[t].1 as u32 != 0,
    decreases counts.len(),
{
    if counts.len() > 0 {
        let init = counts.drop_last();
        lemma_drawn_iff_listed(caps, init);
        let prev = plan(caps, init);
        let (id, len) = counts.last();
        assert forall|k: u32|
            #[trigger] plan(caps, counts).2.contains(k) <==> exists|t: int|
                0 <= t < counts.len() && #[trigger] counts[t].0.0 == k && counts[t].1 as u32 != 0 by {
            if plan(caps, counts).2.contains(k) {
                if prev.2.contains(k) {
                    let t = choose|t: int| 0 <= t < init.len() && #[trigger] init[t].0.0 == k && init[t].1 as u32 != 0;
                    assert(counts[t] == init[t]);
                } else {
                    assert(counts[counts.len() - 1].0.0 == k);
                }
            }
            if exists|t: int| 0 <= t < counts.len() && #[trigger] counts[t].0.0 == k && counts[t].1 as u32 != 0 {
                let t = choose|t: int| 0 <= t < counts.len() && #[trigger] counts[t].0.0 == k && counts[t].1 as u32 != 0;
                if t < init.len() {
                    assert(init[t] == counts[t]);
                    assert(prev.2.contains(k));
                }
            }
        }
    }
}

/// Law: every texture drawn in a frame gets a buffer that holds all of its
/// instances, whatever buffers there were before and however often it is
/// listed.
pub proof fn lemma_buffers_fit(caps: Map<u32, u32>, counts: Seq<(HandleInner, usize)>)
    ensures
        forall|t: int|
            0 <= t < counts.len() && #[trigger] counts[t].1 as u32 != 0 ==> plan(caps, counts).1.contains_key(
                counts[t].0.0,
            ) && plan(caps, counts).1[counts[t].0.0] >= counts[t].1 as u32,
    decreases counts.len(),
{
    if counts.len() > 0 {
        let init = counts.drop_last();
        lemma_buffers_fit(caps, init);
        let prev = plan(caps, init).1;
        let (id, len) = counts.last();
        let next = step_caps(prev, id, len);
        assert forall|t: int|
            0 <= t < counts.len() && #[trigger] counts[t].1 as u32 != 0 implies next.contains_key(counts[t].0.0)
                && next[counts[t].0.0] >= counts[t].1 as u32 by {
            if t < init.len() {
                assert(counts[t] == init[t]);
                assert(prev.contains_key(init[t].0.0) && prev[init[t].0.0] >= init[t].1 as u32);
            }
        }
    }
}

} // verus!

//! The grouping of model instances for drawing: each instance drawn this
//! frame gets a number, and the numbers are collected per material and per
//! mesh, so that all instances of a mesh with a material are drawn at once.

use vstd::prelude::*;

use crate::handle::HandleInner;

verus! {

/// The instances of one mesh drawn with one material.
pub struct MeshBatch {
    pub mesh: HandleInner,
    pub instances: Vec<u16>,
}

/// The meshes drawn with one material.
pub struct MaterialBatch {
    pub material: HandleInner,
    pub meshes: Vec<MeshBatch>,
}

/// The instances of each mesh in a list of mesh batches.
pub open spec fn mesh_map(ms: Seq<MeshBatch>) -> Map<HandleInner, Seq<u16>> {
    Map::new(
        |mesh: HandleInner| exists|j: int| 0 <= j < ms.len() && ms[j].mesh == mesh,
        |mesh: HandleInner| ms[choose|j: int| 0 <= j < ms.len() && ms[j].mesh == mesh].instances@,
    )
}

/// The instances of each mesh for each material in a list of material
/// batches.
pub open spec fn batch_map(mats: Seq<MaterialBatch>) -> Map<HandleInner, Map<HandleInner, Seq<u16>>> {
    Map::new(
        |mat: HandleInner| exists|i: int| 0 <= i < mats.len() && mats[i].material == mat,
        |mat: HandleInner| mesh_map(mats[choose|i: int| 0 <= i < mats.len() && mats[i].material == mat].meshes@),
    )
}

/// No mesh appears twice.
pub open spec fn meshes_distinct(ms: Seq<MeshBatch>) -> bool {
    forall|a: int, b: int| 0 <= a < ms.len() && 0 <= b < ms.len() && ms[a].mesh == ms[b].mesh ==> a == b
}

/// No material appears twice, and within each material no mesh does.
pub open spec fn batches_distinct(mats: Seq<MaterialBatch>) -> bool {
    &&& forall|a: int, b: int|
        0 <= a < mats.len() && 0 <= b < mats.len() && mats[a].material == mats[b].material ==> a == b
    &&& forall|a: int| 0 <= a < mats.len() ==> meshes_distinct(#[trigger] mats[a].meshes@)
}

/// The materials of a list of batches, in order.
pub open spec fn material_order(mats: Seq<MaterialBatch>) -> Seq<HandleInner> {
    mats.map_values(|b: MaterialBatch| b.material)
}

/// Every material's batch holds one mesh.
pub open spec fn one_mesh_each(mats: Seq<MaterialBatch>) -> bool {
    forall|i: int| 0 <= i < mats.len() ==> #[trigger] mats[i].meshes@.len() == 1
}

/// The order of the materials after one more instance with `material`: a
/// new material comes last, a known one keeps its place.
pub open spec fn add_material_key(keys: Seq<HandleInner>, material: HandleInner) -> Seq<HandleInner> {
    if keys.contains(material) {
        keys
    } else {
        keys.push(material)
    }
}

/// The order of the materials after an instance of a model whose meshes
/// and materials are `meshes`, taken in order.
pub open spec fn add_model_keys(keys: Seq<HandleInner>, meshes: Seq<(HandleInner, HandleInner)>) -> Seq<HandleInner>
    decreases meshes.len(),
{
    if meshes.len() == 0 {
        keys
    } else {
        add_material_key(add_model_keys(keys, meshes.drop_last()), meshes.last().1)
    }
}

/// The batches after one more instance `id` of `mesh` with `material`: the
/// instance joins the list of that mesh if the material already has one;
/// otherwise the material's batch is started afresh with this mesh alone,
/// dropping what the material held before.
pub open spec fn add_instance(
    b: Map<HandleInner, Map<HandleInner, Seq<u16>>>,
    mesh: HandleInner,
    material: HandleInner,
    id: u16,
) -> Map<HandleInner, Map<HandleInner, Seq<u16>>> {
    if b.contains_key(material) && b[material].contains_key(mesh) {
        b.insert(material, b[material].insert(mesh, b[material][mesh].push(id)))
    } else {
        b.insert(material, map![mesh => seq![id]])
    }
}

/// The batches after instance `id` of a model whose meshes and materials
/// are `meshes`, taken in order.
pub open spec fn add_model_instance(
    b: Map<HandleInner, Map<HandleInner, Seq<u16>>>,
    meshes: Seq<(HandleInner, HandleInner)>,
    id: u16,
) -> Map<HandleInner, Map<HandleInner, Seq<u16>>>
    decreases meshes.len(),
{
    if meshes.len() == 0 {
        b
    } else {
        let prev = add_model_instance(b, meshes.drop_last(), id);
        add_instance(prev, meshes.last().0, meshes.last().1, id)
    }
}

/// Replacing a mesh batch by one for the same mesh replaces that mesh's
/// instances.
proof fn lemma_mesh_map_update(ms: Seq<MeshBatch>, j: int, x: MeshBatch)
    requires
        meshes_distinct(ms),
        0 <= j < ms.len(),
        x.mesh == ms[j].mesh,
    ensures
        meshes_distinct(ms.update(j, x)),
        mesh_map(ms.update(j, x)) == mesh_map(ms).insert(x.mesh, x.instances@),
{
    let ns = ms.update(j, x);
    assert forall|k: HandleInner| #[trigger] mesh_map(ns).contains_key(k) <==> mesh_map(ms).insert(x.mesh, x.instances@).contains_key(k) by {
        if mesh_map(ms).contains_key(k) {
            let a = choose|a: int| 0 <= a < ms.len() && ms[a].mesh == k;
            assert(ns[a].mesh == k);
        }
        if mesh_map(ns).contains_key(k) {
            let a = choose|a: int| 0 <= a < ns.len() && ns[a].mesh == k;
            assert(ms[a].mesh == k);
        }
        assert(ns[j].mesh == x.mesh);
    }
    assert forall|k: HandleInner| #[trigger] mesh_map(ns).contains_key(k) implies mesh_map(ns)[k] == mesh_map(ms).insert(x.mesh, x.instances@)[k] by {
        let a = choose|a: int| 0 <= a < ns.len() && ns[a].mesh == k;
        if k == x.mesh {
            assert(ns[j].mesh == k);
            assert(a == j);
        } else {
            let a2 = choose|a2: int| 0 <= a2 < ms.len() && ms[a2].mesh == k;
            assert(ms[a].mesh == k);
            assert(a == a2);
        }
    }
    assert(mesh_map(ns) =~= mesh_map(ms).insert(x.mesh, x.instances@));
}

/// The instances of the single mesh of a one-element list.
proof fn lemma_mesh_map_single(x: MeshBatch)
    ensures
        meshes_distinct(seq![x]),
        mesh_map(seq![x]) == map![x.mesh => x.instances@],
{
    let s = seq![x];
    assert forall|k: HandleInner| #[trigger] mesh_map(s).contains_key(k) <==> k == x.mesh by {
        if k == x.mesh {
            assert(s[0].mesh == k);
        }
    }
    assert(mesh_map(s) =~= map![x.mesh => x.instances@]);
}

/// Replacing a material batch by one for the same material replaces that
/// material's meshes.
proof fn lemma_batch_map_update(mats: Seq<MaterialBatch>, i: int, x: MaterialBatch)
    requires
        batches_distinct(mats),
        0 <= i < mats.len(),
        x.material == mats[i].material,
        meshes_distinct(x.meshes@),
    ensures
        batches_distinct(mats.update(i, x)),
        batch_map(mats.update(i, x)) == batch_map(mats).insert(x.material, mesh_map(x.meshes@)),
{
    let ns = mats.update(i, x);
    assert forall|a: int| 0 <= a < ns.len() implies meshes_distinct(#[trigger] ns[a].meshes@) by {
        if a != i {
            assert(meshes_distinct(mats[a].meshes@));
        }
    }
    assert forall|k: HandleInner| #[trigger] batch_map(ns).contains_key(k) <==> batch_map(mats).insert(x.material, mesh_map(x.meshes@)).contains_key(k) by {
        if batch_map(mats).contains_key(k) {
            let a = choose|a: int| 0 <= a < mats.len() && mats[a].material == k;
            assert(ns[a].material == k);
        }
        if batch_map(ns).contains_key(k) {
            let a = choose|a: int| 0 <= a < ns.len() && ns[a].material == k;
            assert(mats[a].material == k);
        }
        assert(ns[i].material == x.material);
    }
    assert forall|k: HandleInner| #[trigger] batch_map(ns).contains_key(k) implies batch_map(ns)[k] == batch_map(mats).insert(x.material, mesh_map(x.meshes@))[k] by {
        let a = choose|a: int| 0 <= a < ns.len() && ns[a].material == k;
        if k == x.material {
            assert(ns[i].material == k);
            assert(a == i);
        } else {
            let a2 = choose|a2: int| 0 <= a2 < mats.len() && mats[a2].material == k;
            assert(mats[a].material == k);
            assert(a == a2);
        }
    }
    assert(batch_map(ns) =~= batch_map(mats).insert(x.material, mesh_map(x.meshes@)));
}

/// Replacing a material batch by one for the same material with one mesh
/// keeps the order of the materials, and every batch holding one mesh.
proof fn lemma_order_update(mats: Seq<MaterialBatch>, i: int, x: MaterialBatch)
    requires
        one_mesh_each(mats),
        0 <= i < mats.len(),
        x.material == mats[i].material,
        x.meshes@.len() == 1,
    ensures
        one_mesh_each(mats.update(i, x)),
        material_order(mats.update(i, x)) == material_order(mats),
        material_order(mats).contains(x.material),
        add_material_key(material_order(mats), x.material) == material_order(mats),
{
    assert(material_order(mats.update(i, x)) =~= material_order(mats));
    assert(material_order(mats)[i] == x.material);
}

/// Adding a batch for a new material adds that material's meshes.
proof fn lemma_batch_map_push(mats: Seq<MaterialBatch>, x: MaterialBatch)
    requires
        batches_distinct(mats),
        !batch_map(mats).contains_key(x.material),
        meshes_distinct(x.meshes@),
    ensures
        batches_distinct(mats.push(x)),
        batch_map(mats.push(x)) == batch_map(mats).insert(x.material, mesh_map(x.meshes@)),
{
    let ns = mats.push(x);
    let n = mats.len() as int;
    assert forall|a: int, b: int|
        0 <= a < ns.len() && 0 <= b < ns.len() && ns[a].material == ns[b].material implies a == b by {
        if a < n && b == n {
            assert(mats[a].material == x.material);
        }
        if b < n && a == n {
            assert(mats[b].material == x.material);
        }
    }
    assert forall|a: int| 0 <= a < ns.len() implies meshes_distinct(#[trigger] ns[a].meshes@) by {
        if a < n {
            assert(meshes_distinct(mats[a].meshes@));
        }
    }
    assert forall|k: HandleInner| #[trigger] batch_map(ns).contains_key(k) <==> batch_map(mats).insert(x.material, mesh_map(x.meshes@)).contains_key(k) by {
        if batch_map(mats).contains_key(k) {
            let a = choose|a: int| 0 <= a < mats.len() && mats[a].material == k;
            assert(ns[a].material == k);
        }
        if batch_map(ns).contains_key(k) {
            let a = choose|a: int| 0 <= a < ns.len() && ns[a].material == k;
            if a < n {
                assert(mats[a].material == k);
            }
        }
        assert(ns[n].material == x.material);
    }
    assert forall|k: HandleInner| #[trigger] batch_map(ns).contains_key(k) implies batch_map(ns)[k] == batch_map(mats).insert(x.material, mesh_map(x.meshes@))[k] by {
        let a = choose|a: int| 0 <= a < ns.len() && ns[a].material == k;
        if k == x.material {
            assert(ns[n].material == k);
            assert(a == n);
        } else {
            let a2 = choose|a2: int| 0 <= a2 < mats.len() && mats[a2].material == k;
            assert(ns[a2].material == k);
            assert(a == a2);
        }
    }
    assert(batch_map(ns) =~= batch_map(mats).insert(x.material, mesh_map(x.meshes@)));
}

/// Law: right after an instance of a model is added, each mesh of the model
/// whose material no other mesh of the model uses lists the instance last.
pub proof fn lemma_model_instance_listed(
    b: Map<HandleInner, Map<HandleInner, Seq<u16>>>,
    meshes: Seq<(HandleInner, HandleInner)>,
    id: u16,
    k: int,
)
    requires
        0 <= k < meshes.len(),
        forall|t: int| 0 <= t < meshes.len() && t != k ==> #[trigger] meshes[t].1 != meshes[k].1,
    ensures
        add_model_instance(b, meshes, id).contains_key(meshes[k].1),
        add_model_instance(b, meshes, id)[meshes[k].1].contains_key(meshes[k].0),
        add_model_instance(b, meshes, id)[meshes[k].1][meshes[k].0].len() > 0,
        add_model_instance(b, meshes, id)[meshes[k].1][meshes[k].0].last() == id,
    decreases meshes.len(),
{
    let init = meshes.drop_last();
    let prev = add_model_instance(b, init, id);
    let last = meshes.len() - 1;
    if k < last {
        assert forall|t: int| 0 <= t < init.len() && t != k implies #[trigger] init[t].1 != init[k].1 by {
            assert(init[t] == meshes[t]);
        }
        lemma_model_instance_listed(b, init, id, k);
        assert(init[k] == meshes[k]);
        assert(meshes[last].1 != meshes[k].1);
    }
}

/// The instances drawn this frame, numbered as they come and grouped by
/// material and mesh.
pub struct ModelBatches {
    next_instance: u16,
    materials: Vec<MaterialBatch>,
}

impl ModelBatches {
    /// The number the next instance gets.
    pub closed spec fn spec_next_instance(&self) -> u16 {
        self.next_instance
    }

    /// The instances of each mesh for each material.
    pub closed spec fn spec_batches(&self) -> Map<HandleInner, Map<HandleInner, Seq<u16>>> {
        batch_map(self.materials@)
    }

    /// No material, and no mesh within a material, is listed twice.
    pub closed spec fn wf(&self) -> bool {
        batches_distinct(self.materials@) && one_mesh_each(self.materials@)
    }

    /// The materials in the order of their batches.
    pub closed spec fn spec_material_order(&self) -> Seq<HandleInner> {
        material_order(self.materials@)
    }

    /// No instance yet.
    pub fn new() -> (r: Self)
        ensures
            r.wf(),
            r.spec_next_instance() == 0,
            r.spec_batches() == Map::<HandleInner, Map<HandleInner, Seq<u16>>>::empty(),
            r.spec_material_order() == Seq::<HandleInner>::empty(),
    {
        let r = ModelBatches { next_instance: 0, materials: Vec::new() };
        assert(batch_map(r.materials@) =~= Map::<HandleInner, Map<HandleInner, Seq<u16>>>::empty());
        assert(material_order(r.materials@) =~= Seq::<HandleInner>::empty());
        r
    }

    /// The number the next instance gets.
    pub fn next_instance(&self) -> (r: u16)
        ensures
            r == self.spec_next_instance(),
    {
        self.next_instance
    }

    /// The batches, each material once, in the order the materials first
    /// came, each holding one mesh: the last drawn with that material.
    pub fn materials(&self) -> (r: &Vec<MaterialBatch>)
        requires
            self.wf(),
        ensures
            batches_distinct(r@),
            one_mesh_each(r@),
            batch_map(r@) == self.spec_batches(),
            material_order(r@) == self.spec_material_order(),
    {
        &self.materials
    }

    /// The position of `material` among the batches, if it has one.
    fn find_material(&self, material: HandleInner) -> (r: Option<usize>)
        ensures
            match r {
                Some(i) => i < self.materials@.len() && self.materials@[i as int].material == material,
                None => !batch_map(self.materials@).contains_key(material),
            },
    {
        let mut i: usize = 0;
        while i < self.materials.len()
            invariant
                i <= self.materials@.len(),
                forall|a: int| 0 <= a < i ==> self.materials@[a].material != material,
            decreases self.materials@.len() - i,
        {
            if self.materials[i].material.0 == material.0 {
                return Some(i);
            }
            i = i + 1;
        }
        None
    }

    /// Adds instance `id` of `mesh` drawn with `material`.
    fn add_instance_to(&mut self, mesh: HandleInner, material: HandleInner, id: u16)
        requires
            old(self).wf(),
        ensures
            final(self).wf(),
            final(self).next_instance == old(self).next_instance,
            final(self).spec_batches() == add_instance(old(self).spec_batches(), mesh, material, id),
            final(self).spec_material_order() == add_material_key(old(self).spec_material_order(), material),
    {
        let ghost b0 = batch_map(self.materials@);
        let ghost mats0 = self.materials@;
        let ghost keys0 = material_order(mats0);
        match self.find_material(material) {
            Some(i) => {
                let mut found: Option<usize> = None;
                let mut j: usize = 0;
                while j < self.materials[i].meshes.len()
                    invariant_except_break
                        found is None,
                    invariant
                        self.materials@ == mats0,
                        i < self.materials@.len(),
                        j <= self.materials@[i as int].meshes@.len(),
                        forall|a: int| 0 <= a < j ==> self.materials@[i as int].meshes@[a].mesh != mesh,
                    ensures
                        found matches Some(jj) ==> jj < mats0[i as int].meshes@.len()
                            && mats0[i as int].meshes@[jj as int].mesh == mesh,
                        found is None ==> forall|a: int|
                            0 <= a < mats0[i as int].meshes@.len() ==> mats0[i as int].meshes@[a].mesh != mesh,
                    decreases self.materials@[i as int].meshes@.len() - j,
                {
                    if self.materials[i].meshes[j].mesh.0 == mesh.0 {
                        found = Some(j);
                        break;
                    }
                    j = j + 1;
                }
                proof {
                    let k = choose|k: int| 0 <= k < mats0.len() && mats0[k].material == material;
                    assert(mats0[i as int].material == material);
                    assert(k == i);
                    assert(b0.contains_key(material));
                    assert(b0[material] == mesh_map(mats0[i as int].meshes@));
                    assert(meshes_distinct(mats0[i as int].meshes@));
                }
                match found {
                    Some(j) => {
                        let mut mb = self.materials.remove(i);
                        proof {
                            assert(mats0[i as int] == mb);
                        }
                        let ghost ms0 = mats0[i as int].meshes@;
                        let mut me = mb.meshes.remove(j);
                        let ghost me0 = ms0[j as int];
                        me.instances.push(id);
                        mb.meshes.insert(j, me);
                        proof {
                            assert(mb.meshes@ =~= ms0.update(j as int, me));
                            lemma_mesh_map_update(ms0, j as int, me);
                            assert(mesh_map(ms0).contains_key(mesh)) by {
                                assert(ms0[j as int].mesh == mesh);
                            }
                            let jj = choose|jj: int| 0 <= jj < ms0.len() && ms0[jj].mesh == mesh;
                            assert(jj == j);
                            assert(mesh_map(ms0)[mesh] == me0.instances@);
                        }
                        self.materials.insert(i, mb);
                        proof {
                            assert(self.materials@ =~= mats0.update(i as int, mb));
                            lemma_batch_map_update(mats0, i as int, mb);
                            assert(mats0[i as int].meshes@.len() == 1);
                            assert(mb.meshes@.len() == 1);
                            lemma_order_update(mats0, i as int, mb);
                        }
                    },
                    None => {
                        let mut instances: Vec<u16> = Vec::new();
                        instances.push(id);
                        let mut meshes: Vec<MeshBatch> = Vec::new();
                        meshes.push(MeshBatch { mesh, instances });
                        let mb = MaterialBatch { material, meshes };
                        proof {
                            assert(!mesh_map(mats0[i as int].meshes@).contains_key(mesh));
                            assert(mb.meshes@ =~= seq![MeshBatch { mesh, instances }]);
                            lemma_mesh_map_single(mb.meshes@[0]);
                            assert(mb.meshes@[0].instances@ =~= seq![id]);
                        }
                        let _ = self.materials.remove(i);
                        self.materials.insert(i, mb);
                        proof {
                            assert(self.materials@ =~= mats0.update(i as int, mb));
                            lemma_batch_map_update(mats0, i as int, mb);
                            lemma_order_update(mats0, i as int, mb);
                        }
                    },
                }
            },
            None => {
                let mut instances: Vec<u16> = Vec::new();
                instances.push(id);
                let mut meshes: Vec<MeshBatch> = Vec::new();
                meshes.push(MeshBatch { mesh, instances });
                let mb = MaterialBatch { material, meshes };
                proof {
                    assert(mb.meshes@ =~= seq![MeshBatch { mesh, instances }]);
                    lemma_mesh_map_single(mb.meshes@[0]);
                    assert(mb.meshes@[0].instances@ =~= seq![id]);
                }
                self.materials.push(mb);
                proof {
                    lemma_batch_map_push(mats0, mb);
                    assert(material_order(self.materials@) =~= keys0.push(material));
                    assert(!keys0.contains(material)) by {
                        if keys0.contains(material) {
                            let k = choose|k: int| 0 <= k < keys0.len() && keys0[k] == material;
                            assert(mats0[k].material == material);
                        }
                    }
                    assert forall|a: int| 0 <= a < self.materials@.len() implies #[trigger] self.materials@[a].meshes@.len() == 1 by {
                        if a < mats0.len() {
                            assert(self.materials@[a] == mats0[a]);
                        }
                    }
                }
            },
        }
    }

    /// Gives the next instance its number and adds it for each mesh of its
    /// model, with the mesh's material, in the order the model lists them;
    /// returns the number.
    pub fn render_model(&mut self, meshes: &Vec<(HandleInner, HandleInner)>) -> (r: u16)
        requires
            old(self).wf(),
            old(self).spec_next_instance() < u16::MAX,
        ensures
            final(self).wf(),
            r == old(self).spec_next_instance(),
            final(self).spec_next_instance() == old(self).spec_next_instance() + 1,
            final(self).spec_batches() == add_model_instance(old(self).spec_batches(), meshes@, r),
            final(self).spec_material_order() == add_model_keys(old(self).spec_material_order(), meshes@),
    {
        let ghost b0 = self.spec_batches();
        let ghost k0 = self.spec_material_order();
        let id = self.next_instance;
        self.next_instance = id + 1;
        let mut k: usize = 0;
        while k < meshes.len()
            invariant
                self.wf(),
                self.next_instance == id + 1,
                k <= meshes@.len(),
                self.spec_batches() == add_model_instance(b0, meshes@.take(k as int), id),
                self.spec_material_order() == add_model_keys(k0, meshes@.take(k as int)),
            decreases meshes@.len() - k,
        {
            let (mesh, material) = meshes[k];
            proof {
                let t = meshes@.take(k + 1);
                assert(t.drop_last() =~= meshes@.take(k as int));
                assert(t.last() == (mesh, material));
            }
            self.add_instance_to(mesh, material, id);
            k = k + 1;
        }
        proof {
            assert(meshes@.take(meshes@.len() as int) =~= meshes@);
        }
        id
    }
}

} // verus!

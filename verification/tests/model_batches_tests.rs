use brackens_engine::handle::HandleInner;
use brackens_engine::model_batches::ModelBatches;

fn listing(b: &ModelBatches) -> Vec<(u32, Vec<(u32, Vec<u16>)>)> {
    b.materials()
        .iter()
        .map(|m| (m.material.0, m.meshes.iter().map(|x| (x.mesh.0, x.instances.clone())).collect()))
        .collect()
}

#[test]
fn instances_are_numbered_in_order() {
    let mut b = ModelBatches::new();
    let model = vec![(HandleInner(10), HandleInner(1))];
    assert_eq!(b.render_model(&model), 0);
    assert_eq!(b.render_model(&model), 1);
    assert_eq!(b.render_model(&model), 2);
    assert_eq!(b.next_instance(), 3);
    assert_eq!(listing(&b), vec![(1, vec![(10, vec![0, 1, 2])])]);
}

#[test]
fn instances_grouped_by_material_then_mesh() {
    let mut b = ModelBatches::new();
    let car = vec![(HandleInner(10), HandleInner(1)), (HandleInner(11), HandleInner(2))];
    let tree = vec![(HandleInner(12), HandleInner(3))];
    assert_eq!(b.render_model(&car), 0);
    assert_eq!(b.render_model(&tree), 1);
    assert_eq!(b.render_model(&car), 2);
    assert_eq!(
        listing(&b),
        vec![(1, vec![(10, vec![0, 2])]), (2, vec![(11, vec![0, 2])]), (3, vec![(12, vec![1])])]
    );
}

#[test]
fn new_mesh_for_a_known_material_starts_its_batch_afresh() {
    let mut b = ModelBatches::new();
    assert_eq!(b.render_model(&vec![(HandleInner(10), HandleInner(1))]), 0);
    assert_eq!(b.render_model(&vec![(HandleInner(11), HandleInner(1))]), 1);
    // The material's batch now holds only the new mesh.
    assert_eq!(listing(&b), vec![(1, vec![(11, vec![1])])]);
}

#[test]
fn model_with_no_meshes_still_takes_a_number() {
    let mut b = ModelBatches::new();
    assert_eq!(b.render_model(&vec![]), 0);
    assert!(listing(&b).is_empty());
    assert_eq!(b.render_model(&vec![(HandleInner(5), HandleInner(6))]), 1);
    assert_eq!(listing(&b), vec![(6, vec![(5, vec![1])])]);
}

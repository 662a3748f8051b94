use brackens_engine::bind_groups::{check_bind_group, BindGroupEntryKind, BindGroupError};
use brackens_engine::components::{
    AssetLoadError, AutoUpdate, CameraActive, ParentRoot, Size, UseParentTransform, Visible, WindowSize,
};
use brackens_engine::draw_buffers::{group_visible, BufferAction, DrawBufferTable};
use brackens_engine::frame::{frame_action, should_resize, FrameAction, SurfaceStatus};
use brackens_engine::handle::HandleInner;

use BindGroupEntryKind::{Buffer, Sampler, TextureView};

#[test]
fn bind_group_with_uniform_buffer_first() {
    let layout = vec![Buffer, TextureView, Sampler];
    assert_eq!(check_bind_group(&layout, &vec![Buffer, TextureView, Sampler]), Ok(Some(0)));
}

#[test]
fn bind_group_without_buffer() {
    assert_eq!(check_bind_group(&vec![TextureView, Sampler], &vec![TextureView, Sampler]), Ok(None));
    assert_eq!(check_bind_group(&vec![TextureView], &vec![]), Ok(None));
    assert_eq!(check_bind_group(&vec![], &vec![]), Ok(None));
}

#[test]
fn bind_group_fewer_values_than_bindings() {
    assert_eq!(check_bind_group(&vec![Buffer, Sampler], &vec![Buffer]), Ok(Some(0)));
}

#[test]
fn bind_group_too_many_values() {
    assert_eq!(
        check_bind_group(&vec![Sampler], &vec![Sampler, Sampler]),
        Err(BindGroupError::InvalidParameterCount)
    );
    assert_eq!(check_bind_group(&vec![], &vec![Sampler]), Err(BindGroupError::InvalidParameterCount));
}

#[test]
fn bind_group_two_uniform_buffers() {
    assert_eq!(
        check_bind_group(&vec![Buffer, Buffer], &vec![Buffer, Buffer]),
        Err(BindGroupError::MultipleUniformBuffers)
    );
}

#[test]
fn bind_group_wrong_kind() {
    assert_eq!(
        check_bind_group(&vec![Buffer, Sampler], &vec![Sampler, Sampler]),
        Err(BindGroupError::IncompatibleParameter)
    );
}

#[test]
fn bind_group_buffer_only_recognised_at_first_binding() {
    // Only a template whose first binding is a buffer makes a uniform
    // buffer, so a buffer at a later binding has none to be bound to.
    assert_eq!(
        check_bind_group(&vec![Sampler, Buffer], &vec![Sampler, Buffer]),
        Err(BindGroupError::MissingUniformBuffer)
    );
}

#[test]
fn bind_group_buffer_value_later_in_list() {
    // The buffer value fills the first binding wherever it stands, but the
    // values are still matched binding by binding.
    assert_eq!(
        check_bind_group(&vec![Buffer, Sampler], &vec![Sampler, Buffer]),
        Err(BindGroupError::IncompatibleParameter)
    );
}

#[test]
fn draw_buffers_created_then_written_then_grown() {
    let mut t = DrawBufferTable::new();
    let a = HandleInner(1);
    let b = HandleInner(2);
    assert_eq!(t.process(&vec![(a, 3), (b, 0)]), vec![BufferAction::Create(a, 3)]);
    assert!(t.is_rendered(a));
    assert!(!t.is_rendered(b));
    assert_eq!(t.capacity(a), Some(3));
    assert_eq!(t.capacity(b), None);

    assert_eq!(t.process(&vec![(a, 2)]), vec![BufferAction::Write(a)]);
    assert_eq!(t.capacity(a), Some(3));

    assert_eq!(t.process(&vec![(a, 5)]), vec![BufferAction::Recreate(a, 5), BufferAction::Write(a)]);
    assert_eq!(t.capacity(a), Some(5));
}

#[test]
fn draw_buffers_dropped_when_not_drawn() {
    let mut t = DrawBufferTable::new();
    let a = HandleInner(1);
    let b = HandleInner(2);
    t.process(&vec![(a, 1), (b, 4)]);
    assert_eq!(t.process(&vec![(b, 4)]), vec![BufferAction::Write(b)]);
    assert_eq!(t.capacity(a), None);
    assert!(!t.is_rendered(a));
    assert_eq!(t.process(&vec![]), vec![]);
    assert_eq!(t.capacity(b), None);
}

#[test]
fn draw_buffers_fit_every_listed_count() {
    let mut t = DrawBufferTable::new();
    let a = HandleInner(7);
    let actions = t.process(&vec![(a, 2), (a, 6), (a, 4)]);
    assert_eq!(
        actions,
        vec![
            BufferAction::Create(a, 2),
            BufferAction::Recreate(a, 6),
            BufferAction::Write(a),
            BufferAction::Write(a),
        ]
    );
    assert_eq!(t.capacity(a), Some(6));
}

#[test]
fn frame_actions_for_each_status() {
    assert_eq!(frame_action(SurfaceStatus::Ready), FrameAction::Render);
    assert_eq!(frame_action(SurfaceStatus::Lost), FrameAction::ForceResize);
    assert_eq!(frame_action(SurfaceStatus::OutOfMemory), FrameAction::Exit);
    assert_eq!(frame_action(SurfaceStatus::Timeout), FrameAction::Skip);
    assert_eq!(frame_action(SurfaceStatus::Outdated), FrameAction::Skip);
}

#[test]
fn resize_only_for_non_empty_sizes() {
    assert!(should_resize(800, 600));
    assert!(!should_resize(0, 600));
    assert!(!should_resize(800, 0));
    assert!(!should_resize(0, 0));
}

#[test]
fn window_size_reads() {
    let w = WindowSize(Size { width: 640, height: 480 });
    assert_eq!(w.width(), 640);
    assert_eq!(w.height(), 480);
    assert_eq!(w.size(), Size { width: 640, height: 480 });
}

#[test]
fn visible_by_default() {
    assert!(Visible::default().visible);
    assert_eq!(Visible { visible: false }, Visible { visible: false });
}

#[test]
fn marker_components_exist() {
    assert_eq!(CameraActive, CameraActive);
    assert_eq!(UseParentTransform, UseParentTransform);
    assert_eq!(ParentRoot, ParentRoot);
    assert_eq!(AutoUpdate, AutoUpdate);
    assert_eq!(AssetLoadError, AssetLoadError);
}

#[test]
fn visible_entities_grouped_by_texture() {
    let entries = vec![
        (HandleInner(1), true),
        (HandleInner(2), false),
        (HandleInner(1), true),
        (HandleInner(3), true),
        (HandleInner(2), true),
    ];
    let groups = group_visible(&entries);
    let listed: Vec<(u32, Vec<usize>)> = groups.iter().map(|g| (g.texture.0, g.members.clone())).collect();
    assert_eq!(listed, vec![(1, vec![0, 2]), (3, vec![3]), (2, vec![4])]);
}

#[test]
fn no_visible_entity_gives_no_group() {
    assert!(group_visible(&vec![]).is_empty());
    assert!(group_visible(&vec![(HandleInner(1), false)]).is_empty());
}

#[test]
fn grouped_counts_plan_the_buffers() {
    let entries = vec![(HandleInner(4), true), (HandleInner(5), true), (HandleInner(4), true)];
    let counts: Vec<(HandleInner, usize)> =
        group_visible(&entries).iter().map(|g| (g.texture, g.members.len())).collect();
    let mut t = DrawBufferTable::new();
    assert_eq!(
        t.process(&counts),
        vec![BufferAction::Create(HandleInner(4), 2), BufferAction::Create(HandleInner(5), 1)]
    );
}

#[test]
fn bind_group_first_bad_value_decides_the_error() {
    assert_eq!(
        check_bind_group(&vec![Sampler, TextureView], &vec![Sampler, Sampler, Sampler]),
        Err(BindGroupError::IncompatibleParameter)
    );
    assert_eq!(
        check_bind_group(&vec![Buffer, Buffer], &vec![Buffer, Sampler]),
        Err(BindGroupError::IncompatibleParameter)
    );
    assert_eq!(
        check_bind_group(&vec![Sampler, Buffer, Buffer], &vec![Sampler, Buffer, Buffer]),
        Err(BindGroupError::MissingUniformBuffer)
    );
}

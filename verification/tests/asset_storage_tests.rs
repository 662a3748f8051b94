use brackens_engine::asset_storage::{
    reuse_outcome, typed_handle_outcome, AssetStorage, AssetStorageError, LoadableAssetStorage, SignalError,
};
use brackens_engine::handle::{
    increase_signal, Asset, AssetLoadable, Handle, HandleID, HandleInner, ReferenceCountSignal,
};

#[derive(Debug, PartialEq)]
struct Text(String);

impl Asset for Text {
    fn asset_name(&self) -> &str {
        "Text"
    }
}

impl AssetLoadable<u32> for Text {
    fn load_from_file(path: String, data: u32) -> Self {
        Text(format!("{}#{}", path, data))
    }

    fn load_default(data: u32) -> Self {
        Text(format!("default#{}", data))
    }
}

fn text(s: &str) -> Text {
    Text(s.to_string())
}

#[test]
fn handle_inner_counts_up() {
    let mut id = HandleInner::from_id(41);
    assert_eq!(id.0, 41);
    id.next();
    assert_eq!(id, HandleInner(42));
}

#[test]
fn handle_id_wraps_plain_id() {
    let a: HandleID<Text> = HandleID::new(HandleInner(3));
    let b: HandleID<Text> = HandleID::new(HandleInner(3));
    let c: HandleID<Text> = HandleID::new(HandleInner(4));
    assert_eq!(a.id(), HandleInner(3));
    assert!(a == b);
    assert!(a != c);
}

#[test]
fn added_asset_is_read_back() {
    let mut s: AssetStorage<Text> = AssetStorage::new();
    let h = s.add_asset(text("a"));
    assert_eq!(h.inner_id(), HandleInner(0));
    assert_eq!(h.id().id(), HandleInner(0));
    assert_eq!(h.get(), &text("a"));
    assert_eq!(h.asset_type_name(), "Text");
    assert_eq!(s.get_data(HandleInner(0)), Some(&text("a")));
    assert_eq!(s.get_data(HandleInner(1)), None);
    assert_eq!(s.get_loaded().len(), 1);
    let h2 = s.add_asset(text("b"));
    assert_eq!(h2.inner_id(), HandleInner(1));
}

#[test]
fn asset_stays_while_a_strong_handle_lives() {
    let mut s: AssetStorage<Text> = AssetStorage::new();
    let h = s.add_asset(text("a"));
    assert_eq!(s.tick(), Ok(()));
    assert_eq!(s.tick(), Ok(()));
    assert_eq!(s.get_data(h.inner_id()), Some(&text("a")));
}

#[test]
fn last_handle_dropped_unloads_asset() {
    let mut s: AssetStorage<Text> = AssetStorage::new();
    let h = s.add_asset(text("a"));
    assert_eq!(s.tick(), Ok(()));
    drop(h);
    assert_eq!(s.tick(), Ok(()));
    assert_eq!(s.get_data(HandleInner(0)), None);
    assert_eq!(s.get_removed_assets(), &vec![HandleInner(0)]);
    assert!(s.get_handle(HandleInner(0)).is_none());
}

#[test]
fn cloned_handle_keeps_asset_loaded() {
    let mut s: AssetStorage<Text> = AssetStorage::new();
    let h = s.add_asset(text("a"));
    let h2 = h.clone();
    assert!(h2 == h);
    drop(h);
    assert_eq!(s.tick(), Ok(()));
    assert!(s.get_data(HandleInner(0)).is_some());
    drop(h2);
    assert_eq!(s.tick(), Ok(()));
    assert!(s.get_data(HandleInner(0)).is_none());
}

#[test]
fn weak_handle_does_not_keep_asset_loaded() {
    let mut s: AssetStorage<Text> = AssetStorage::new();
    let h = s.add_asset(text("a"));
    let w = h.clone_weak();
    assert!(w == h);
    let w2 = w.clone();
    drop(h);
    assert_eq!(s.tick(), Ok(()));
    assert!(s.get_data(HandleInner(0)).is_none());
    // The weak handles still reach the asset itself.
    assert_eq!(w.get(), &text("a"));
    assert_eq!(w2.get(), &text("a"));
}

#[test]
fn to_weak_releases_the_asset() {
    let mut s: AssetStorage<Text> = AssetStorage::new();
    let mut h = s.add_asset(text("a"));
    h.to_weak();
    h.to_weak();
    assert_eq!(s.tick(), Ok(()));
    assert!(s.get_data(HandleInner(0)).is_none());
    assert_eq!(h.get(), &text("a"));
}

#[test]
fn handle_made_from_parts() {
    let s: AssetStorage<Text> = AssetStorage::new();
    let weak: Handle<Text> = Handle::weak(HandleID::new(HandleInner(5)), std::sync::Arc::new(text("w")));
    assert_eq!(weak.inner_id(), HandleInner(5));
    let strong: Handle<Text> =
        Handle::strong(HandleID::new(HandleInner(6)), s.get_sender().clone(), std::sync::Arc::new(text("s")));
    assert_eq!(strong.inner_id(), HandleInner(6));
    assert_eq!(strong.get(), &text("s"));
}

#[test]
fn get_handle_counts_as_strong() {
    let mut s: AssetStorage<Text> = AssetStorage::new();
    let h = s.add_asset(text("a"));
    let h2 = s.get_handle(HandleInner(0)).expect("loaded");
    assert_eq!(h2.get(), &text("a"));
    drop(h);
    assert_eq!(s.tick(), Ok(()));
    assert!(s.get_data(HandleInner(0)).is_some());
    drop(h2);
    assert_eq!(s.tick(), Ok(()));
    assert!(s.get_data(HandleInner(0)).is_none());
    assert!(s.get_handle(HandleInner(9)).is_none());
}

#[test]
fn just_added_assets_until_tick() {
    let mut s: AssetStorage<Text> = AssetStorage::new();
    let _a = s.add_asset(text("a"));
    let _b = s.add_asset(text("b"));
    assert!(s.just_added_loaded());
    let added = s.get_just_added();
    let ids: Vec<HandleInner> = added.iter().map(|h| h.inner_id()).collect();
    assert_eq!(ids, vec![HandleInner(0), HandleInner(1)]);
    drop(added);
    assert_eq!(s.tick(), Ok(()));
    assert!(s.get_just_added().is_empty());
}

#[test]
fn file_is_loaded_once_while_in_use() {
    let mut s: AssetStorage<Text> = AssetStorage::new();
    let h1 = s.add_asset_file(text("first"), "a.png");
    let h2 = s.add_asset_file(text("second"), "a.png");
    assert_eq!(h1.inner_id(), h2.inner_id());
    assert_eq!(h2.get(), &text("first"));
    assert!(s.is_file_loaded("a.png"));
    assert!(!s.is_file_loaded("b.png"));
    assert!(s.get_loaded_file("b.png").is_none());
    let h3 = s.get_loaded_file("a.png").expect("loaded");
    assert_eq!(h3.inner_id(), HandleInner(0));
    drop(h1);
    drop(h2);
    drop(h3);
    assert_eq!(s.tick(), Ok(()));
    assert!(!s.is_file_loaded("a.png"));
    let h4 = s.add_asset_file(text("third"), "a.png");
    assert_eq!(h4.inner_id(), HandleInner(1));
    assert_eq!(h4.get(), &text("third"));
}

#[test]
fn signal_for_unknown_asset_is_refused() {
    let mut s: AssetStorage<Text> = AssetStorage::new();
    assert_eq!(
        s.apply_signal(ReferenceCountSignal::Increase(HandleInner(7))),
        Err(SignalError::UnknownHandle(HandleInner(7)))
    );
    assert_eq!(
        s.apply_signal(ReferenceCountSignal::Decrease(HandleInner(7))),
        Err(SignalError::UnknownHandle(HandleInner(7)))
    );
}

#[test]
fn decrease_below_zero_is_refused() {
    let mut s: AssetStorage<Text> = AssetStorage::new();
    let h = s.add_asset(text("a"));
    let id = h.inner_id();
    // The handle's own increase is still waiting in the channel.
    assert_eq!(s.apply_signal(ReferenceCountSignal::Decrease(id)), Err(SignalError::CountUnderflow(id)));
    assert_eq!(s.apply_signal(ReferenceCountSignal::Increase(id)), Ok(()));
    assert_eq!(s.apply_signal(ReferenceCountSignal::Decrease(id)), Ok(()));
    assert_eq!(s.get_removed_assets(), &vec![id]);
}

#[test]
fn tick_reports_a_signal_it_cannot_apply() {
    let mut s: AssetStorage<Text> = AssetStorage::new();
    let h = s.add_asset(text("a"));
    let id = h.inner_id();
    assert_eq!(s.tick(), Ok(()));
    assert_eq!(s.apply_signal(ReferenceCountSignal::Decrease(id)), Ok(()));
    drop(h);
    assert_eq!(s.tick(), Err(SignalError::CountUnderflow(id)));
}

#[test]
fn check_asset_changes_applies_waiting_signals() {
    let mut s: AssetStorage<Text> = AssetStorage::new();
    let h = s.add_asset(text("a"));
    assert_eq!(s.check_asset_changes(), Ok(()));
    drop(h);
    assert_eq!(s.check_asset_changes(), Ok(()));
    assert_eq!(s.get_removed_assets(), &vec![HandleInner(0)]);
    // Still loaded until the pending assets are removed.
    assert!(s.get_data(HandleInner(0)).is_some());
    s.remove_pending_assets();
    assert!(s.get_data(HandleInner(0)).is_none());
    s.clear_just_added();
    assert!(s.get_just_added().is_empty());
}

#[test]
fn storage_error_variants_are_distinct() {
    assert_ne!(AssetStorageError::AssetNotExist, AssetStorageError::InvalidType);
    assert_ne!(AssetStorageError::InvalidType, AssetStorageError::AssetExistsDifferentType);
}

#[test]
fn loadable_storage_loads_each_path_once() {
    let mut s: LoadableAssetStorage<u32, Text> = LoadableAssetStorage::new();
    let h1 = s.load_from_file("a.txt".to_string(), 1);
    assert_eq!(h1.get(), &text("a.txt#1"));
    let h2 = s.load_from_file("a.txt".to_string(), 2);
    assert_eq!(h2.inner_id(), h1.inner_id());
    assert_eq!(h2.get(), &text("a.txt#1"));
    assert!(s.get_file_loaded("a.txt").is_some());
    assert!(s.get_file_loaded("b.txt").is_none());
    let m = s.load_asset(text("made"));
    assert_eq!(m.inner_id(), HandleInner(1));
    drop(h1);
    drop(h2);
    assert_eq!(s.tick(), Ok(()));
    assert!(s.get_file_loaded("a.txt").is_none());
    let h3 = s.load_from_file("a.txt".to_string(), 3);
    assert_eq!(h3.get(), &text("a.txt#3"));
    assert_eq!(h3.inner_id(), HandleInner(2));
}

#[test]
fn typed_lookup_outcomes() {
    assert_eq!(typed_handle_outcome(false, false), Err(AssetStorageError::AssetNotExist));
    assert_eq!(typed_handle_outcome(false, true), Err(AssetStorageError::AssetNotExist));
    assert_eq!(typed_handle_outcome(true, false), Err(AssetStorageError::InvalidType));
    assert_eq!(typed_handle_outcome(true, true), Ok(()));
}

#[test]
fn reuse_outcomes() {
    assert_eq!(reuse_outcome(Ok(())), Ok(true));
    assert_eq!(reuse_outcome(Err(AssetStorageError::AssetNotExist)), Ok(false));
    assert_eq!(
        reuse_outcome(Err(AssetStorageError::InvalidType)),
        Err(AssetStorageError::AssetExistsDifferentType)
    );
    assert_eq!(reuse_outcome(Err(AssetStorageError::AssetExistsDifferentType)), Ok(false));
}

#[test]
fn next_id_and_file_ids() {
    let mut s: AssetStorage<Text> = AssetStorage::new();
    assert_eq!(s.peek_next_id(), HandleInner(0));
    let _a = s.add_asset(text("a"));
    let _b = s.add_asset_file(text("b"), "b.txt");
    assert_eq!(s.peek_next_id(), HandleInner(2));
    assert_eq!(s.loaded_file_id("b.txt"), Some(HandleInner(1)));
    assert_eq!(s.loaded_file_id("a.txt"), None);
}

#[test]
fn handles_name_the_signals_they_send() {
    let mut s: AssetStorage<Text> = AssetStorage::new();
    assert_eq!(increase_signal(HandleInner(3)), ReferenceCountSignal::Increase(HandleInner(3)));
    let h = s.add_asset(text("a"));
    assert_eq!(h.release_signal(), Some(ReferenceCountSignal::Decrease(HandleInner(0))));
    let w = h.clone_weak();
    assert_eq!(w.release_signal(), None);
}

#[test]
fn apply_signals_in_order() {
    let mut s: AssetStorage<Text> = AssetStorage::new();
    let h = s.add_asset(text("a"));
    let id = h.inner_id();
    let signals = vec![
        ReferenceCountSignal::Increase(id),
        ReferenceCountSignal::Increase(id),
        ReferenceCountSignal::Decrease(id),
        ReferenceCountSignal::Decrease(id),
    ];
    assert_eq!(s.apply_signals(&signals), Ok(()));
    assert_eq!(s.get_removed_assets(), &vec![id]);
}

#[test]
fn apply_signals_stops_at_the_first_error() {
    let mut s: AssetStorage<Text> = AssetStorage::new();
    let h = s.add_asset(text("a"));
    let id = h.inner_id();
    let signals = vec![
        ReferenceCountSignal::Increase(id),
        ReferenceCountSignal::Increase(HandleInner(9)),
        ReferenceCountSignal::Decrease(id),
    ];
    assert_eq!(s.apply_signals(&signals), Err(SignalError::UnknownHandle(HandleInner(9))));
    // The decrease after the error was not applied: one more decrease
    // brings the count to zero.
    assert!(s.get_removed_assets().is_empty());
    assert_eq!(s.apply_signal(ReferenceCountSignal::Decrease(id)), Ok(()));
    assert_eq!(s.get_removed_assets(), &vec![id]);
}

#[test]
fn just_added_handles_are_weak() {
    let mut s: AssetStorage<Text> = AssetStorage::new();
    let h = s.add_asset(text("a"));
    let added = s.get_just_added();
    assert_eq!(added[0].release_signal(), None);
    drop(h);
    assert_eq!(s.tick(), Ok(()));
    // The just-added handle does not keep the asset loaded.
    assert!(s.get_data(HandleInner(0)).is_none());
    assert_eq!(added[0].get(), &text("a"));
}

#[test]
fn second_file_add_on_a_path_reuses_its_id() {
    let mut s: AssetStorage<Text> = AssetStorage::new();
    let h1 = s.add_asset_file(text("one"), "p");
    let h2 = s.add_asset_file(text("two"), "p");
    assert_eq!(h1.inner_id(), h2.inner_id());
    assert_eq!(s.peek_next_id(), HandleInner(1));
    assert_eq!(s.get_data(h2.inner_id()), Some(&text("one")));
}

#[test]
fn loadable_storage_full_path() {
    let s: LoadableAssetStorage<u32, Text> = LoadableAssetStorage::new();
    assert_eq!(s.full_path("a/b.png"), "a/b.png".to_string());
}

#[test]
fn plain_id_from_typed_id() {
    for x in [0u32, 7, u32::MAX] {
        let typed: HandleID<Text> = HandleID::new(HandleInner(x));
        assert_eq!(HandleInner::from(typed), HandleInner(x));
    }
}

#[test]
fn wrong_type_message() {
    assert_eq!(
        AssetStorageError::InvalidType.message(),
        "AssetStorageError: The given type doesn't match the stored type."
    );
}

#[test]
fn removed_follow_the_order_counts_reach_zero() {
    let mut s: AssetStorage<Text> = AssetStorage::new();
    let a = s.add_asset(text("a")).inner_id();
    let b = s.add_asset(text("b")).inner_id();
    let signals = vec![
        ReferenceCountSignal::Increase(a),
        ReferenceCountSignal::Increase(b),
        ReferenceCountSignal::Increase(a),
        ReferenceCountSignal::Decrease(a),
        ReferenceCountSignal::Decrease(b),
        ReferenceCountSignal::Decrease(a),
    ];
    assert_eq!(s.apply_signals(&signals), Ok(()));
    assert_eq!(s.get_removed_assets(), &vec![b, a]);
}

#[test]
fn strong_clone_and_to_weak_signal_the_storage() {
    let mut s: AssetStorage<Text> = AssetStorage::new();
    let h = s.add_asset(text("a"));
    let id = h.inner_id();
    assert_eq!(s.check_asset_changes(), Ok(()));
    let mut c = h.clone();
    c.to_weak();
    // The clone counted once and was released once; the first handle still
    // keeps the asset.
    assert_eq!(s.tick(), Ok(()));
    assert_eq!(s.get_data(id), Some(&text("a")));
    // A weak handle sends nothing when turned weak again or cloned.
    c.to_weak();
    let w = c.clone();
    drop(w);
    drop(c);
    assert_eq!(s.tick(), Ok(()));
    assert_eq!(s.get_data(id), Some(&text("a")));
    drop(h);
    assert_eq!(s.tick(), Ok(()));
    assert_eq!(s.get_data(id), None);
}

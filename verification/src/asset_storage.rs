//! A storage of shared assets that counts the strong handles to each asset
//! and unloads an asset once no strong handle to it is left.
//!
//! Handles report their appearance and disappearance through a channel; the
//! storage applies these signals when it ticks, and unloads the assets whose
//! count dropped to zero. Assets loaded from a file are also found again by
//! their path, so a file is loaded once while it is in use.

use std::collections::HashMap;
use std::marker::PhantomData;
use std::sync::Arc;

use vstd::hash_map::StringHashMap;
use vstd::prelude::*;
use vstd::string::StringExecFns;

use crate::handle::{
    Asset, AssetLoadable, Handle, HandleID, HandleInner, ReceiverType, ReferenceCountSignal, SignalSender,
    clone_sender, drain_signals, new_channel,
};

verus! {

broadcast use vstd::std_specs::hash::group_hash_axioms;

/// Why a storage could not apply the signals it received.
#[derive(Clone, Copy, Debug, PartialEq, Eq, Structural)]
pub enum SignalError {
    /// A signal named an asset that is not loaded.
    UnknownHandle(HandleInner),
    /// A count would go past `u32::MAX`.
    CountOverflow(HandleInner),
    /// A count would go below zero.
    CountUnderflow(HandleInner),
}

/// Why a storage that keeps assets of any type could not give a handle.
#[derive(Clone, Copy, Debug, PartialEq, Eq, Structural)]
pub enum AssetStorageError {
    /// No asset with the identifier or path is loaded.
    AssetNotExist,
    /// The asset is not of the type asked for.
    InvalidType,
    /// An asset of another type was already loaded from the path.
    AssetExistsDifferentType,
}

impl AssetStorageError {
    /// The text that describes the error. Only a wrong type has one.
    pub fn message(&self) -> (r: &'static str)
        requires
            *self is InvalidType,
        ensures
            r@ == "AssetStorageError: The given type doesn't match the stored type."@,
    {
        "AssetStorageError: The given type doesn't match the stored type."
    }
}

/// The abstract state of a storage.
pub struct StorageModel<T> {
    /// The identifier the next added asset gets.
    pub next_id: u32,
    /// The loaded assets by identifier.
    pub loaded: Map<u32, T>,
    /// How many strong handles the storage has counted for each asset.
    pub counts: Map<u32, u32>,
    /// The assets added since the last tick.
    pub just_added: Seq<u32>,
    /// The assets whose count dropped to zero in the last check.
    pub removed: Seq<u32>,
    /// The identifier of the asset loaded from each path.
    pub paths: Map<Seq<char>, u32>,
    /// The path each asset loaded from a file came from.
    pub asset_paths: Map<u32, Seq<char>>,
}

/// The state after one signal, or why it cannot be applied. An increase
/// adds one to the count of its asset; a decrease takes one away, and an
/// asset whose count reaches zero is recorded as removed.
pub open spec fn apply_signal_model<T>(m: StorageModel<T>, s: ReferenceCountSignal) -> Result<
    StorageModel<T>,
    SignalError,
> {
    match s {
        ReferenceCountSignal::Increase(h) => {
            if !m.counts.contains_key(h.0) {
                Err(SignalError::UnknownHandle(h))
            } else if m.counts[h.0] == u32::MAX {
                Err(SignalError::CountOverflow(h))
            } else {
                Ok(StorageModel { counts: m.counts.insert(h.0, (m.counts[h.0] + 1) as u32), ..m })
            }
        },
        ReferenceCountSignal::Decrease(h) => {
            if !m.counts.contains_key(h.0) {
                Err(SignalError::UnknownHandle(h))
            } else if m.counts[h.0] == 0 {
                Err(SignalError::CountUnderflow(h))
            } else {
                let c = (m.counts[h.0] - 1) as u32;
                Ok(
                    StorageModel {
                        counts: m.counts.insert(h.0, c),
                        removed: if c == 0 {
                            m.removed.push(h.0)
                        } else {
                            m.removed
                        },
                        ..m
                    },
                )
            }
        },
    }
}

/// The state after the signals `sigs` in order, or the first error.
pub open spec fn apply_signals_model<T>(m: StorageModel<T>, sigs: Seq<ReferenceCountSignal>) -> Result<
    StorageModel<T>,
    SignalError,
>
    decreases sigs.len(),
{
    if sigs.len() == 0 {
        Ok(m)
    } else {
        match apply_signals_model(m, sigs.drop_last()) {
            Ok(m1) => apply_signal_model(m1, sigs.last()),
            Err(e) => Err(e),
        }
    }
}

/// The state with no asset recorded as removed.
pub open spec fn clear_removed_model<T>(m: StorageModel<T>) -> StorageModel<T> {
    StorageModel { removed: Seq::empty(), ..m }
}

/// The state with no asset recorded as just added.
pub open spec fn clear_just_added_model<T>(m: StorageModel<T>) -> StorageModel<T> {
    StorageModel { just_added: Seq::empty(), ..m }
}

/// The state after the assets recorded as removed are unloaded, together
/// with their counts and paths.
pub open spec fn remove_pending_model<T>(m: StorageModel<T>) -> StorageModel<T> {
    let gone = m.removed.to_set();
    StorageModel {
        loaded: m.loaded.remove_keys(gone),
        counts: m.counts.remove_keys(gone),
        asset_paths: m.asset_paths.remove_keys(gone),
        paths: m.paths.remove_keys(paths_of(m.asset_paths, gone)),
        ..m
    }
}

/// The state after an asset is added under the next identifier with no
/// handle counted yet.
pub open spec fn add_model<T>(m: StorageModel<T>, asset: T) -> StorageModel<T> {
    StorageModel {
        next_id: (m.next_id + 1) as u32,
        loaded: m.loaded.insert(m.next_id, asset),
        counts: m.counts.insert(m.next_id, 0),
        just_added: m.just_added.push(m.next_id),
        ..m
    }
}

/// The state after an asset loaded from `path` is added: as after
/// `add_model`, with the path recorded both ways.
pub open spec fn add_file_model<T>(m: StorageModel<T>, asset: T, path: Seq<char>) -> StorageModel<T> {
    let m1 = add_model(m, asset);
    StorageModel {
        paths: m1.paths.insert(path, m.next_id),
        asset_paths: m1.asset_paths.insert(m.next_id, path),
        ..m1
    }
}

/// What every reachable state satisfies: each loaded asset has a count and
/// an identifier below the next one, and the two path maps are inverse to
/// each other over loaded assets.
pub open spec fn storage_wf<T>(m: StorageModel<T>) -> bool {
    &&& m.loaded.dom() == m.counts.dom()
    &&& forall|id: u32| #[trigger] m.loaded.contains_key(id) ==> id < m.next_id
    &&& forall|p: Seq<char>|
        #[trigger] m.paths.contains_key(p) ==> m.asset_paths.contains_key(m.paths[p]) && m.asset_paths[m.paths[p]]
            == p
    &&& forall|id: u32|
        #[trigger] m.asset_paths.contains_key(id) ==> m.loaded.contains_key(id) && m.paths.contains_key(
            m.asset_paths[id],
        ) && m.paths[m.asset_paths[id]] == id
}


/// The paths recorded for the assets in `ids`.
pub open spec fn paths_of(asset_paths: Map<u32, Seq<char>>, ids: Set<u32>) -> Set<Seq<char>> {
    Set::new(|p: Seq<char>| exists|id: u32| #[trigger] ids.contains(id) && asset_paths.contains_key(id) && asset_paths[id] == p)
}

/// The set of the first `k + 1` elements adds element `k` to that of the
/// first `k`.
proof fn lemma_take_to_set_step(s: Seq<u32>, k: int)
    requires
        0 <= k < s.len(),
    ensures
        s.take(k + 1).to_set() == s.take(k).to_set().insert(s[k]),
{
    let a = s.take(k + 1);
    let b = s.take(k);
    assert forall|x: u32| a.to_set().contains(x) <==> b.to_set().insert(s[k]).contains(x) by {
        if a.contains(x) {
            let j = choose|j: int| 0 <= j < a.len() && #[trigger] a[j] == x;
            if j < k {
                assert(b[j] == x);
            }
        }
        if b.contains(x) {
            let j = choose|j: int| 0 <= j < b.len() && #[trigger] b[j] == x;
            assert(a[j] == x);
        }
        if x == s[k] {
            assert(a[k] == x);
        }
    }
    assert(a.to_set() =~= b.to_set().insert(s[k]));
}

/// Once a prefix of the signals fails, the whole sequence fails with the
/// same error.
proof fn lemma_signals_error_stays<T>(m: StorageModel<T>, s: Seq<ReferenceCountSignal>, k: int, e: SignalError)
    requires
        0 <= k <= s.len(),
        apply_signals_model(m, s.take(k)) == Err::<StorageModel<T>, SignalError>(e),
    ensures
        apply_signals_model(m, s) == Err::<StorageModel<T>, SignalError>(e),
    decreases s.len() - k,
{
    if k < s.len() {
        let t = s.take(k + 1);
        assert(t.drop_last() =~= s.take(k));
        lemma_signals_error_stays(m, s, k + 1, e);
    } else {
        assert(s.take(k) =~= s);
    }
}

/// Unloading the removed assets keeps the invariant.
proof fn lemma_remove_pending_wf<T>(m: StorageModel<T>)
    requires
        storage_wf(m),
    ensures
        storage_wf(remove_pending_model(m)),
{
    let gone = m.removed.to_set();
    let r = remove_pending_model(m);
    assert(r.loaded.dom() =~= r.counts.dom());
    assert forall|p: Seq<char>| #[trigger] r.paths.contains_key(p) implies r.asset_paths.contains_key(r.paths[p])
        && r.asset_paths[r.paths[p]] == p by {
        let id = m.paths[p];
        if gone.contains(id) {
            assert(paths_of(m.asset_paths, gone).contains(p));
        }
    }
    assert forall|id: u32| #[trigger] r.asset_paths.contains_key(id) implies r.loaded.contains_key(id)
        && r.paths.contains_key(r.asset_paths[id]) && r.paths[r.asset_paths[id]] == id by {
        let p = m.asset_paths[id];
        if exists|id2: u32| #[trigger] gone.contains(id2) && m.asset_paths.contains_key(id2) && m.asset_paths[id2] == p {
            let id2 = choose|id2: u32| #[trigger] gone.contains(id2) && m.asset_paths.contains_key(id2) && m.asset_paths[id2] == p;
            assert(m.paths[p] == id2);
        }
    }
}

/// Law: an added asset gets an identifier that was not in use, and reading
/// it back gives the asset with no handle counted.
pub proof fn lemma_add_then_get<T>(m: StorageModel<T>, asset: T)
    requires
        storage_wf(m),
        m.next_id < u32::MAX,
    ensures
        !m.loaded.contains_key(m.next_id),
        storage_wf(add_model(m, asset)),
        add_model(m, asset).loaded.contains_key(m.next_id),
        add_model(m, asset).loaded[m.next_id] == asset,
        add_model(m, asset).counts[m.next_id] == 0,
{
    let r = add_model(m, asset);
    assert(r.loaded.dom() =~= r.counts.dom());
}

/// Law: an asset added from a path is found again by that path, and the
/// records stay consistent.
pub proof fn lemma_add_file_then_find<T>(m: StorageModel<T>, asset: T, path: Seq<char>)
    requires
        storage_wf(m),
        m.next_id < u32::MAX,
        !m.paths.contains_key(path),
    ensures
        storage_wf(add_file_model(m, asset, path)),
        add_file_model(m, asset, path).paths.contains_key(path),
        add_file_model(m, asset, path).paths[path] == m.next_id,
        add_file_model(m, asset, path).loaded[m.next_id] == asset,
{
    let r = add_file_model(m, asset, path);
    assert(r.loaded.dom() =~= r.counts.dom());
    assert(!m.asset_paths.contains_key(m.next_id));
    assert forall|p: Seq<char>| #[trigger] r.paths.contains_key(p) implies r.asset_paths.contains_key(r.paths[p])
        && r.asset_paths[r.paths[p]] == p by {
        if p != path {
            assert(m.paths[p] != m.next_id);
        }
    }
}

/// Law: signals change nothing but the counts and the record of removed
/// assets, and keep the invariant.
pub proof fn lemma_signals_frame<T>(m: StorageModel<T>, sigs: Seq<ReferenceCountSignal>)
    requires
        storage_wf(m),
    ensures
        apply_signals_model(m, sigs) matches Ok(r) ==> {
            &&& storage_wf(r)
            &&& r.next_id == m.next_id
            &&& r.loaded == m.loaded
            &&& r.counts.dom() == m.counts.dom()
            &&& r.just_added == m.just_added
            &&& r.paths == m.paths
            &&& r.asset_paths == m.asset_paths
        },
    decreases sigs.len(),
{
    if sigs.len() > 0 {
        lemma_signals_frame(m, sigs.drop_last());
        if let Ok(m1) = apply_signals_model(m, sigs.drop_last()) {
            if let Ok(r) = apply_signal_model(m1, sigs.last()) {
                assert(r.counts.dom() =~= m1.counts.dom());
            }
        }
    }
}

/// How often `sig` occurs in `sigs`.
pub open spec fn occurrences(sigs: Seq<ReferenceCountSignal>, sig: ReferenceCountSignal) -> nat
    decreases sigs.len(),
{
    if sigs.len() == 0 {
        0
    } else {
        occurrences(sigs.drop_last(), sig) + (if sigs.last() == sig {
            1nat
        } else {
            0nat
        })
    }
}

/// The count of asset `id` after the signals `sigs`, starting from
/// `counts`: one more for each increase of it, one less for each decrease.
pub open spec fn count_after(counts: Map<u32, u32>, sigs: Seq<ReferenceCountSignal>, id: u32) -> int {
    counts[id] + occurrences(sigs, ReferenceCountSignal::Increase(HandleInner(id))) - occurrences(
        sigs,
        ReferenceCountSignal::Decrease(HandleInner(id)),
    )
}

/// The assets whose count reaches zero under the signals `sigs`, starting
/// from `counts`, in the order of the decreases that bring them there.
pub open spec fn reaching_zero(counts: Map<u32, u32>, sigs: Seq<ReferenceCountSignal>) -> Seq<u32>
    decreases sigs.len(),
{
    if sigs.len() == 0 {
        Seq::empty()
    } else {
        let earlier = reaching_zero(counts, sigs.drop_last());
        match sigs.last() {
            ReferenceCountSignal::Decrease(h) => if count_after(counts, sigs, h.0) == 0 {
                earlier.push(h.0)
            } else {
                earlier
            },
            ReferenceCountSignal::Increase(_) => earlier,
        }
    }
}

/// Law: when the signals apply without error, each count ends as its start
/// plus the increases minus the decreases of its asset, and the assets
/// recorded as removed are those recorded before, followed by the assets
/// whose count reaches zero, in the order of the signals.
pub proof fn lemma_removed_in_signal_order<T>(m: StorageModel<T>, sigs: Seq<ReferenceCountSignal>)
    ensures
        apply_signals_model(m, sigs) matches Ok(r) ==> {
            &&& r.counts.dom() == m.counts.dom()
            &&& forall|id: u32| #[trigger] r.counts.contains_key(id) ==> r.counts[id] == count_after(m.counts, sigs, id)
            &&& r.removed == m.removed + reaching_zero(m.counts, sigs)
        },
    decreases sigs.len(),
{
    if sigs.len() == 0 {
        assert(m.removed + Seq::<u32>::empty() =~= m.removed);
    } else {
        let pre = sigs.drop_last();
        lemma_removed_in_signal_order(m, pre);
        if let Ok(m1) = apply_signals_model(m, pre) {
            if let Ok(r) = apply_signal_model(m1, sigs.last()) {
                assert(r.counts.dom() =~= m1.counts.dom());
                assert forall|id: u32| #[trigger] r.counts.contains_key(id) implies r.counts[id] == count_after(
                    m.counts,
                    sigs,
                    id,
                ) by {
                    assert(m1.counts[id] == count_after(m.counts, pre, id));
                }
                match sigs.last() {
                    ReferenceCountSignal::Decrease(h) => {
                        assert(m1.counts[h.0] == count_after(m.counts, pre, h.0));
                        if count_after(m.counts, sigs, h.0) == 0 {
                            assert(r.removed =~= m.removed + reaching_zero(m.counts, sigs));
                        }
                    },
                    ReferenceCountSignal::Increase(_) => {},
                }
            }
        }
    }
}

/// Law: unloading the removed assets touches nothing else. Every asset not
/// recorded as removed stays loaded with the same count, keeps its path, and
/// is still found under that path; every removed asset is gone.
pub proof fn lemma_remove_pending_keeps_others<T>(m: StorageModel<T>)
    requires
        storage_wf(m),
    ensures
        forall|id: u32|
            #[trigger] m.loaded.contains_key(id) && !m.removed.contains(id) ==> {
                let r = remove_pending_model(m);
                &&& r.loaded.contains_key(id) && r.loaded[id] == m.loaded[id]
                &&& r.counts.contains_key(id) && r.counts[id] == m.counts[id]
            },
        forall|id: u32|
            #[trigger] m.asset_paths.contains_key(id) && !m.removed.contains(id) ==> {
                let r = remove_pending_model(m);
                r.asset_paths.contains_key(id) && r.asset_paths[id] == m.asset_paths[id]
            },
        forall|p: Seq<char>|
            #[trigger] m.paths.contains_key(p) && !m.removed.contains(m.paths[p]) ==> {
                let r = remove_pending_model(m);
                r.paths.contains_key(p) && r.paths[p] == m.paths[p]
            },
        forall|id: u32| #[trigger] m.removed.contains(id) ==> !remove_pending_model(m).loaded.contains_key(id),
{
    let gone = m.removed.to_set();
    assert forall|p: Seq<char>| #[trigger] m.paths.contains_key(p) && !m.removed.contains(m.paths[p]) implies {
        let r = remove_pending_model(m);
        r.paths.contains_key(p) && r.paths[p] == m.paths[p]
    } by {
        if paths_of(m.asset_paths, gone).contains(p) {
            let x = choose|x: u32| #[trigger] gone.contains(x) && m.asset_paths.contains_key(x) && m.asset_paths[x] == p;
            assert(m.paths[m.asset_paths[x]] == x);
        }
    }
}

/// Law: a strong handle that appears and goes away again leaves the count
/// as it was; if no handle was counted before, the asset is recorded as
/// removed.
pub proof fn lemma_increase_then_decrease<T>(m: StorageModel<T>, id: HandleInner)
    requires
        m.counts.contains_key(id.0),
        m.counts[id.0] < u32::MAX,
    ensures
        apply_signal_model(m, ReferenceCountSignal::Increase(id)) matches Ok(m1) && apply_signal_model(
            m1,
            ReferenceCountSignal::Decrease(id),
        ) == Ok::<StorageModel<T>, SignalError>(
            if m.counts[id.0] == 0 {
                StorageModel { removed: m.removed.push(id.0), ..m }
            } else {
                m
            },
        ),
{
    let m1 = apply_signal_model(m, ReferenceCountSignal::Increase(id))->Ok_0;
    let m2 = apply_signal_model(m1, ReferenceCountSignal::Decrease(id))->Ok_0;
    assert(m2.counts =~= m.counts);
}

/// Law: when the last counted strong handle to an asset goes away, the
/// asset is unloaded, and its path freed, at the next removal.
pub proof fn lemma_last_handle_unloads<T>(m: StorageModel<T>, id: HandleInner)
    requires
        storage_wf(m),
        m.counts.contains_key(id.0),
        m.counts[id.0] == 1,
    ensures
        apply_signal_model(m, ReferenceCountSignal::Decrease(id)) matches Ok(m1) && {
            let r = remove_pending_model(m1);
            &&& !r.loaded.contains_key(id.0)
            &&& !r.counts.contains_key(id.0)
            &&& !r.asset_paths.contains_key(id.0)
            &&& (m.asset_paths.contains_key(id.0) ==> !r.paths.contains_key(m.asset_paths[id.0]))
        },
{
    let m1 = apply_signal_model(m, ReferenceCountSignal::Decrease(id))->Ok_0;
    assert(m1.removed.last() == id.0);
    assert(m1.removed.to_set().contains(id.0)) by {
        assert(m1.removed[m1.removed.len() - 1] == id.0);
    }
    if m.asset_paths.contains_key(id.0) {
        assert(paths_of(m1.asset_paths, m1.removed.to_set()).contains(m.asset_paths[id.0]));
    }
}

/// Law: after the removal, no asset recorded as removed is loaded, and no
/// path leads to one of them.
pub proof fn lemma_remove_pending_unloads<T>(m: StorageModel<T>)
    requires
        storage_wf(m),
    ensures
        forall|i: int|
            0 <= i < m.removed.len() ==> !remove_pending_model(m).loaded.contains_key(#[trigger] m.removed[i]),
        forall|p: Seq<char>|
            #[trigger] remove_pending_model(m).paths.contains_key(p) ==> !m.removed.contains(
                remove_pending_model(m).paths[p],
            ),
{
    let r = remove_pending_model(m);
    assert forall|i: int| 0 <= i < m.removed.len() implies !r.loaded.contains_key(#[trigger] m.removed[i]) by {
        assert(m.removed.to_set().contains(m.removed[i]));
    }
    assert forall|p: Seq<char>| #[trigger] r.paths.contains_key(p) implies !m.removed.contains(r.paths[p]) by {
        let id = m.paths[p];
        if m.removed.contains(id) {
            assert(m.removed.to_set().contains(id));
            assert(paths_of(m.asset_paths, m.removed.to_set()).contains(p));
        }
    }
}

/// What a storage of assets of any type answers when asked for an asset of
/// a given type: the asset must be loaded, and be of that type.
pub fn typed_handle_outcome(loaded: bool, type_matches: bool) -> (r: Result<(), AssetStorageError>)
    ensures
        r == (if !loaded {
            Err::<(), AssetStorageError>(AssetStorageError::AssetNotExist)
        } else if !type_matches {
            Err(AssetStorageError::InvalidType)
        } else {
            Ok(())
        }),
{
    if !loaded {
        return Err(AssetStorageError::AssetNotExist);
    }
    if !type_matches {
        return Err(AssetStorageError::InvalidType);
    }
    Ok(())
}

/// Whether a file is taken from what is already loaded, given how looking
/// it up by path went: a handle found is reused; a path with no asset means
/// the file is loaded anew; an asset of another type under the path is an
/// error.
pub fn reuse_outcome(lookup: Result<(), AssetStorageError>) -> (r: Result<bool, AssetStorageError>)
    ensures
        r == (match lookup {
            Ok(()) => Ok::<bool, AssetStorageError>(true),
            Err(AssetStorageError::InvalidType) => Err(AssetStorageError::AssetExistsDifferentType),
            Err(_) => Ok(false),
        }),
{
    match lookup {
        Ok(()) => Ok(true),
        Err(AssetStorageError::InvalidType) => Err(AssetStorageError::AssetExistsDifferentType),
        Err(_) => Ok(false),
    }
}

/// A storage of assets of type `T`.
pub struct AssetStorage<T: Asset> {
    sender: SignalSender,
    receiver: ReceiverType,
    current_id: HandleInner,
    loaded: HashMap<u32, Arc<T>>,
    handle_count: HashMap<u32, u32>,
    just_added: Vec<HandleInner>,
    removed_assets: Vec<HandleInner>,
    loaded_paths: StringHashMap<HandleInner>,
    asset_paths: HashMap<u32, String>,
}

/// Another name for `AssetStorage`.
pub type AssetStorageSingle<T> = AssetStorage<T>;

spec fn inner_ids(v: Seq<HandleInner>) -> Seq<u32> {
    v.map_values(|h: HandleInner| h.0)
}

impl<T: Asset> View for AssetStorage<T> {
    type V = StorageModel<T>;

    closed spec fn view(&self) -> StorageModel<T> {
        StorageModel {
            next_id: self.current_id.0,
            loaded: self.loaded@.map_values(|a: Arc<T>| *a),
            counts: self.handle_count@,
            just_added: inner_ids(self.just_added@),
            removed: inner_ids(self.removed_assets@),
            paths: self.loaded_paths@.map_values(|h: HandleInner| h.0),
            asset_paths: self.asset_paths@.map_values(|s: String| s@),
        }
    }
}

impl<T: Asset> AssetStorage<T> {
    /// The storage's records agree with its model's invariant.
    pub closed spec fn wf(&self) -> bool {
        storage_wf(self@)
    }

    /// A storage that keeps its invariant has a model that satisfies it.
    pub proof fn lemma_wf_model(&self)
        requires
            self.wf(),
        ensures
            storage_wf(self@),
    {
    }

    /// An empty storage with a fresh channel.
    pub fn new() -> (r: Self)
        ensures
            r.wf(),
            r@.next_id == 0,
            r@.loaded == Map::<u32, T>::empty(),
            r@.counts == Map::<u32, u32>::empty(),
            r@.just_added == Seq::<u32>::empty(),
            r@.removed == Seq::<u32>::empty(),
            r@.paths == Map::<Seq<char>, u32>::empty(),
            r@.asset_paths == Map::<u32, Seq<char>>::empty(),
    {
        let (sender, receiver) = new_channel();
        let r = AssetStorage {
            sender,
            receiver,
            current_id: HandleInner::from_id(0),
            loaded: HashMap::new(),
            handle_count: HashMap::new(),
            just_added: Vec::new(),
            removed_assets: Vec::new(),
            loaded_paths: StringHashMap::new(),
            asset_paths: HashMap::new(),
        };
        assert(r@.loaded =~= Map::<u32, T>::empty());
        assert(r@.just_added =~= Seq::<u32>::empty());
        assert(r@.removed =~= Seq::<u32>::empty());
        assert(r@.paths =~= Map::<Seq<char>, u32>::empty());
        assert(r@.asset_paths =~= Map::<u32, Seq<char>>::empty());
        r
    }

    /// The sending end of the storage's own signal channel, the one its
    /// receiver drains.
    pub closed spec fn spec_sender(&self) -> SignalSender {
        self.sender
    }

    /// The sending end of the storage's signal channel.
    pub fn get_sender(&self) -> (r: &SignalSender)
        ensures
            *r == self.spec_sender(),
    {
        &self.sender
    }

    /// The loaded assets by identifier.
    pub fn get_loaded(&self) -> (r: &HashMap<u32, Arc<T>>)
        ensures
            r@.map_values(|a: Arc<T>| *a) == self@.loaded,
    {
        &self.loaded
    }

    /// A strong handle to the asset `id`, if it is loaded.
    pub fn get_handle(&self, id: HandleInner) -> (r: Option<Handle<T>>)
        ensures
            r is Some <==> self@.loaded.contains_key(id.0),
            r matches Some(h) ==> h.spec_id() == id && h.is_strong() && h.asset() == self@.loaded[id.0],
            r matches Some(h) ==> h.sent() == seq![ReferenceCountSignal::Increase(h.spec_id())],
    {
        match self.loaded.get(&id.0) {
            Some(inner) => Some(Handle::strong(HandleID::new(id), clone_sender(&self.sender), inner.clone())),
            None => None,
        }
    }

    /// The asset `id`, if it is loaded.
    pub fn get_data(&self, id: HandleInner) -> (r: Option<&T>)
        ensures
            r is Some <==> self@.loaded.contains_key(id.0),
            r matches Some(a) ==> *a == self@.loaded[id.0],
    {
        match self.loaded.get(&id.0) {
            Some(val) => Some(&**val),
            None => None,
        }
    }

    /// Whether an asset loaded from `path` is in the storage.
    pub fn is_file_loaded(&self, path: &str) -> (r: bool)
        ensures
            r == self@.paths.contains_key(path@),
    {
        self.loaded_paths.contains_key(path)
    }

    /// The identifier of the asset loaded from `path`, if there is one.
    pub fn loaded_file_id(&self, path: &str) -> (r: Option<HandleInner>)
        ensures
            r is Some <==> self@.paths.contains_key(path@),
            r matches Some(id) ==> id.0 == self@.paths[path@],
    {
        match self.loaded_paths.get(path) {
            Some(id) => Some(*id),
            None => None,
        }
    }

    /// A strong handle to the asset loaded from `path`, if there is one.
    pub fn get_loaded_file(&self, path: &str) -> (r: Option<Handle<T>>)
        requires
            self.wf(),
        ensures
            r is Some <==> self@.paths.contains_key(path@),
            r matches Some(h) ==> h.spec_id().0 == self@.paths[path@] && h.is_strong() && h.asset()
                == self@.loaded[self@.paths[path@]],
            r matches Some(h) ==> h.sent() == seq![ReferenceCountSignal::Increase(h.spec_id())],
    {
        match self.loaded_paths.get(path) {
            Some(id) => {
                let id = *id;
                assert(self@.paths.contains_key(path@));
                assert(self@.asset_paths.contains_key(id.0));
                match self.loaded.get(&id.0) {
                    Some(inner) => Some(Handle::strong(HandleID::new(id), clone_sender(&self.sender), inner.clone())),
                    None => {
                        assert(false);
                        None
                    },
                }
            },
            None => None,
        }
    }

    /// Adds an asset loaded from `path`, unless an asset from that path is
    /// already loaded: then the given asset is dropped and a strong handle
    /// to the loaded one is returned.
    pub fn add_asset_file(&mut self, asset: T, path: &str) -> (r: Handle<T>)
        requires
            old(self).wf(),
            old(self)@.paths.contains_key(path@) || old(self)@.next_id < u32::MAX,
        ensures
            final(self).wf(),
            r.is_strong(),
            r.sent() == seq![ReferenceCountSignal::Increase(r.spec_id())],
            old(self)@.paths.contains_key(path@) ==> {
                &&& final(self)@ == old(self)@
                &&& r.spec_id().0 == old(self)@.paths[path@]
                &&& r.asset() == old(self)@.loaded[old(self)@.paths[path@]]
            },
            !old(self)@.paths.contains_key(path@) ==> {
                &&& final(self)@ == add_file_model(old(self)@, asset, path@)
                &&& r.spec_id().0 == old(self)@.next_id
                &&& r.asset() == asset
            },
    {
        if let Some(handle) = self.get_loaded_file(path) {
            return handle;
        }
        let ghost m0 = self@;
        let handle = self.add_asset(asset);
        let id = handle.inner_id();
        let ghost m1 = self@;
        self.loaded_paths.insert(path.to_owned(), id);
        self.asset_paths.insert(id.0, path.to_owned());
        proof {
            let target = add_file_model(m0, asset, path@);
            assert(self@.paths =~= target.paths);
            assert(self@.asset_paths =~= target.asset_paths);
            assert(!m1.asset_paths.contains_key(id.0));
        }
        handle
    }

    /// Applies one signal: an increase adds one to the count of its asset; a
    /// decrease takes one away, and an asset whose count reaches zero is
    /// recorded as removed. A signal for an asset that is not loaded, or one
    /// that would take a count past its bounds, changes nothing and is
    /// reported.
    pub fn apply_signal(&mut self, signal: ReferenceCountSignal) -> (r: Result<(), SignalError>)
        requires
            old(self).wf(),
        ensures
            final(self).wf(),
            match apply_signal_model(old(self)@, signal) {
                Ok(m) => r is Ok && final(self)@ == m,
                Err(e) => r == Err::<(), SignalError>(e) && final(self)@ == old(self)@,
            },
    {
        let ghost m0 = self@;
        match signal {
            ReferenceCountSignal::Increase(id) => {
                let count = match self.handle_count.get(&id.0) {
                    Some(c) => *c,
                    None => {
                        return Err(SignalError::UnknownHandle(id));
                    },
                };
                if count == u32::MAX {
                    return Err(SignalError::CountOverflow(id));
                }
                self.handle_count.insert(id.0, count + 1);
                proof {
                    assert(self@.counts.dom() =~= m0.counts.dom());
                }
                Ok(())
            },
            ReferenceCountSignal::Decrease(id) => {
                let count = match self.handle_count.get(&id.0) {
                    Some(c) => *c,
                    None => {
                        return Err(SignalError::UnknownHandle(id));
                    },
                };
                if count == 0 {
                    return Err(SignalError::CountUnderflow(id));
                }
                self.handle_count.insert(id.0, count - 1);
                if count - 1 == 0 {
                    self.removed_assets.push(id);
                }
                proof {
                    assert(self@.counts.dom() =~= m0.counts.dom());
                    assert(self@.removed =~= (if count - 1 == 0 {
                        m0.removed.push(id.0)
                    } else {
                        m0.removed
                    }));
                }
                Ok(())
            },
        }
    }

    /// Forgets the assets recorded as removed, then applies the signals
    /// waiting in the channel in the order they were sent. Which signals were
    /// waiting is up to the handles: the state is what applying some sequence
    /// of signals gives, and an error names a signal that could not be
    /// applied, after those before it were; the signals taken after it are
    /// dropped.
    pub fn check_asset_changes(&mut self) -> (r: Result<(), SignalError>)
        requires
            old(self).wf(),
        ensures
            final(self).wf(),
            exists|sigs: Seq<ReferenceCountSignal>|
                #[trigger] apply_signals_model(clear_removed_model(old(self)@), sigs) == Ok::<
                    StorageModel<T>,
                    SignalError,
                >(final(self)@),
            r matches Err(e) ==> exists|s: ReferenceCountSignal| apply_signal_model(final(self)@, s) == Err::<
                StorageModel<T>,
                SignalError,
            >(e),
    {
        self.removed_assets.clear();
        let ghost start = self@;
        proof {
            assert(start == clear_removed_model(old(self)@)) by {
                assert(start.removed =~= Seq::<u32>::empty());
            }
        }
        let signals = drain_signals(&self.receiver);
        let r = self.apply_signals(&signals);
        proof {
            match apply_signals_model(start, signals@) {
                Ok(m) => {
                    assert(apply_signals_model(start, signals@) == Ok::<StorageModel<T>, SignalError>(self@));
                },
                Err(e) => {
                    let k = choose|k: int|
                        0 <= k < signals@.len() && apply_signals_model(start, signals@.take(k)) == Ok::<
                            StorageModel<T>,
                            SignalError,
                        >(self@) && apply_signal_model(self@, signals@[k]) == Err::<StorageModel<T>, SignalError>(e);
                    assert(apply_signals_model(start, signals@.take(k)) == Ok::<StorageModel<T>, SignalError>(self@));
                },
            }
        }
        r
    }

    /// Applies `signals` in order, as `apply_signal` does one. At the first
    /// signal that cannot be applied the error is returned, with the signals
    /// before it applied and none after it.
    pub fn apply_signals(&mut self, signals: &Vec<ReferenceCountSignal>) -> (r: Result<(), SignalError>)
        requires
            old(self).wf(),
        ensures
            final(self).wf(),
            match apply_signals_model(old(self)@, signals@) {
                Ok(m) => r is Ok && final(self)@ == m,
                Err(e) => r == Err::<(), SignalError>(e) && exists|k: int|
                    0 <= k < signals@.len() && apply_signals_model(old(self)@, signals@.take(k)) == Ok::<
                        StorageModel<T>,
                        SignalError,
                    >(final(self)@) && apply_signal_model(final(self)@, signals@[k]) == Err::<
                        StorageModel<T>,
                        SignalError,
                    >(e),
            },
    {
        let ghost start = self@;
        proof {
            assert(signals@.take(0) =~= Seq::<ReferenceCountSignal>::empty());
        }
        let mut i: usize = 0;
        while i < signals.len()
            invariant
                self.wf(),
                start == old(self)@,
                i <= signals@.len(),
                apply_signals_model(start, signals@.take(i as int)) == Ok::<StorageModel<T>, SignalError>(self@),
            decreases signals@.len() - i,
        {
            let signal = signals[i];
            proof {
                let t = signals@.take(i + 1);
                assert(t.drop_last() =~= signals@.take(i as int));
                assert(t.last() == signal);
            }
            let ghost before = self@;
            match self.apply_signal(signal) {
                Ok(()) => {},
                Err(e) => {
                    proof {
                        assert(self@ == before);
                        assert(apply_signal_model(before, signal) == Err::<StorageModel<T>, SignalError>(e));
                        assert(apply_signals_model(start, signals@.take(i + 1)) == Err::<StorageModel<T>, SignalError>(e));
                        lemma_signals_error_stays(start, signals@, i + 1, e);
                        assert(signals@[i as int] == signal);
                        assert(0 <= i < signals@.len() && apply_signals_model(start, signals@.take(i as int)) == Ok::<
                            StorageModel<T>,
                            SignalError,
                        >(self@) && apply_signal_model(self@, signals@[i as int]) == Err::<StorageModel<T>, SignalError>(e));
                    }
                    return Err(e);
                },
            }
            i = i + 1;
        }
        proof {
            assert(signals@.take(i as int) =~= signals@);
        }
        Ok(())
    }

    /// Unloads the assets recorded as removed, with their counts, and frees
    /// the paths they were loaded from.
    pub fn remove_pending_assets(&mut self)
        requires
            old(self).wf(),
        ensures
            final(self).wf(),
            final(self)@ == remove_pending_model(old(self)@),
            forall|p: Seq<char>|
                #[trigger] old(self)@.paths.contains_key(p) && !old(self)@.removed.contains(old(self)@.paths[p])
                    ==> final(self)@.paths.contains_key(p) && final(self)@.paths[p] == old(self)@.paths[p],
            forall|id: u32|
                #[trigger] old(self)@.loaded.contains_key(id) && !old(self)@.removed.contains(id)
                    ==> final(self)@.loaded.contains_key(id) && final(self)@.loaded[id] == old(self)@.loaded[id],
            forall|id: u32| #[trigger] old(self)@.removed.contains(id) ==> !final(self)@.loaded.contains_key(id),
    {
        let ghost m0 = self@;
        let n = self.removed_assets.len();
        let mut i: usize = 0;
        while i < n
            invariant
                n == self.removed_assets@.len(),
                i <= n,
                self@.removed == m0.removed,
                self@.next_id == m0.next_id,
                self@.just_added == m0.just_added,
                self@.paths == m0.paths,
                self@.asset_paths == m0.asset_paths,
                self@.loaded == m0.loaded.remove_keys(m0.removed.take(i as int).to_set()),
                self@.counts == m0.counts.remove_keys(m0.removed.take(i as int).to_set()),
            decreases n - i,
        {
            let id = self.removed_assets[i];
            let ghost before = self@;
            self.loaded.remove(&id.0);
            self.handle_count.remove(&id.0);
            proof {
                lemma_take_to_set_step(m0.removed, i as int);
                assert(m0.removed[i as int] == id.0);
                assert(self@.loaded =~= before.loaded.remove(id.0));
                assert(self@.loaded =~= m0.loaded.remove_keys(m0.removed.take(i + 1).to_set()));
                assert(self@.counts =~= m0.counts.remove_keys(m0.removed.take(i + 1).to_set()));
            }
            i = i + 1;
        }
        proof {
            assert(m0.removed.take(n as int) =~= m0.removed);
            assert(m0.removed.take(0).to_set() =~= Set::<u32>::empty());
            assert(m0.asset_paths.remove_keys(Set::<u32>::empty()) =~= m0.asset_paths);
            assert(paths_of(m0.asset_paths, Set::<u32>::empty()) =~= Set::<Seq<char>>::empty());
            assert(m0.paths.remove_keys(Set::<Seq<char>>::empty()) =~= m0.paths);
        }
        let mut i: usize = 0;
        while i < n
            invariant
                n == self.removed_assets@.len(),
                i <= n,
                storage_wf(m0),
                self@.removed == m0.removed,
                self@.next_id == m0.next_id,
                self@.just_added == m0.just_added,
                self@.loaded == m0.loaded.remove_keys(m0.removed.to_set()),
                self@.counts == m0.counts.remove_keys(m0.removed.to_set()),
                self@.asset_paths == m0.asset_paths.remove_keys(m0.removed.take(i as int).to_set()),
                self@.paths == m0.paths.remove_keys(paths_of(m0.asset_paths, m0.removed.take(i as int).to_set())),
            decreases n - i,
        {
            let id = self.removed_assets[i];
            let ghost before = self@;
            let removed = self.asset_paths.remove(&id.0);
            match removed {
                Some(path) => {
                    let ghost lp = self.loaded_paths@;
                    let pstr = path.as_str();
                    assert(pstr@ == path@);
                    self.loaded_paths.remove(pstr);
                    assert(self.loaded_paths@ == lp.remove(path@));
                    assert(path@ == before.asset_paths[id.0]);
                },
                None => {},
            }
            proof {
                let g0 = m0.removed.take(i as int).to_set();
                let g1 = m0.removed.take(i + 1).to_set();
                lemma_take_to_set_step(m0.removed, i as int);
                assert(m0.removed[i as int] == id.0);
                assert(self@.asset_paths =~= before.asset_paths.remove(id.0));
                assert(self@.asset_paths =~= m0.asset_paths.remove_keys(g1));
                let p0 = paths_of(m0.asset_paths, g0);
                let p1 = paths_of(m0.asset_paths, g1);
                assert forall|p: Seq<char>| p1.contains(p) <==> (p0.contains(p) || (m0.asset_paths.contains_key(id.0)
                    && m0.asset_paths[id.0] == p)) by {
                    if p1.contains(p) {
                        let x = choose|x: u32| #[trigger] g1.contains(x) && m0.asset_paths.contains_key(x)
                            && m0.asset_paths[x] == p;
                        if x != id.0 {
                            assert(g0.contains(x));
                        }
                    }
                    if p0.contains(p) {
                        let x = choose|x: u32| #[trigger] g0.contains(x) && m0.asset_paths.contains_key(x)
                            && m0.asset_paths[x] == p;
                        assert(g1.contains(x));
                    }
                    if m0.asset_paths.contains_key(id.0) && m0.asset_paths[id.0] == p {
                        assert(g1.contains(id.0));
                    }
                }
                if before.asset_paths.contains_key(id.0) {
                    assert(self@.paths =~= before.paths.remove(m0.asset_paths[id.0]));
                } else {
                    assert(self@.paths =~= before.paths);
                    if m0.asset_paths.contains_key(id.0) {
                        assert(g0.contains(id.0));
                        assert(p0.contains(m0.asset_paths[id.0]));
                    }
                }
                assert(self@.paths =~= m0.paths.remove_keys(paths_of(m0.asset_paths, g1)));
            }
            i = i + 1;
        }
        proof {
            assert(m0.removed.take(n as int) =~= m0.removed);
            let m1 = remove_pending_model(m0);
            assert(self@ == m1);
            assert(storage_wf(m1)) by {
                lemma_remove_pending_wf(m0);
            }
            lemma_remove_pending_keeps_others(m0);
        }
    }

    /// Forgets which assets were added since the last tick.
    pub fn clear_just_added(&mut self)
        requires
            old(self).wf(),
        ensures
            final(self).wf(),
            final(self)@ == clear_just_added_model(old(self)@),
    {
        let ghost m0 = self@;
        self.just_added.clear();
        assert(self@.just_added =~= Seq::<u32>::empty());
        assert(self@.loaded == m0.loaded);
        assert(self@.counts == m0.counts);
        assert(self@.paths == m0.paths);
        assert(self@.asset_paths == m0.asset_paths);
    }

    /// Applies the waiting signals, unloads the assets no strong handle is
    /// left for, and forgets which assets were just added. When a signal
    /// cannot be applied, the error is returned and nothing is unloaded.
    pub fn tick(&mut self) -> (r: Result<(), SignalError>)
        requires
            old(self).wf(),
        ensures
            final(self).wf(),
            r is Ok ==> (exists|sigs: Seq<ReferenceCountSignal>|
                #[trigger] apply_signals_model(clear_removed_model(old(self)@), sigs) matches Ok(m)
                    && final(self)@ == clear_just_added_model(remove_pending_model(m))),
            r matches Err(e) ==> {
                &&& exists|sigs: Seq<ReferenceCountSignal>|
                    #[trigger] apply_signals_model(clear_removed_model(old(self)@), sigs) == Ok::<
                        StorageModel<T>,
                        SignalError,
                    >(final(self)@)
                &&& exists|s: ReferenceCountSignal| apply_signal_model(final(self)@, s) == Err::<
                    StorageModel<T>,
                    SignalError,
                >(e)
            },
    {
        match self.check_asset_changes() {
            Ok(()) => {},
            Err(e) => {
                return Err(e);
            },
        }
        self.remove_pending_assets();
        self.clear_just_added();
        Ok(())
    }

    /// Whether every asset added since the last tick is still loaded.
    pub fn just_added_loaded(&self) -> (r: bool)
        ensures
            r == forall|i: int| 0 <= i < self@.just_added.len() ==> self@.loaded.contains_key(#[trigger] self@.just_added[i]),
    {
        let mut i: usize = 0;
        while i < self.just_added.len()
            invariant
                i <= self@.just_added.len(),
                forall|j: int| 0 <= j < i ==> self@.loaded.contains_key(#[trigger] self@.just_added[j]),
            decreases self@.just_added.len() - i,
        {
            if !self.loaded.contains_key(&self.just_added[i].0) {
                assert(!self@.loaded.contains_key(self@.just_added[i as int]));
                return false;
            }
            i = i + 1;
        }
        true
    }

    /// Strong handles to the assets added since the last tick, in the order
    /// they were added. Each must still be loaded.
    pub fn get_just_added(&self) -> (r: Vec<Handle<T>>)
        requires
            forall|i: int| 0 <= i < self@.just_added.len() ==> self@.loaded.contains_key(#[trigger] self@.just_added[i]),
        ensures
            r@.len() == self@.just_added.len(),
            forall|i: int|
                0 <= i < r@.len() ==> (#[trigger] r@[i]).spec_id().0 == self@.just_added[i] && !r@[i].is_strong()
                    && r@[i].sent() == Seq::<ReferenceCountSignal>::empty()
                    && r@[i].asset() == self@.loaded[self@.just_added[i]],
    {
        let mut out: Vec<Handle<T>> = Vec::new();
        let mut i: usize = 0;
        while i < self.just_added.len()
            invariant
                i <= self@.just_added.len(),
                forall|j: int| 0 <= j < self@.just_added.len() ==> self@.loaded.contains_key(#[trigger] self@.just_added[j]),
                out@.len() == i,
                forall|j: int|
                    0 <= j < i ==> (#[trigger] out@[j]).spec_id().0 == self@.just_added[j] && !out@[j].is_strong()
                        && out@[j].sent() == Seq::<ReferenceCountSignal>::empty()
                        && out@[j].asset() == self@.loaded[self@.just_added[j]],
            decreases self@.just_added.len() - i,
        {
            let id = self.just_added[i];
            assert(self@.just_added[i as int] == id.0);
            match self.loaded.get(&id.0) {
                Some(inner) => {
                    out.push(Handle::weak(HandleID::new(id), inner.clone()));
                },
                None => {
                    assert(false);
                },
            }
            i = i + 1;
        }
        out
    }

    /// The identifier the next added asset gets.
    pub fn peek_next_id(&self) -> (r: HandleInner)
        ensures
            r.0 == self@.next_id,
    {
        self.current_id
    }

    /// The assets recorded as removed in the last check.
    pub fn get_removed_assets(&self) -> (r: &Vec<HandleInner>)
        ensures
            r@.map_values(|h: HandleInner| h.0) == self@.removed,
    {
        &self.removed_assets
    }

    /// Takes the next identifier and advances the counter.
    fn get_next_id(&mut self) -> (r: HandleInner)
        requires
            old(self).current_id.0 < u32::MAX,
        ensures
            r == old(self).current_id,
            final(self).current_id.0 == old(self).current_id.0 + 1,
            final(self).loaded == old(self).loaded,
            final(self).handle_count == old(self).handle_count,
            final(self).just_added == old(self).just_added,
            final(self).removed_assets == old(self).removed_assets,
            final(self).loaded_paths == old(self).loaded_paths,
            final(self).asset_paths == old(self).asset_paths,
    {
        let to_return = self.current_id;
        self.current_id.next();
        to_return
    }

    /// Adds an asset under the next identifier, with no strong handle
    /// counted yet, and returns a strong handle to it, whose own signal the
    /// storage counts at its next check.
    pub fn add_asset(&mut self, asset: T) -> (r: Handle<T>)
        requires
            old(self).wf(),
            old(self)@.next_id < u32::MAX,
        ensures
            final(self).wf(),
            final(self)@ == add_model(old(self)@, asset),
            r.spec_id().0 == old(self)@.next_id,
            !old(self)@.loaded.contains_key(r.spec_id().0),
            r.is_strong(),
            r.sent() == seq![ReferenceCountSignal::Increase(r.spec_id())],
            r.asset() == asset,
    {
        let ghost m0 = self@;
        let id = self.get_next_id();
        let data_access = Arc::new(asset);
        self.loaded.insert(id.0, data_access.clone());
        self.handle_count.insert(id.0, 0);
        self.just_added.push(id);
        proof {
            let m1 = add_model(m0, asset);
            assert(self@.loaded =~= m1.loaded);
            assert(self@.just_added =~= m1.just_added);
            assert(self@.paths =~= m1.paths);
            assert(self@.asset_paths =~= m1.asset_paths);
        }
        Handle::strong(HandleID::new(id), clone_sender(&self.sender), data_access)
    }
}


/// A storage whose assets are loaded from files with the help of some data
/// `D`, each file once while it is in use.
pub struct LoadableAssetStorage<D, T: AssetLoadable<D>> {
    inner: AssetStorage<T>,
    phantom: PhantomData<D>,
    load_path: String,
}

impl<D, T: AssetLoadable<D>> LoadableAssetStorage<D, T> {
    /// The model of the storage inside.
    pub closed spec fn spec_inner(&self) -> StorageModel<T> {
        self.inner@
    }

    /// The storage inside keeps its invariant.
    pub closed spec fn wf(&self) -> bool {
        self.inner.wf()
    }

    /// A storage that keeps its invariant has a model that satisfies it.
    pub proof fn lemma_wf_model(&self)
        requires
            self.wf(),
        ensures
            storage_wf(self.spec_inner()),
    {
    }

    /// The path a file is loaded from: `path` taken relative to the
    /// storage's folder.
    pub fn full_path(&self, path: &str) -> (r: String)
        ensures
            r@ == self.spec_load_path() + path@,
    {
        self.load_path.clone().concat(path)
    }

    /// The folder that paths are taken relative to.
    pub closed spec fn spec_load_path(&self) -> Seq<char> {
        self.load_path@
    }

    /// An empty storage that takes paths as they are given.
    pub fn new() -> (r: Self)
        ensures
            r.wf(),
            r.spec_inner().next_id == 0,
            r.spec_inner().loaded == Map::<u32, T>::empty(),
            r.spec_inner().paths == Map::<Seq<char>, u32>::empty(),
            r.spec_load_path() == Seq::<char>::empty(),
    {
        LoadableAssetStorage { inner: AssetStorage::new(), phantom: PhantomData, load_path: String::new() }
    }

    /// A strong handle to the asset loaded from `path`, if there is one.
    pub fn get_file_loaded(&self, path: &str) -> (r: Option<Handle<T>>)
        requires
            self.wf(),
        ensures
            r is Some <==> self.spec_inner().paths.contains_key(path@),
            r matches Some(h) ==> h.spec_id().0 == self.spec_inner().paths[path@] && h.is_strong(),
            r matches Some(h) ==> h.sent() == seq![ReferenceCountSignal::Increase(h.spec_id())],
    {
        self.inner.get_loaded_file(path)
    }

    /// A strong handle to the asset loaded from `path`: the one already
    /// loaded, or a new one loaded from the file with the help of `data`.
    pub fn load_from_file(&mut self, path: String, data: D) -> (r: Handle<T>)
        requires
            old(self).wf(),
            old(self).spec_inner().paths.contains_key(path@) || old(self).spec_inner().next_id < u32::MAX,
        ensures
            final(self).wf(),
            final(self).spec_load_path() == old(self).spec_load_path(),
            r.is_strong(),
            r.sent() == seq![ReferenceCountSignal::Increase(r.spec_id())],
            old(self).spec_inner().paths.contains_key(path@) ==> {
                &&& final(self).spec_inner() == old(self).spec_inner()
                &&& r.spec_id().0 == old(self).spec_inner().paths[path@]
            },
            !old(self).spec_inner().paths.contains_key(path@) ==> {
                &&& final(self).spec_inner() == add_file_model(old(self).spec_inner(), r.asset(), path@)
                &&& r.spec_id().0 == old(self).spec_inner().next_id
            },
    {
        if let Some(handle) = self.get_file_loaded(path.as_str()) {
            return handle;
        }
        let full_path = self.full_path(path.as_str());
        let asset = T::load_from_file(full_path, data);
        self.inner.add_asset_file(asset, path.as_str())
    }

    /// Adds an asset that was not loaded from a file.
    pub fn load_asset(&mut self, asset: T) -> (r: Handle<T>)
        requires
            old(self).wf(),
            old(self).spec_inner().next_id < u32::MAX,
        ensures
            final(self).wf(),
            final(self).spec_inner() == add_model(old(self).spec_inner(), asset),
            final(self).spec_load_path() == old(self).spec_load_path(),
            r.spec_id().0 == old(self).spec_inner().next_id,
            r.is_strong(),
            r.sent() == seq![ReferenceCountSignal::Increase(r.spec_id())],
            r.asset() == asset,
    {
        self.inner.add_asset(asset)
    }

    /// Applies the waiting signals, unloads the assets no strong handle is
    /// left for and frees their paths, and forgets which assets were just
    /// added.
    pub fn tick(&mut self) -> (r: Result<(), SignalError>)
        requires
            old(self).wf(),
        ensures
            final(self).wf(),
            final(self).spec_load_path() == old(self).spec_load_path(),
            r is Ok ==> (exists|sigs: Seq<ReferenceCountSignal>|
                #[trigger] apply_signals_model(clear_removed_model(old(self).spec_inner()), sigs) matches Ok(m)
                    && final(self).spec_inner() == clear_just_added_model(remove_pending_model(m))),
            r matches Err(e) ==> {
                &&& exists|sigs: Seq<ReferenceCountSignal>|
                    #[trigger] apply_signals_model(clear_removed_model(old(self).spec_inner()), sigs) == Ok::<
                        StorageModel<T>,
                        SignalError,
                    >(final(self).spec_inner())
                &&& exists|s: ReferenceCountSignal| apply_signal_model(final(self).spec_inner(), s) == Err::<
                    StorageModel<T>,
                    SignalError,
                >(e)
            },
    {
        let r = self.inner.tick();
        proof {
            if r is Ok {
                let sigs = choose|sigs: Seq<ReferenceCountSignal>|
                    #[trigger] apply_signals_model(clear_removed_model(old(self).inner@), sigs) matches Ok(m)
                        && self.inner@ == clear_just_added_model(remove_pending_model(m));
                assert(apply_signals_model(clear_removed_model(old(self).spec_inner()), sigs) matches Ok(m)
                    && self.spec_inner() == clear_just_added_model(remove_pending_model(m)));
            } else {
                let sigs = choose|sigs: Seq<ReferenceCountSignal>|
                    #[trigger] apply_signals_model(clear_removed_model(old(self).inner@), sigs) == Ok::<
                        StorageModel<T>,
                        SignalError,
                    >(self.inner@);
                assert(apply_signals_model(clear_removed_model(old(self).spec_inner()), sigs) == Ok::<
                    StorageModel<T>,
                    SignalError,
                >(self.spec_inner()));
                let s = choose|s: ReferenceCountSignal| apply_signal_model(self.inner@, s) == Err::<
                    StorageModel<T>,
                    SignalError,
                >(r->Err_0);
                assert(apply_signal_model(self.spec_inner(), s) == Err::<StorageModel<T>, SignalError>(r->Err_0));
            }
        }
        r
    }
}

} // verus!

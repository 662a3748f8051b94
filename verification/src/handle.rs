//! Handles to loaded assets and the reference-count signals they send.

use std::marker::PhantomData;
use std::sync::Arc;

use vstd::prelude::*;

verus! {

/// The plain number that identifies an asset inside its storage.
#[derive(Clone, Copy, Debug, PartialEq, Eq, Hash, Structural)]
pub struct HandleInner(pub u32);

impl HandleInner {
    /// Builds the identifier with the given number.
    pub fn from_id(id: u32) -> (r: Self)
        ensures
            r.0 == id,
    {
        HandleInner(id)
    }

    /// Advances the identifier to the next number.
    pub fn next(&mut self)
        requires
            old(self).0 < u32::MAX,
        ensures
            final(self).0 == old(self).0 + 1,
    {
        self.0 = self.0 + 1;
    }
}

/// Anything that can be kept in an asset storage.
pub trait Asset: Send + Sync + 'static {
    /// A readable name of the kind of asset.
    fn asset_name(&self) -> &str;
}

/// An asset that can be loaded from a file.
pub trait AssetFileLoadable: Asset + Sized {
    /// Loads the asset from the file at `path`.
    fn load_from_file(path: &str) -> Self;

    /// The asset used when a file cannot be loaded.
    fn load_default() -> Self;
}

/// An asset that can be loaded from a file with the help of some data `D`.
pub trait AssetLoadable<D>: Asset + Sized {
    /// Loads the asset from the file at `path`, using `data`.
    fn load_from_file(path: String, data: D) -> Self;

    /// The asset used when a file cannot be loaded.
    fn load_default(data: D) -> Self;
}

/// The typed identifier of an asset of type `T`.
pub struct HandleID<T: Asset> {
    pub(crate) id: HandleInner,
    data: PhantomData<T>,
}

impl<T: Asset> View for HandleID<T> {
    type V = HandleInner;

    closed spec fn view(&self) -> HandleInner {
        self.id
    }
}

impl<T: Asset> HandleID<T> {
    /// Wraps a plain identifier.
    pub fn new(id: HandleInner) -> (r: Self)
        ensures
            r@ == id,
    {
        HandleID { id, data: PhantomData }
    }

    /// The plain identifier.
    pub fn id(&self) -> (r: HandleInner)
        ensures
            r == self@,
    {
        self.id
    }
}

impl<T: Asset> Clone for HandleID<T> {
    fn clone(&self) -> (r: Self)
        ensures
            r == *self,
    {
        HandleID { id: self.id, data: PhantomData }
    }
}

impl<T: Asset> Copy for HandleID<T> {}

impl<T: Asset> PartialEq for HandleID<T> {
    fn eq(&self, other: &Self) -> (r: bool) {
        self.id.0 == other.id.0
    }
}

impl<T: Asset> vstd::std_specs::cmp::PartialEqSpecImpl for HandleID<T> {
    open spec fn obeys_eq_spec() -> bool {
        true
    }

    open spec fn eq_spec(&self, other: &Self) -> bool {
        self@ == other@
    }
}

impl<T: Asset> From<HandleID<T>> for HandleInner {
    /// The plain identifier inside a typed one.
    fn from(v: HandleID<T>) -> (r: Self) {
        v.id
    }
}

impl<T: Asset> vstd::std_specs::convert::FromSpecImpl<HandleID<T>> for HandleInner {
    open spec fn obeys_from_spec() -> bool {
        true
    }

    open spec fn from_spec(v: HandleID<T>) -> Self {
        v@
    }
}

/// What a handle tells its storage when it appears or goes away.
#[derive(Clone, Copy, Debug, PartialEq, Eq, Structural)]
pub enum ReferenceCountSignal {
    /// One more strong handle to the asset exists.
    Increase(HandleInner),
    /// One strong handle to the asset is gone.
    Decrease(HandleInner),
}

/// The signal type used by the storage that keeps assets of any type.
pub type ReferenceCountSignalX = ReferenceCountSignal;

/// The sending end of a storage's signal channel.
pub type SenderType = crossbeam::channel::Sender<ReferenceCountSignal>;

/// The receiving end of a storage's signal channel.
pub type ReceiverType = crossbeam::channel::Receiver<ReferenceCountSignal>;

#[verifier::external_type_specification]
#[verifier::external_body]
#[verifier::reject_recursive_types(T)]
pub struct ExSender<T>(crossbeam::channel::Sender<T>);

#[verifier::external_type_specification]
#[verifier::external_body]
#[verifier::reject_recursive_types(T)]
pub struct ExReceiver<T>(crossbeam::channel::Receiver<T>);

/// The sending end of a storage's signal channel, together with the signals
/// this sender has handed to the channel, oldest first. Its fields are
/// private and only `new_channel` and `clone_sender` make one, so it always
/// sends into a channel made by `crossbeam::channel::unbounded`, which has no
/// capacity limit.
pub struct SignalSender {
    sender: SenderType,
    sent: Ghost<Seq<ReferenceCountSignal>>,
}

impl SignalSender {
    /// The signals this sender has handed to its channel, oldest first.
    pub closed spec fn sent(&self) -> Seq<ReferenceCountSignal> {
        self.sent@
    }
}

/// Calls `crossbeam::channel::unbounded`, which makes a fresh channel with no
/// capacity limit. Nothing is claimed of the pair beyond its type.
#[verifier::external_body]
fn unbounded_pair() -> (SenderType, ReceiverType) {
    crossbeam::channel::unbounded()
}

/// Calls `Sender::clone` of crossbeam, which gives another sender of the same
/// channel. Nothing is claimed of it beyond its type: the channel is not
/// modelled.
#[verifier::external_body]
fn clone_raw(sender: &SenderType) -> SenderType {
    sender.clone()
}

/// A fresh unbounded channel: its sending end, which has sent nothing yet,
/// and its receiving end.
pub(crate) fn new_channel() -> (r: (SignalSender, ReceiverType))
    ensures
        r.0.sent() == Seq::<ReferenceCountSignal>::empty(),
{
    let (sender, receiver) = unbounded_pair();
    (SignalSender { sender, sent: Ghost(Seq::empty()) }, receiver)
}

/// Another sender of the same channel, which has sent nothing yet.
pub(crate) fn clone_sender(sender: &SignalSender) -> (r: SignalSender)
    ensures
        r.sent() == Seq::<ReferenceCountSignal>::empty(),
{
    SignalSender { sender: clone_raw(&sender.sender), sent: Ghost(Seq::empty()) }
}

/// Calls `Sender::send` of crossbeam with `signal`, and records `signal` as
/// handed to the channel. A `SignalSender` always belongs to an unbounded
/// channel, on which `send` queues the signal without blocking, or hands it
/// back when every receiver is gone; that outcome is dropped here. The
/// contract claims that the call returns without unwinding, which the source
/// shows for an unbounded channel, and that the record gains exactly the
/// signal given to `send`; whether the signal reaches a receiver is left
/// unsaid.
#[verifier::external_body]
pub(crate) fn send_signal(sender: &mut SignalSender, signal: ReferenceCountSignal)
    ensures
        final(sender).sent() == old(sender).sent().push(signal),
    opens_invariants none
    no_unwind
{
    let _ = sender.sender.send(signal);
}

impl Clone for SignalSender {
    /// Another sender of the same channel, which has sent nothing yet.
    fn clone(&self) -> (r: Self)
        ensures
            r.sent() == Seq::<ReferenceCountSignal>::empty(),
    {
        clone_sender(self)
    }
}

/// The signal that a new strong handle to `id` sends to its storage.
pub fn increase_signal(id: HandleInner) -> (r: ReferenceCountSignal)
    ensures
        r == ReferenceCountSignal::Increase(id),
{
    ReferenceCountSignal::Increase(id)
}

/// Calls `Receiver::try_iter` of crossbeam and collects what it yields: the
/// signals waiting in the channel, taken off it in the order they were sent,
/// until none is waiting. What comes back depends on what other threads have
/// sent, so nothing is claimed of it.
#[verifier::external_body]
pub(crate) fn drain_signals(receiver: &ReceiverType) -> Vec<ReferenceCountSignal> {
    receiver.try_iter().collect()
}

/// Whether a handle keeps its asset loaded.
pub enum HandleType {
    /// The handle does not count towards keeping the asset loaded.
    Weak,
    /// The handle counts, and reports to its storage through the sender.
    Strong(SignalSender),
}

/// A shared reference to a loaded asset together with its identifier.
pub struct Handle<T: Asset> {
    handle_id: HandleID<T>,
    handle_type: HandleType,
    asset: Arc<T>,
    released: Ghost<Seq<ReferenceCountSignal>>,
}

impl<T: Asset> Handle<T> {
    /// The identifier of the asset this handle refers to.
    pub closed spec fn spec_id(&self) -> HandleInner {
        self.handle_id@
    }

    /// Whether the handle counts towards keeping its asset loaded.
    pub closed spec fn is_strong(&self) -> bool {
        self.handle_type is Strong
    }

    /// The asset the handle refers to.
    pub closed spec fn asset(&self) -> T {
        *self.asset
    }

    /// The signals this handle has handed to its storage's channel, oldest
    /// first.
    pub closed spec fn sent(&self) -> Seq<ReferenceCountSignal> {
        match self.handle_type {
            HandleType::Strong(sender) => sender.sent(),
            HandleType::Weak => self.released@,
        }
    }

    /// Makes a strong handle, telling the storage behind `sender` that one
    /// more strong handle to `handle_id` exists.
    pub fn strong(handle_id: HandleID<T>, sender: SignalSender, asset: Arc<T>) -> (r: Self)
        ensures
            r.spec_id() == handle_id@,
            r.is_strong(),
            r.asset() == *asset,
            r.sent() == sender.sent().push(ReferenceCountSignal::Increase(handle_id@)),
    {
        let mut sender = sender;
        send_signal(&mut sender, increase_signal(handle_id.id));
        Handle {
            handle_id,
            handle_type: HandleType::Strong(sender),
            asset,
            released: Ghost(Seq::empty()),
        }
    }

    /// Makes a weak handle, which does not keep the asset loaded and sends
    /// nothing.
    pub fn weak(handle_id: HandleID<T>, asset: Arc<T>) -> (r: Self)
        ensures
            r.spec_id() == handle_id@,
            !r.is_strong(),
            r.asset() == *asset,
            r.sent() == Seq::<ReferenceCountSignal>::empty(),
    {
        Handle { handle_id, handle_type: HandleType::Weak, asset, released: Ghost(Seq::empty()) }
    }

    /// The typed identifier of the asset.
    pub fn id(&self) -> (r: HandleID<T>)
        ensures
            r@ == self.spec_id(),
    {
        self.handle_id
    }

    /// The plain identifier of the asset.
    pub fn inner_id(&self) -> (r: HandleInner)
        ensures
            r == self.spec_id(),
    {
        self.handle_id.id
    }

    /// The asset itself.
    pub fn get(&self) -> (r: &T)
        ensures
            *r == self.asset(),
    {
        &self.asset
    }

    /// The name that the asset gives for its kind.
    pub fn asset_type_name(&self) -> &str {
        self.asset.asset_name()
    }

    /// Makes a weak handle to the same asset; nothing is sent.
    pub fn clone_weak(&self) -> (r: Self)
        ensures
            r.spec_id() == self.spec_id(),
            !r.is_strong(),
            r.asset() == self.asset(),
            r.sent() == Seq::<ReferenceCountSignal>::empty(),
    {
        Self::weak(self.handle_id, self.asset.clone())
    }

    /// The signal this handle sends to its storage when it stops counting:
    /// a decrease of its asset's count if it is strong, none if it is weak.
    pub fn release_signal(&self) -> (r: Option<ReferenceCountSignal>)
        ensures
            r == (if self.is_strong() {
                Some(ReferenceCountSignal::Decrease(self.spec_id()))
            } else {
                None
            }),
        opens_invariants none
        no_unwind
    {
        match &self.handle_type {
            HandleType::Weak => None,
            HandleType::Strong(_) => Some(ReferenceCountSignal::Decrease(self.handle_id.id)),
        }
    }

    /// Turns a strong handle into a weak one, telling the storage that one
    /// strong handle is gone. A weak handle stays as it is and sends nothing.
    pub fn to_weak(&mut self)
        ensures
            final(self).spec_id() == old(self).spec_id(),
            final(self).asset() == old(self).asset(),
            !final(self).is_strong(),
            final(self).sent() == (if old(self).is_strong() {
                old(self).sent().push(ReferenceCountSignal::Decrease(old(self).spec_id()))
            } else {
                old(self).sent()
            }),
    {
        let mut kind = HandleType::Weak;
        std::mem::swap(&mut kind, &mut self.handle_type);
        match kind {
            HandleType::Weak => {},
            HandleType::Strong(mut sender) => {
                send_signal(&mut sender, ReferenceCountSignal::Decrease(self.handle_id.id));
                proof {
                    self.released = Ghost(sender.sent());
                }
            },
        }
    }
}

impl<T: Asset> Clone for Handle<T> {
    /// A weak handle clones into a weak one, which sends nothing; a strong
    /// handle into a strong one, which tells the storage that one more strong
    /// handle exists.
    fn clone(&self) -> (r: Self)
        ensures
            r.spec_id() == self.spec_id(),
            r.is_strong() == self.is_strong(),
            r.asset() == self.asset(),
            r.sent() == (if self.is_strong() {
                seq![ReferenceCountSignal::Increase(self.spec_id())]
            } else {
                Seq::<ReferenceCountSignal>::empty()
            }),
    {
        match &self.handle_type {
            HandleType::Weak => self.clone_weak(),
            HandleType::Strong(sender) => {
                Self::strong(self.handle_id, clone_sender(sender), self.asset.clone())
            },
        }
    }
}

impl<T: Asset> Drop for Handle<T> {
    /// A strong handle tells its storage that it is gone: it sends its
    /// `release_signal`.
    fn drop(&mut self)
        opens_invariants none
        no_unwind
    {
        let signal = self.release_signal();
        if let HandleType::Strong(sender) = &mut self.handle_type {
            if let Some(s) = signal {
                send_signal(sender, s);
            }
        }
    }
}

impl<T: Asset> PartialEq for Handle<T> {
    fn eq(&self, other: &Self) -> (r: bool) {
        self.handle_id.id.0 == other.handle_id.id.0
    }
}

impl<T: Asset> vstd::std_specs::cmp::PartialEqSpecImpl for Handle<T> {
    open spec fn obeys_eq_spec() -> bool {
        true
    }

    open spec fn eq_spec(&self, other: &Self) -> bool {
        self.spec_id() == other.spec_id()
    }
}

} // verus!

//! TCP listeners.
//!
//! A listener keeps the connection attempts that arrive for its endpoint in an accept
//! queue. An attempt is not answered, and takes no buffers, until it is accepted into a
//! socket, which answers it then.
use super::errors::{AcceptError, ListenError};
use super::model::TcpView;
use super::repr::{Segment, TcpControl, TcpRepr, TcpTimestampRepr};
use super::socket;
use super::socket::TCP_SOCKET_COUNT;
use super::state::{SocketBuffer, TcpSocketState};
use super::{State, TcpHandle, Tuple, MAX_RX_CAPACITY, MAX_WIN_SHIFT, MIN_REMOTE_MSS};
use crate::matching;
use crate::rand::Rand;
use crate::storage::slab;
use crate::storage::Slab;
use crate::wire::{IpAddress, IpEndpoint, IpListenEndpoint, TcpSeqNumber};
use vstd::prelude::*;

verus! {

/// The number of TCP listeners that a stack has room for.
pub const TCP_LISTENER_COUNT: usize = 4;

/// The number of connection attempts that a listener keeps.
pub const TCP_LISTENER_BACKLOG: usize = 4;

/// The number of a TCP listener added to a stack.
#[derive(Debug, Clone, Copy, PartialEq, Eq, Structural)]
pub struct TcpListenerHandle {
    pub index: usize,
}

/// A connection attempt: what its SYN says.
#[derive(Debug, Clone, Copy, PartialEq, Eq, Structural)]
pub struct PendingSyn {
    pub tuple: Tuple,
    pub seq_number: TcpSeqNumber,
    pub window_len: u16,
    pub window_scale: Option<u8>,
    pub max_seg_size: Option<u16>,
    pub sack_permitted: bool,
    pub timestamp: Option<TcpTimestampRepr>,
}

/// The state of a TCP listener.
#[derive(Debug)]
pub struct TcpListenerState {
    /// Where it listens; nowhere, if the port is zero.
    pub endpoint: IpListenEndpoint,
    /// The accept queue, oldest attempt first.
    pub queue: Vec<PendingSyn>,
}

/// What a listener holds.
#[verifier::ext_equal]
pub struct ListenerView {
    pub endpoint: IpListenEndpoint,
    pub queue: Seq<PendingSyn>,
}

impl View for TcpListenerState {
    type V = ListenerView;

    open spec fn view(&self) -> ListenerView {
        ListenerView { endpoint: self.endpoint, queue: self.queue@ }
    }
}

/// Where the attempt with the given 4-tuple stands in a queue; its length, if there is
/// none.
pub open spec fn position(queue: Seq<PendingSyn>, tuple: Tuple) -> int
    decreases queue.len(),
{
    if queue.len() == 0 || queue[0].tuple == tuple {
        0
    } else {
        1 + position(queue.skip(1), tuple)
    }
}

impl ListenerView {
    /// There are not too many attempts, and no two with the same 4-tuple. A listener
    /// that listens nowhere keeps none.
    pub open spec fn inv(self) -> bool {
        &&& self.queue.len() <= TCP_LISTENER_BACKLOG
        &&& self.endpoint.port == 0 ==> self.queue.len() == 0
        &&& forall|i: int|
            0 <= i < self.queue.len() ==> scale_is_allowed(#[trigger] self.queue[i])
        &&& forall|i: int, j: int|
            0 <= i < j < self.queue.len() ==> (#[trigger] self.queue[i]).tuple != (
            #[trigger] self.queue[j]).tuple
    }

    /// A listener that listens nowhere.
    pub open spec fn initial() -> ListenerView {
        ListenerView {
            endpoint: IpListenEndpoint { addr: None, port: 0 },
            queue: Seq::empty(),
        }
    }

    /// How closely the endpoint fits the destination of a segment.
    pub open spec fn score(self, dst: IpAddress, port: u16) -> Option<u8> {
        if self.endpoint.port != 0 && self.endpoint.port == port {
            self.endpoint.score(dst)
        } else {
            None
        }
    }

    /// The listener after an attempt has arrived. It takes the place of an older one
    /// with the same 4-tuple; if the queue is full, it is dropped.
    pub open spec fn noted(self, syn: PendingSyn) -> ListenerView {
        let at = position(self.queue, syn.tuple);
        if at < self.queue.len() {
            ListenerView { queue: self.queue.update(at, syn), ..self }
        } else if self.queue.len() < TCP_LISTENER_BACKLOG {
            ListenerView { queue: self.queue.push(syn), ..self }
        } else {
            self
        }
    }

    /// The queue holds the attempt with the given 4-tuple, and `seq` is what is
    /// expected next from it.
    pub open spec fn expects(self, tuple: Tuple, seq: TcpSeqNumber) -> bool {
        let at = position(self.queue, tuple);
        at < self.queue.len() && self.queue[at].seq_number.plus(1) == seq
    }

    /// The listener after an attempt has been withdrawn.
    pub open spec fn withdrawn(self, tuple: Tuple) -> ListenerView {
        ListenerView { queue: self.queue.remove(position(self.queue, tuple)), ..self }
    }

    /// The listener after its oldest attempt has been taken.
    pub open spec fn taken(self) -> ListenerView {
        ListenerView { queue: self.queue.skip(1), ..self }
    }
}

/// The window scale is one that RFC 7323 allows.
pub open spec fn scale_is_allowed(syn: PendingSyn) -> bool {
    syn.window_scale matches Some(scale) ==> scale <= MAX_WIN_SHIFT
}

/// The 4-tuple of a segment that has arrived.
pub open spec fn tuple_of(src: IpAddress, dst: IpAddress, s: Segment) -> Tuple {
    Tuple {
        local: IpEndpoint { addr: dst, port: s.dst_port },
        remote: IpEndpoint { addr: src, port: s.src_port },
    }
}

/// The attempt that a SYN makes.
pub open spec fn attempt(src: IpAddress, dst: IpAddress, s: Segment) -> PendingSyn {
    PendingSyn {
        tuple: tuple_of(src, dst, s),
        seq_number: s.seq_number,
        window_len: s.window_len,
        window_scale: s.window_scale,
        max_seg_size: s.max_seg_size,
        sack_permitted: s.sack_permitted,
        timestamp: s.timestamp,
    }
}

impl TcpView {
    /// The socket that an attempt has been accepted into.
    pub open spec fn accepting(
        self,
        syn: PendingSyn,
        seq: TcpSeqNumber,
        tsval_offset: u32,
    ) -> TcpView {
        let fresh = self.reset();
        let mss: usize = match syn.max_seg_size {
            Some(mss) => if mss == 0 {
                fresh.remote_mss
            } else if mss < MIN_REMOTE_MSS {
                MIN_REMOTE_MSS
            } else {
                mss as usize
            },
            None => fresh.remote_mss,
        };
        let controller = if syn.max_seg_size matches Some(m) && m != 0 {
            fresh.congestion_controller.with_mss(mss)
        } else {
            fresh.congestion_controller
        };
        TcpView {
            state: State::SynReceived,
            tuple: Some(syn.tuple),
            local_seq_no: seq,
            remote_last_seq: seq,
            remote_seq_no: syn.seq_number.plus(1),
            remote_win_len: syn.window_len as usize,
            remote_win_scale: syn.window_scale,
            remote_win_shift: if syn.window_scale is None {
                0
            } else {
                fresh.remote_win_shift
            },
            remote_mss: mss,
            congestion_controller: controller.with_remote_window(syn.window_len as usize),
            remote_has_sack: syn.sack_permitted,
            timestamps: syn.timestamp is Some,
            last_remote_tsval: match syn.timestamp {
                Some(ts) => ts.tsval,
                None => 0,
            },
            tsval_offset,
            ..fresh
        }
    }
}

/// What the position of an attempt is.
proof fn lemma_position(queue: Seq<PendingSyn>, tuple: Tuple)
    ensures
        0 <= position(queue, tuple) <= queue.len(),
        position(queue, tuple) < queue.len() ==> queue[position(queue, tuple)].tuple == tuple,
        forall|i: int| 0 <= i < position(queue, tuple) ==> (#[trigger] queue[i]).tuple != tuple,
    decreases queue.len(),
{
    if queue.len() > 0 && queue[0].tuple != tuple {
        lemma_position(queue.skip(1), tuple);
        assert forall|i: int| 0 <= i < position(queue, tuple) implies (
        #[trigger] queue[i]).tuple != tuple by {
            if i > 0 {
                assert(queue.skip(1)[i - 1] == queue[i]);
            }
        }
    }
}

/// Whatever happens to a queue, it stays sound.
pub proof fn law_queue_stays_sound(v: ListenerView, syn: PendingSyn, tuple: Tuple)
    requires
        v.inv(),
        v.endpoint.port != 0,
        scale_is_allowed(syn),
    ensures
        v.noted(syn).inv(),
        position(v.queue, tuple) < v.queue.len() ==> v.withdrawn(tuple).inv(),
        v.queue.len() > 0 ==> v.taken().inv(),
{
    lemma_position(v.queue, syn.tuple);
    lemma_position(v.queue, tuple);
}

/// A SYN that is sent again, or sent anew from the same port, replaces the one in the
/// queue, which keeps its place: the newest counts.
pub proof fn law_newest_attempt_counts(v: ListenerView, old_syn: PendingSyn, new_syn: PendingSyn)
    requires
        v.inv(),
        old_syn.tuple == new_syn.tuple,
        v.queue.len() < TCP_LISTENER_BACKLOG || position(v.queue, old_syn.tuple) < v.queue.len(),
    ensures
        v.noted(old_syn).noted(new_syn) == v.noted(new_syn),
        v.noted(new_syn).queue.contains(new_syn),
{
    let t = new_syn.tuple;
    lemma_position(v.queue, t);
    lemma_position(v.noted(old_syn).queue, t);
    let at = position(v.queue, t);
    let q = v.noted(old_syn).queue;
    assert(q[at].tuple == t);
    let b = position(q, t);
    if b < at {
        assert(q[b].tuple != t);
    }
    assert(b == at);
    assert(v.noted(old_syn).noted(new_syn).queue =~= v.noted(new_syn).queue);
    assert(v.noted(new_syn).queue[at] == new_syn);
}

/// Attempts are accepted in the order in which they came: another one does not take the
/// place of the oldest.
pub proof fn law_oldest_attempt_is_first(v: ListenerView, syn: PendingSyn)
    requires
        v.queue.len() > 0,
        v.queue[0].tuple != syn.tuple,
    ensures
        v.noted(syn).queue[0] == v.queue[0],
        v.noted(syn).queue.len() >= v.queue.len(),
{
    lemma_position(v.queue, syn.tuple);
}

/// The score of each listener against a segment.
pub open spec fn scores(
    slots: Seq<Option<TcpListenerState>>,
    dst: IpAddress,
    port: u16,
) -> Seq<Option<u8>> {
    Seq::new(
        slots.len(),
        |i: int|
            match slots[i] {
                Some(s) => s@.score(dst, port),
                None => None,
            },
    )
}

/// Every listener is sound.
pub open spec fn listeners_inv(slots: Seq<Option<TcpListenerState>>) -> bool {
    forall|i: int| #[trigger] slab::occupied(slots, i) ==> slots[i]->0@.inv()
}

/// What listener number `i` holds.
pub open spec fn listener_at(slots: Seq<Option<TcpListenerState>>, i: usize) -> ListenerView {
    slots[i as int]->0@
}

/// The first listener, from number `i` on, that expects `seq` from an attempt.
pub open spec fn expecting(
    slots: Seq<Option<TcpListenerState>>,
    i: int,
    tuple: Tuple,
    seq: TcpSeqNumber,
) -> Option<usize>
    decreases slots.len() - i,
{
    if i >= slots.len() {
        None
    } else if slab::occupied(slots, i) && slots[i]->0@.expects(tuple, seq) {
        Some(i as usize)
    } else {
        expecting(slots, i + 1, tuple, seq)
    }
}

/// Another listener than number `i` listens on the same endpoint.
pub open spec fn endpoint_in_use(
    slots: Seq<Option<TcpListenerState>>,
    i: int,
    endpoint: IpListenEndpoint,
) -> bool {
    exists|k: int|
        k != i && #[trigger] slab::occupied(slots, k) && slots[k]->0.endpoint == endpoint
}

impl TcpListenerState {
    /// A listener that listens nowhere.
    pub fn new() -> (r: TcpListenerState)
        ensures
            r@ == ListenerView::initial(),
    {
        TcpListenerState { endpoint: IpListenEndpoint::unspecified(), queue: Vec::new() }
    }

    /// How closely the endpoint fits the destination of a segment.
    fn score(&self, dst: &IpAddress, port: u16) -> (r: Option<u8>)
        ensures
            r == self@.score(*dst, port),
    {
        if self.endpoint.port != 0 && self.endpoint.port == port {
            self.endpoint.addr_score(*dst)
        } else {
            None
        }
    }

    /// Where an attempt stands in the queue.
    fn position(&self, tuple: Tuple) -> (r: usize)
        ensures
            r == position(self@.queue, tuple),
            r <= self@.queue.len(),
    {
        let mut i: usize = 0;
        assert(self@.queue.skip(0) =~= self@.queue);
        while i < self.queue.len()
            invariant
                i <= self@.queue.len(),
                position(self@.queue, tuple) == i + position(self@.queue.skip(i as int), tuple),
            decreases self@.queue.len() - i,
        {
            assert(self@.queue.skip(i as int).skip(1) =~= self@.queue.skip(i + 1));
            if self.queue[i].tuple == tuple {
                return i;
            }
            i = i + 1;
        }
        i
    }

    /// Keeps an attempt.
    fn note(&mut self, syn: PendingSyn)
        requires
            old(self)@.inv(),
            old(self)@.endpoint.port != 0,
            scale_is_allowed(syn),
        ensures
            final(self)@.inv(),
            final(self)@ == old(self)@.noted(syn),
    {
        proof {
            law_queue_stays_sound(self@, syn, syn.tuple);
        }
        let at: usize = self.position(syn.tuple);
        if at < self.queue.len() {
            self.queue[at] = syn;
        } else if self.queue.len() < TCP_LISTENER_BACKLOG {
            self.queue.push(syn);
        }
    }
}

/// The listener that a connection attempt goes to.
fn best_match(
    listeners: &Slab<TcpListenerState, TCP_LISTENER_COUNT>,
    dst: &IpAddress,
    port: u16,
) -> (r: Option<(usize, u8)>)
    ensures
        r == matching::winner(scores(listeners@, *dst, port)),
        r matches Some((i, _)) ==> slab::occupied(listeners@, i as int)
            && listeners@[i as int]->0@.endpoint.port != 0,
{
    let ghost all = scores(listeners@, *dst, port);
    let mut found: Option<(usize, u8)> = None;
    let mut i: usize = 0;
    while i < listeners.len()
        invariant
            i <= listeners@.len(),
            all == scores(listeners@, *dst, port),
            found == matching::best(all, i as int),
            found matches Some((k, _)) ==> slab::occupied(listeners@, k as int)
                && listeners@[k as int]->0@.endpoint.port != 0,
        decreases listeners@.len() - i,
    {
        if listeners.is_occupied(i) {
            let score = listeners.get(i).score(dst, port);
            assert(all[i as int] == score);
            if let Some(score) = score {
                let better: bool = match found {
                    Some((_, best_score)) => score > best_score,
                    None => true,
                };
                if better {
                    found = Some((i, score));
                }
            }
        } else {
            assert(all[i as int] is None);
        }
        i = i + 1;
    }
    found
}

/// The first listener that expects `seq` from an attempt.
fn find_expecting(
    listeners: &Slab<TcpListenerState, TCP_LISTENER_COUNT>,
    tuple: Tuple,
    seq: TcpSeqNumber,
) -> (r: Option<usize>)
    ensures
        r == expecting(listeners@, 0, tuple, seq),
        r matches Some(i) ==> slab::occupied(listeners@, i as int)
            && listeners@[i as int]->0@.expects(tuple, seq),
{
    let mut i: usize = 0;
    while i < listeners.len()
        invariant
            i <= listeners@.len(),
            expecting(listeners@, 0, tuple, seq) == expecting(listeners@, i as int, tuple, seq),
        decreases listeners@.len() - i,
    {
        if listeners.is_occupied(i) {
            let listener = listeners.get(i);
            let at: usize = listener.position(tuple);
            if at < listener.queue.len() {
                let next: TcpSeqNumber = listener.queue[at].seq_number + 1;
                if next == seq {
                    return Some(i);
                }
            }
        }
        i = i + 1;
    }
    None
}

/// Offers a segment that belongs to no connection to the listeners, and returns whether
/// one of them has taken it.
///
/// A SYN goes to the listener whose endpoint fits best. An RST with exactly the sequence
/// number that is expected next withdraws an attempt.
pub fn process_listeners(
    listeners: &mut Slab<TcpListenerState, TCP_LISTENER_COUNT>,
    src_addr: &IpAddress,
    dst_addr: &IpAddress,
    repr: &TcpRepr,
) -> (r: bool)
    requires
        listeners_inv(old(listeners)@),
        old(listeners).inv(),
        repr.valid(),
    ensures
        listeners_inv(final(listeners)@),
        final(listeners).inv(),
        if repr.control == TcpControl::Syn && repr.ack_number is None {
            match matching::winner(scores(old(listeners)@, *dst_addr, repr.dst_port)) {
                Some((i, _)) => {
                    &&& r
                    &&& slab::only_changed(old(listeners)@, final(listeners)@, i)
                    &&& listener_at(final(listeners)@, i) == listener_at(
                        old(listeners)@,
                        i,
                    ).noted(attempt(*src_addr, *dst_addr, repr@))
                },
                None => !r && final(listeners)@ == old(listeners)@,
            }
        } else if repr.control == TcpControl::Rst {
            let tuple = tuple_of(*src_addr, *dst_addr, repr@);
            match expecting(old(listeners)@, 0, tuple, repr.seq_number) {
                Some(i) => {
                    &&& r
                    &&& slab::only_changed(old(listeners)@, final(listeners)@, i)
                    &&& listener_at(final(listeners)@, i) == listener_at(
                        old(listeners)@,
                        i,
                    ).withdrawn(tuple)
                },
                None => !r && final(listeners)@ == old(listeners)@,
            }
        } else {
            !r && final(listeners)@ == old(listeners)@
        },
{
    let tuple: Tuple = Tuple {
        local: IpEndpoint::new(*dst_addr, repr.dst_port),
        remote: IpEndpoint::new(*src_addr, repr.src_port),
    };
    let ghost before = listeners@;
    if repr.control == TcpControl::Syn && repr.ack_number.is_none() {
        let syn: PendingSyn = PendingSyn {
            tuple,
            seq_number: repr.seq_number,
            window_len: repr.window_len,
            window_scale: repr.window_scale,
            max_seg_size: repr.max_seg_size,
            sack_permitted: repr.sack_permitted,
            timestamp: repr.timestamp,
        };
        match best_match(&*listeners, dst_addr, repr.dst_port) {
            Some((index, _)) => {
                let state = listeners.get_mut(index);
                state.note(syn);
                proof {
                    assert forall|i: int| #[trigger] slab::occupied(listeners@, i) implies
                        listeners@[i]->0@.inv() by {
                        assert(slab::occupied(before, i));
                    }
                }
                true
            },
            None => false,
        }
    } else if repr.control == TcpControl::Rst {
        match find_expecting(&*listeners, tuple, repr.seq_number) {
            Some(index) => {
                let state = listeners.get_mut(index);
                let at: usize = state.position(tuple);
                proof {
                    let v = state@;
                    law_queue_stays_sound(v, v.queue[at as int], tuple);
                }
                let _ = state.queue.remove(at);
                proof {
                    assert forall|i: int| #[trigger] slab::occupied(listeners@, i) implies
                        listeners@[i]->0@.inv() by {
                        assert(slab::occupied(before, i));
                    }
                }
                true
            },
            None => false,
        }
    } else {
        false
    }
}

impl<'d> TcpSocketState<'d> {
    /// Takes over a connection attempt, with the given initial sequence number and
    /// offset of the timestamps.
    pub fn accept(&mut self, syn: &PendingSyn, seq: TcpSeqNumber, tsval_offset: u32)
        requires
            old(self)@.core_inv(),
            scale_is_allowed(*syn),
        ensures
            final(self).inv(),
            final(self)@ == old(self)@.accepting(*syn, seq, tsval_offset),
    {
        self.reset();
        self.state = State::SynReceived;
        self.tuple = Some(syn.tuple);
        self.local_seq_no = seq;
        self.remote_last_seq = seq;
        self.remote_seq_no = syn.seq_number + 1;
        if let Some(mss) = syn.max_seg_size {
            // A zero MSS is treated as if the option were absent.
            if mss != 0 {
                let mss: usize = if (mss as usize) < MIN_REMOTE_MSS {
                    MIN_REMOTE_MSS
                } else {
                    mss as usize
                };
                self.remote_mss = mss;
                self.congestion_controller.set_mss(mss);
            }
        }
        self.remote_win_len = syn.window_len as usize;
        self.congestion_controller.set_remote_window(syn.window_len as usize);
        self.remote_win_scale = syn.window_scale;
        if syn.window_scale.is_none() {
            self.remote_win_shift = 0;
        }
        self.remote_has_sack = syn.sack_permitted;
        self.timestamps = syn.timestamp.is_some();
        if let Some(timestamp) = syn.timestamp {
            self.last_remote_tsval = timestamp.tsval;
        }
        self.tsval_offset = tsval_offset;
        assert(self@ =~= old(self)@.accepting(*syn, seq, tsval_offset));
    }
}

/// A TCP listener, borrowed from its stack.
pub struct TcpListener<'a, 'd> {
    pub listeners: &'a mut Slab<TcpListenerState, TCP_LISTENER_COUNT>,
    pub index: usize,
    pub sockets: &'a mut Slab<TcpSocketState<'d>, TCP_SOCKET_COUNT>,
    pub rand: &'a mut Rand,
}

impl<'a, 'd> TcpListener<'a, 'd> {
    /// The listeners of the stack.
    pub open spec fn slots(&self) -> Seq<Option<TcpListenerState>> {
        self.listeners@
    }

    /// The sockets of the stack.
    pub open spec fn socket_slots(&self) -> Seq<Option<TcpSocketState<'d>>> {
        self.sockets@
    }

    /// The random numbers of the stack.
    pub open spec fn random(&self) -> Rand {
        *self.rand
    }

    /// What the listener holds.
    pub open spec fn listener(&self) -> ListenerView {
        self.slots()[self.index as int]->0@
    }

    pub open spec fn inv(&self) -> bool {
        &&& self.listeners.inv()
        &&& listeners_inv(self.slots())
        &&& slab::occupied(self.slots(), self.index as int)
        &&& self.sockets.inv()
        &&& socket::sockets_inv(self.socket_slots())
    }

    /// Whether another listener listens on the same endpoint.
    fn endpoint_is_used(&self, endpoint: IpListenEndpoint) -> (r: bool)
        ensures
            r == endpoint_in_use(self.slots(), self.index as int, endpoint),
    {
        let mut i: usize = 0;
        while i < self.listeners.len()
            invariant
                i <= self.slots().len(),
                forall|k: int|
                    k < i && k != self.index && #[trigger] slab::occupied(self.slots(), k)
                        ==> self.slots()[k]->0.endpoint != endpoint,
            decreases self.slots().len() - i,
        {
            if i != self.index && self.listeners.is_occupied(i) && self.listeners.get(i).endpoint
                == endpoint {
                assert(slab::occupied(self.slots(), i as int));
                return true;
            }
            i = i + 1;
        }
        false
    }

    /// Starts listening on an endpoint. Listening again on the same endpoint changes
    /// nothing.
    pub fn listen(&mut self, endpoint: IpListenEndpoint) -> (ret: Result<(), ListenError>)
        requires
            old(self).inv(),
        ensures
            final(self).inv(),
            final(self).index == old(self).index,
            final(self).socket_slots() == old(self).socket_slots(),
            final(self).random() == old(self).random(),
            *final(final(self).listeners) == *final(old(self).listeners),
            *final(final(self).sockets) == *final(old(self).sockets),
            *final(final(self).rand) == *final(old(self).rand),
            ({
                let v = old(self).listener();
                if endpoint.port == 0 {
                    &&& ret == Err::<(), ListenError>(ListenError::Unaddressable)
                    &&& final(self).slots() == old(self).slots()
                } else if v.endpoint.port != 0 {
                    &&& ret == if v.endpoint == endpoint {
                        Ok::<(), ListenError>(())
                    } else {
                        Err(ListenError::InvalidState)
                    }
                    &&& final(self).slots() == old(self).slots()
                } else if endpoint_in_use(old(self).slots(), old(self).index as int, endpoint) {
                    &&& ret == Err::<(), ListenError>(ListenError::InUse)
                    &&& final(self).slots() == old(self).slots()
                } else {
                    &&& ret is Ok
                    &&& slab::only_changed(
                        old(self).slots(),
                        final(self).slots(),
                        old(self).index,
                    )
                    &&& final(self).listener() == (ListenerView { endpoint, ..v })
                }
            }),
    {
        if endpoint.port == 0 {
            return Err(ListenError::Unaddressable);
        }
        let current: IpListenEndpoint = self.listeners.get(self.index).endpoint;
        if current.port != 0 {
            return if current == endpoint {
                Ok(())
            } else {
                Err(ListenError::InvalidState)
            };
        }
        if self.endpoint_is_used(endpoint) {
            return Err(ListenError::InUse);
        }
        let ghost before = self.slots();
        let state = self.listeners.get_mut(self.index);
        state.endpoint = endpoint;
        proof {
            assert forall|i: int| #[trigger] slab::occupied(self.slots(), i) implies
                self.slots()[i]->0@.inv() by {
                assert(slab::occupied(before, i));
            }
        }
        Ok(())
    }

    /// Stops listening, and drops the attempts that wait.
    pub fn close(&mut self)
        requires
            old(self).inv(),
        ensures
            final(self).inv(),
            final(self).index == old(self).index,
            final(self).socket_slots() == old(self).socket_slots(),
            final(self).random() == old(self).random(),
            *final(final(self).listeners) == *final(old(self).listeners),
            *final(final(self).sockets) == *final(old(self).sockets),
            *final(final(self).rand) == *final(old(self).rand),
            slab::only_changed(old(self).slots(), final(self).slots(), old(self).index),
            final(self).listener() == ListenerView::initial(),
    {
        let ghost before = self.slots();
        let state = self.listeners.get_mut(self.index);
        *state = TcpListenerState::new();
        proof {
            assert forall|i: int| #[trigger] slab::occupied(self.slots(), i) implies
                self.slots()[i]->0@.inv() by {
                assert(slab::occupied(before, i));
            }
        }
    }

    /// Whether the listener listens.
    pub fn is_open(&self) -> (r: bool)
        requires
            self.inv(),
        ensures
            r == (self.listener().endpoint.port != 0),
    {
        self.listeners.get(self.index).endpoint.port != 0
    }

    /// Whether an attempt waits to be accepted.
    pub fn can_accept(&self) -> (r: bool)
        requires
            self.inv(),
        ensures
            r == (self.listener().queue.len() > 0),
    {
        self.listeners.get(self.index).queue.len() > 0
    }

    /// Takes the oldest attempt.
    fn take(&mut self) -> (r: PendingSyn)
        requires
            old(self).inv(),
            old(self).listener().queue.len() > 0,
        ensures
            final(self).inv(),
            final(self).index == old(self).index,
            final(self).socket_slots() == old(self).socket_slots(),
            final(self).random() == old(self).random(),
            *final(final(self).listeners) == *final(old(self).listeners),
            *final(final(self).sockets) == *final(old(self).sockets),
            *final(final(self).rand) == *final(old(self).rand),
            slab::only_changed(old(self).slots(), final(self).slots(), old(self).index),
            r == old(self).listener().queue[0],
            scale_is_allowed(r),
            final(self).listener() == old(self).listener().taken(),
    {
        let ghost before = self.slots();
        let ghost v = self.listener();
        let state = self.listeners.get_mut(self.index);
        proof {
            law_queue_stays_sound(v, v.queue[0], v.queue[0].tuple);
        }
        let syn: PendingSyn = state.queue.remove(0);
        proof {
            assert(v.queue.remove(0) =~= v.queue.skip(1));
            assert forall|i: int| #[trigger] slab::occupied(self.slots(), i) implies
                self.slots()[i]->0@.inv() by {
                assert(slab::occupied(before, i));
            }
        }
        syn
    }

    /// Accepts the oldest attempt into a socket that is not in use, whose settings are
    /// kept.
    pub fn accept_with_socket(&mut self, handle: TcpHandle) -> (ret: Result<(), AcceptError>)
        requires
            old(self).inv(),
            slab::occupied(old(self).socket_slots(), handle.index as int),
        ensures
            final(self).inv(),
            final(self).index == old(self).index,
            *final(final(self).listeners) == *final(old(self).listeners),
            *final(final(self).sockets) == *final(old(self).sockets),
            *final(final(self).rand) == *final(old(self).rand),
            ({
                let v = super::state::socket_at(old(self).socket_slots(), handle.index);
                let queue = old(self).listener().queue;
                if v.is_open() || queue.len() == 0 {
                    &&& ret == Err::<(), AcceptError>(
                        if v.is_open() {
                            AcceptError::InvalidState
                        } else {
                            AcceptError::Exhausted
                        },
                    )
                    &&& final(self).slots() == old(self).slots()
                    &&& final(self).socket_slots() == old(self).socket_slots()
                    &&& final(self).random() == old(self).random()
                } else {
                    let rand = old(self).random().next();
                    &&& ret is Ok
                    &&& slab::only_changed(
                        old(self).slots(),
                        final(self).slots(),
                        old(self).index,
                    )
                    &&& final(self).listener() == old(self).listener().taken()
                    &&& slab::only_changed(
                        old(self).socket_slots(),
                        final(self).socket_slots(),
                        handle.index,
                    )
                    &&& super::state::socket_at(final(self).socket_slots(), handle.index)
                        == v.accepting(queue[0], socket::as_seq(rand.value()), rand.next().value())
                    &&& final(self).random() == rand.next()
                }
            }),
    {
        if self.sockets.get(handle.index).is_open() {
            return Err(AcceptError::InvalidState);
        }
        if !self.can_accept() {
            return Err(AcceptError::Exhausted);
        }
        let syn: PendingSyn = self.take();
        let seq: TcpSeqNumber = socket::random_seq_no(self.rand);
        let tsval_offset: u32 = self.rand.rand_u32();
        let ghost before = self.socket_slots();
        let state = self.sockets.get_mut(handle.index);
        state.accept(&syn, seq, tsval_offset);
        proof {
            assert forall|i: int| #[trigger] slab::occupied(self.socket_slots(), i) implies
                self.socket_slots()[i]->0.inv() by {
                assert(slab::occupied(before, i));
            }
        }
        Ok(())
    }

    /// Accepts the oldest attempt into a new socket with the given buffers. `None` if no
    /// attempt waits, or the stack has no room for another socket.
    pub fn accept_with_bufs(
        &mut self,
        rx_buffer: SocketBuffer<'d>,
        tx_buffer: SocketBuffer<'d>,
    ) -> (ret: Option<TcpHandle>)
        requires
            old(self).inv(),
            rx_buffer.inv(),
            tx_buffer.inv(),
            rx_buffer@.cap() <= MAX_RX_CAPACITY,
            tx_buffer@.cap() < i32::MAX,
            rx_buffer@.length == 0,
            tx_buffer@.length == 0,
        ensures
            final(self).inv(),
            final(self).index == old(self).index,
            *final(final(self).listeners) == *final(old(self).listeners),
            *final(final(self).sockets) == *final(old(self).sockets),
            *final(final(self).rand) == *final(old(self).rand),
            ({
                let queue = old(self).listener().queue;
                let at = slab::first_free(old(self).socket_slots());
                if queue.len() == 0 || at == TCP_SOCKET_COUNT {
                    &&& ret is None
                    &&& final(self).slots() == old(self).slots()
                    &&& final(self).socket_slots() == old(self).socket_slots()
                    &&& final(self).random() == old(self).random()
                } else {
                    let rand = old(self).random().next();
                    &&& ret == Some(TcpHandle { index: at as usize })
                    &&& slab::only_changed(
                        old(self).slots(),
                        final(self).slots(),
                        old(self).index,
                    )
                    &&& final(self).listener() == old(self).listener().taken()
                    &&& exists|s: TcpSocketState<'d>|
                        {
                            &&& s@ == TcpView::initial(rx_buffer@, tx_buffer@).accepting(
                                queue[0],
                                socket::as_seq(rand.value()),
                                rand.next().value(),
                            )
                            &&& final(self).socket_slots() == #[trigger] slab::added(
                                old(self).socket_slots(),
                                s,
                            )
                        }
                    &&& final(self).random() == rand.next()
                }
            }),
    {
        if !self.can_accept() {
            return None;
        }
        let ghost slots = self.socket_slots();
        let fresh = TcpSocketState::new(rx_buffer, tx_buffer);
        let index: usize = match self.sockets.insert(fresh) {
            Ok(index) => index,
            Err(_) => {
                return None;
            },
        };
        proof {
            assert forall|i: int| #[trigger] slab::occupied(self.socket_slots(), i) implies
                self.socket_slots()[i]->0.inv() by {
                slab::law_slot_is_found_again(slots, fresh, i);
                if i < slots.len() && slots[i] is Some {
                    assert(slab::occupied(slots, i));
                }
            }
            slab::law_slot_is_found_again(slots, fresh, index as int);
        }
        let syn: PendingSyn = self.take();
        let seq: TcpSeqNumber = socket::random_seq_no(self.rand);
        let tsval_offset: u32 = self.rand.rand_u32();
        let ghost before = self.socket_slots();
        let state = self.sockets.get_mut(index);
        state.accept(&syn, seq, tsval_offset);
        proof {
            let s = self.socket_slots()[index as int]->0;
            assert forall|i: int| #[trigger] slab::occupied(self.socket_slots(), i) implies
                self.socket_slots()[i]->0.inv() by {
                assert(slab::occupied(before, i));
            }
            assert(self.socket_slots() =~= slab::added(slots, s));
        }
        Some(TcpHandle { index })
    }
}

} // verus!

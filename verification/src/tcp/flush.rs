//! Sending what a TCP socket wants to send.
use super::dispatch;
use super::dispatch::Emission;
use super::egress;
use super::egress::Plan;
use super::emit;
use super::model::TcpView;
use super::repr::{Segment, TcpControl, TcpRepr, TCP_HEADER_LEN};
use super::state::TcpSocketState;
use crate::driver::{ChecksumCapabilities, PacketBuf, PacketMeta};
use crate::stack;
use crate::stack::{EgressRoute, NetView, TxContext};
use crate::storage::slab;
use crate::wire::bytes;
use crate::wire::layout;
use crate::wire::packet;
use crate::wire::{IpAddress, IpProtocol, LINK_HEADER_LEN};
use vstd::prelude::*;

verus! {

/// A segment could not be transmitted right now: the device has no room, or no packet
/// buffer is free. The socket is left as if it had never tried: only time has passed.
#[derive(Debug, Clone, Copy, PartialEq, Eq, Structural)]
pub struct Blocked;

/// Why a flush stopped without being blocked.
#[derive(Debug, Clone, Copy, PartialEq, Eq, Structural)]
pub enum FlushOutcome {
    /// The socket has nothing else to send now.
    Drained,
    /// As many segments as allowed have been sent.
    BudgetExhausted,
}

/// The packet that carries a segment.
pub open spec fn tcp_packet(
    net: NetView,
    route: EgressRoute,
    src: IpAddress,
    dst: IpAddress,
    hop_limit: u8,
    s: Segment,
) -> Seq<u8> {
    let caps = net.ifaces[route.iface as int]->0.device@.checksum;
    packet::header(src, dst, IpProtocol::Tcp, hop_limit, emit::segment_len(s), caps.ipv4.tx)
        + emit::segment(s, src, dst, caps.tcp.tx)
}

/// There is neither room nor a buffer for a packet along a route.
pub open spec fn is_blocked(net: NetView, route: EgressRoute) -> bool {
    !net.ifaces[route.iface as int]->0.device@.has_room() || net.inner.pool.free == 0
}

/// The stack `b` is the stack `a` after a segment has been sent. Without a route it is
/// dropped.
pub open spec fn passed_on(
    a: NetView,
    b: NetView,
    route: Option<EgressRoute>,
    src: IpAddress,
    dst: IpAddress,
    hop_limit: u8,
    s: Segment,
) -> bool {
    match route {
        None => b == a,
        Some(route) => {
            &&& !is_blocked(a, route)
            &&& stack::handed_over(
                a.with_pool(a.inner.pool.shrunk()),
                b,
                route,
                tcp_packet(a, route, src, dst, hop_limit, s),
                PacketMeta { id: 0, request_timestamp: false },
            )
        },
    }
}

/// Puts a TCP segment into a packet buffer, with room in front of it for the headers
/// below.
pub fn build_tcp_packet(
    buf: PacketBuf,
    repr: &TcpRepr<'_>,
    src_addr: &IpAddress,
    dst_addr: &IpAddress,
    checksum_caps: &ChecksumCapabilities,
) -> (r: PacketBuf)
    requires
        buf.inv(),
        buf@.length == 0,
        buf@.start + LINK_HEADER_LEN + dst_addr.header_len() + emit::segment_len(repr@)
            <= buf@.storage.len(),
        emit::segment_len(repr@) <= 65535,
        repr@.options_len() <= emit::MAX_OPTIONS_LEN,
    ensures
        r.inv(),
        r@.start == buf@.start + LINK_HEADER_LEN + dst_addr.header_len(),
        r@.meta == buf@.meta,
        r@.data() == emit::segment(repr@, *src_addr, *dst_addr, checksum_caps.tcp.tx),
        r@.length == emit::segment_len(repr@),
{
    let mut buf = buf;
    let capacity: usize = buf.capacity();
    buf.reserve(LINK_HEADER_LEN + dst_addr.header_len());
    buf.set_len(repr.header_len() + repr.payload.len() + repr.payload2.len());
    {
        let bytes = buf.bytes_mut();
        emit::emit(bytes, repr, *src_addr, *dst_addr, checksum_caps.tcp.tx);
    }
    assert(buf@.data() =~= emit::segment(repr@, *src_addr, *dst_addr, checksum_caps.tcp.tx));
    buf
}

/// A segment can be sent: its packet fits into a buffer, if there is one.
pub open spec fn is_sendable(net: NetView, e: Emission) -> bool {
    &&& net.inv()
    &&& e.0 matches Some(route) ==> slab::occupied(net.ifaces, route.iface as int)
    &&& e.0 matches Some(route) ==> is_blocked(net, route) || {
        &&& e.1.version() == e.2.version()
        &&& LINK_HEADER_LEN + e.2.header_len() + emit::segment_len(e.4@)
            <= net.inner.pool.buffer_len
        &&& e.4@.options_len() <= emit::MAX_OPTIONS_LEN
    }
}

/// Sends a segment.
///
/// Without a route the segment is dropped, and counts as sent: it will be sent again. A
/// device without room, or the want of a buffer, holds the segment back.
pub fn emit_segment<'a>(cx: &mut TxContext<'a>, e: Emission<'_>) -> (ret: Result<(), Blocked>)
    requires
        is_sendable(old(cx)@, e),
    ensures
        final(cx).inv(),
        *final(final(cx).inner) == *final(old(cx).inner),
        *final(final(cx).ifaces) == *final(old(cx).ifaces),
        match ret {
            Ok(_) => passed_on(old(cx)@, final(cx)@, e.0, e.1, e.2, e.3, e.4@),
            Err(_) => {
                &&& e.0 is Some
                &&& is_blocked(old(cx)@, e.0->Some_0)
                &&& final(cx)@ == old(cx)@
            },
        },
{
    let (route, src_addr, dst_addr, hop_limit, repr) = e;
    let route: EgressRoute = match route {
        Some(route) => route,
        None => {
            return Ok(());
        },
    };
    if !cx.can_transmit(route.iface) {
        return Err(Blocked);
    }
    let buf: PacketBuf = match cx.alloc_packet() {
        Some(buf) => buf,
        None => {
            return Err(Blocked);
        },
    };
    let caps: ChecksumCapabilities = cx.checksum_caps(route.iface);
    let buf: PacketBuf = build_tcp_packet(buf, &repr, &src_addr, &dst_addr, &caps);
    cx.transmit_ip(&route, buf, src_addr, dst_addr, IpProtocol::Tcp, hop_limit);
    Ok(())
}

/// A socket and what there is to send with.
pub type Flow = (TcpView, NetView);

/// Where the segments of a flow go.
pub open spec fn flow_route(f: Flow) -> Option<EgressRoute> {
    dispatch::socket_route(f.0, f.1)
}

/// What a flow wants to send next, and its socket as long as that is not sent.
pub open spec fn flow_next(f: Flow) -> (TcpView, Option<Plan>) {
    f.0.prepared(f.1.inner.now, dispatch::route_mtu(flow_route(f)))
}

/// The hop limit of a socket.
pub open spec fn hop_limit_of(v: TcpView) -> u8 {
    match v.hop_limit {
        Some(hop_limit) => hop_limit,
        None => 64,
    }
}

/// The flow `b` is the flow `a` after it has sent a segment.
pub open spec fn sends(a: Flow, b: Flow) -> bool {
    let (ready, plan) = flow_next(a);
    &&& plan is Some
    &&& b.0 == ready.sent(a.1.inner.now, plan->Some_0)
    &&& b.1.inv()
    &&& passed_on(
        a.1,
        b.1,
        flow_route(a),
        a.0.tuple->Some_0.local.addr,
        a.0.tuple->Some_0.remote.addr,
        hop_limit_of(a.0),
        plan->Some_0.segment,
    )
}

/// Each flow is the one before it after it has sent a segment.
pub open spec fn is_run(run: Seq<Flow>) -> bool {
    &&& run.len() > 0
    &&& forall|i: int|
        #![trigger run[i + 1]]
        0 <= i < run.len() - 1 ==> sends(run[i], run[i + 1])
}

/// If a flow sends another segment, that fits into a buffer. The headers of a segment
/// fit into the MTU of the route.
pub open spec fn next_fits(f: Flow) -> bool {
    flow_route(f) matches Some(route) ==> {
        &&& f.0.mtu_fits(route.ip_mtu)
        &&& flow_next(f).1 is Some && !is_blocked(f.1, route) ==> {
            let tuple = f.0.tuple->Some_0;
            &&& tuple.local.addr.version() == tuple.remote.addr.version()
            &&& LINK_HEADER_LEN + tuple.remote.addr.header_len() + emit::segment_len(
                flow_next(f).1->Some_0.segment,
            ) <= f.1.inner.pool.buffer_len
        }
    }
}

/// Each of the next segments of a flow, at most `count` of them, fits into a buffer.
pub open spec fn can_flush(f: Flow, count: usize) -> bool {
    &&& f.0.inv()
    &&& f.1.inv()
    &&& forall|run: Seq<Flow>|
        #[trigger] is_run(run) && run[0] == f && run.len() <= count ==> next_fits(run.last())
}

/// The two ends are of one version, and a packet with the largest segment that the route
/// and the remote allow fits into a buffer.
pub open spec fn buffers_suffice(f: Flow) -> bool {
    &&& f.0.tuple matches Some(tuple) ==> tuple.local.addr.version()
        == tuple.remote.addr.version()
    &&& flow_route(f) matches Some(route) ==> {
        let headers = f.0.tuple->Some_0.remote.addr.header_len() + TCP_HEADER_LEN;
        &&& f.0.mtu_fits(route.ip_mtu)
        &&& LINK_HEADER_LEN + egress::min(
            route.ip_mtu as int,
            headers + f.0.remote_mss,
        ) <= f.1.inner.pool.buffer_len
    }
}

/// How a flush ends.
pub open spec fn flush_ends(
    last: Flow,
    end: Flow,
    left: usize,
    ret: Result<FlushOutcome, Blocked>,
) -> bool {
    let (ready, plan) = flow_next(last);
    match ret {
        Ok(FlushOutcome::BudgetExhausted) => left == 0 && end == last,
        Ok(FlushOutcome::Drained) => {
            &&& left > 0
            &&& plan is None
            &&& end == (ready, last.1)
        },
        Err(Blocked) => {
            &&& left > 0
            &&& plan is Some
            &&& flow_route(last) is Some
            &&& is_blocked(last.1, flow_route(last)->Some_0)
            &&& end == (
                last.0.ticked(last.1.inner.now).with_mtu(dispatch::route_mtu(flow_route(last))),
                last.1,
            )
        },
    }
}

/// A flush with the given budget, of which `left` is left, has made flow `a` flow `b`:
/// one segment after the other was sent until it ended.
pub open spec fn flushed(
    a: Flow,
    b: Flow,
    budget: usize,
    left: usize,
    ret: Result<FlushOutcome, Blocked>,
) -> bool {
    exists|run: Seq<Flow>|
        {
            &&& #[trigger] is_run(run)
            &&& run[0] == a
            &&& left + run.len() - 1 == budget
            &&& flush_ends(run.last(), b, left, ret)
        }
}

/// Sending a packet along a route does not change any route.
proof fn lemma_routes_stay(
    a: NetView,
    b: NetView,
    route: EgressRoute,
    data: Seq<u8>,
    meta: PacketMeta,
    addr: IpAddress,
)
    requires
        stack::handed_over(a, b, route, data, meta),
        slab::occupied(a.ifaces, route.iface as int),
    ensures
        b.route(addr) == a.route(addr),
        stack::owns(b.ifaces, addr) == stack::owns(a.ifaces, addr),
        b.inner.now == a.inner.now,
        b.inner.pool.buffer_len == a.inner.pool.buffer_len,
{
    assert forall|i: int| #[trigger] slab::occupied(b.ifaces, i) == slab::occupied(a.ifaces, i) by {
    }
    assert forall|i: int| #[trigger] slab::occupied(a.ifaces, i) implies b.ifaces[i]->0.ip_addrs
        == a.ifaces[i]->0.ip_addrs && b.ifaces[i]->0.spec_ip_mtu() == a.ifaces[i]->0.spec_ip_mtu()
        by {
        assert(b.ifaces[i]->0.device@.medium == a.ifaces[i]->0.device@.medium);
        assert(b.ifaces[i]->0.device@.mtu == a.ifaces[i]->0.device@.mtu);
    }
    if stack::owns(a.ifaces, addr) {
        let i = choose|i: int|
            #[trigger] slab::occupied(a.ifaces, i) && crate::iface::has_addr(
                a.ifaces[i]->0.ip_addrs@,
                addr,
            );
        assert(slab::occupied(b.ifaces, i));
    }
    if stack::owns(b.ifaces, addr) {
        let i = choose|i: int|
            #[trigger] slab::occupied(b.ifaces, i) && crate::iface::has_addr(
                b.ifaces[i]->0.ip_addrs@,
                addr,
            );
        assert(slab::occupied(a.ifaces, i));
    }
    lemma_iface_serving_same(a, b, 0, addr);
    lemma_route_to_same(a, b, 0, addr);
    lemma_serving_is_taken(a, 0, addr);
    lemma_route_is_taken(a, 0, addr);
}

proof fn lemma_serving_is_taken(a: NetView, i: int, addr: IpAddress)
    requires
        0 <= i,
    ensures
        stack::iface_serving(a.ifaces, i, addr) matches Some(k) ==> slab::occupied(a.ifaces, k),
    decreases a.ifaces.len() - i,
{
    if i < a.ifaces.len() {
        lemma_serving_is_taken(a, i + 1, addr);
    }
}

proof fn lemma_route_is_taken(a: NetView, i: int, addr: IpAddress)
    requires
        0 <= i,
    ensures
        stack::route_to(a.inner.routes@, a.ifaces, i, addr) matches Some(r) ==> slab::occupied(
            a.ifaces,
            r.iface as int,
        ),
    decreases a.inner.routes@.len() - i,
{
    if i < a.inner.routes@.len() {
        lemma_route_is_taken(a, i + 1, addr);
    }
}

proof fn lemma_iface_serving_same(a: NetView, b: NetView, i: int, addr: IpAddress)
    requires
        0 <= i,
        b.ifaces.len() == a.ifaces.len(),
        forall|k: int| #[trigger] slab::occupied(b.ifaces, k) == slab::occupied(a.ifaces, k),
        forall|k: int| #[trigger]
            slab::occupied(a.ifaces, k) ==> b.ifaces[k]->0.ip_addrs == a.ifaces[k]->0.ip_addrs,
    ensures
        stack::iface_serving(b.ifaces, i, addr) == stack::iface_serving(a.ifaces, i, addr),
    decreases a.ifaces.len() - i,
{
    if i < a.ifaces.len() {
        assert(slab::occupied(b.ifaces, i) == slab::occupied(a.ifaces, i));
        lemma_iface_serving_same(a, b, i + 1, addr);
    }
}

proof fn lemma_route_to_same(a: NetView, b: NetView, i: int, addr: IpAddress)
    requires
        0 <= i,
        b.inner.routes == a.inner.routes,
        forall|k: int| #[trigger] slab::occupied(b.ifaces, k) == slab::occupied(a.ifaces, k),
    ensures
        stack::route_to(b.inner.routes@, b.ifaces, i, addr) == stack::route_to(
            a.inner.routes@,
            a.ifaces,
            i,
            addr,
        ),
    decreases a.inner.routes@.len() - i,
{
    if i < a.inner.routes@.len() {
        assert(slab::occupied(b.ifaces, a.inner.routes@[i].iface as int) == slab::occupied(
            a.ifaces,
            a.inner.routes@[i].iface as int,
        ));
        lemma_route_to_same(a, b, i + 1, addr);
    }
}

/// What a flow sends can be handed over.
proof fn lemma_sendable(f: Flow, e: Emission)
    requires
        f.0.inv(),
        f.1.inv(),
        next_fits(f),
        flow_next(f).1 is Some,
        dispatch::hands_over(e, f.0, flow_route(f), flow_next(f).1->Some_0),
    ensures
        is_sendable(f.1, e),
{
    let now = f.1.inner.now;
    let mtu = dispatch::route_mtu(flow_route(f));
    reveal(TcpView::prepared);
    let v = f.0.ticked(now).with_mtu(mtu);
    egress::lemma_ticked_inv(f.0, now, mtu);
    egress::law_segment_fits_mtu(v, now);
    lemma_serving_is_taken(f.1, 0, f.0.tuple->Some_0.remote.addr);
    lemma_route_is_taken(f.1, 0, f.0.tuple->Some_0.remote.addr);
}

/// A flow whose buffers suffice sends what fits.
proof fn lemma_suffices(f: Flow)
    requires
        f.0.inv(),
        f.1.inv(),
        buffers_suffice(f),
    ensures
        next_fits(f),
{
    if flow_route(f) is Some && flow_next(f).1 is Some {
        let now = f.1.inner.now;
        let mtu = dispatch::route_mtu(flow_route(f));
        reveal(TcpView::prepared);
        egress::lemma_ticked_inv(f.0, now, mtu);
        egress::law_segment_fits_mtu(f.0.ticked(now).with_mtu(mtu), now);
    }
}

/// Sending a segment leaves a flow whose buffers suffice.
proof fn lemma_still_suffices(a: Flow, b: Flow)
    requires
        a.0.inv(),
        buffers_suffice(a),
        sends(a, b),
    ensures
        b.0.inv(),
        buffers_suffice(b),
{
    dispatch::lemma_committed(
        a.0,
        a.1.inner.now,
        dispatch::route_mtu(flow_route(a)),
        a.1.inner.now,
    );
    reveal(TcpView::prepared);
    reveal(TcpView::sent);
    let tuple = a.0.tuple->Some_0;
    assert(a.0.tuple is Some);
    assert(b.0.tuple is None || b.0.tuple == a.0.tuple);
    match flow_route(a) {
        Some(route) => {
            lemma_serving_is_taken(a.1, 0, tuple.remote.addr);
            lemma_route_is_taken(a.1, 0, tuple.remote.addr);
            let c = a.1.with_pool(a.1.inner.pool.shrunk());
            let data = tcp_packet(
                a.1,
                route,
                tuple.local.addr,
                tuple.remote.addr,
                hop_limit_of(a.0),
                flow_next(a).1->Some_0.segment,
            );
            let meta = PacketMeta { id: 0, request_timestamp: false };
            lemma_routes_stay(c, b.1, route, data, meta, tuple.remote.addr);
            lemma_routes_stay(c, b.1, route, data, meta, tuple.local.addr);
        },
        None => {},
    }
}

proof fn lemma_run_suffices(run: Seq<Flow>, i: int)
    requires
        is_run(run),
        run[0].0.inv(),
        run[0].1.inv(),
        buffers_suffice(run[0]),
        0 <= i < run.len(),
    ensures
        run[i].0.inv(),
        run[i].1.inv(),
        buffers_suffice(run[i]),
    decreases i,
{
    if i > 0 {
        lemma_run_suffices(run, i - 1);
        assert(sends(run[i - 1], run[(i - 1) + 1]));
        lemma_still_suffices(run[i - 1], run[i]);
    }
}

/// A stack whose buffers take the largest segment that the route and the remote allow
/// can send any number of segments.
pub proof fn law_buffers_suffice(f: Flow, count: usize)
    requires
        f.0.inv(),
        f.1.inv(),
        buffers_suffice(f),
    ensures
        can_flush(f, count),
{
    assert forall|run: Seq<Flow>|
        #[trigger] is_run(run) && run[0] == f && run.len() <= count implies next_fits(
        run.last(),
    ) by {
        lemma_run_suffices(run, run.len() - 1);
        lemma_suffices(run.last());
    }
}

/// A segment that is held back leaves no trace: what the socket wants to send is the same
/// as before.
pub proof fn law_blocked_loses_nothing(last: Flow, end: Flow, left: usize)
    requires
        flush_ends(last, end, left, Err(Blocked)),
    ensures
        flow_next(end) == flow_next(last),
{
    reveal(TcpView::prepared);
    reveal(TcpView::wants_to_send);
    assert(end.0.ticked(last.1.inner.now) =~= end.0);
    assert(end.0.with_mtu(dispatch::route_mtu(flow_route(last))) =~= end.0);
}

/// The next segment of a socket that is to repeat what has not been acknowledged starts
/// with that.
proof fn lemma_retransmission_is_next(v: TcpView, net: NetView)
    requires
        v.inv(),
        v.pending_fast_retransmit,
        v.sends_data(),
        v.tuple is Some,
        v.tx.length > 0,
        v.remote_last_ts is Some,
        !v.timed_out(net.inner.now),
    ensures
        flow_next((v, net)).1 is Some,
        repeats_oldest(v, net),
{
    reveal(TcpView::prepared);
    reveal(TcpView::wants_to_send);
    reveal(TcpView::next_segment);
    let now = net.inner.now;
    let w = flow_next((v, net)).0;
    assert(w.pending_fast_retransmit && w.sends_data() && w.tx == v.tx);
    assert(w.local_seq_no == v.local_seq_no);
    assert(w.seq_to_transmit());
    assert(w.tx.data().len() == w.tx.length);
    let n = egress::min(w.effective_mss(), w.tx.length);
    assert(w.send_payload(now) =~= w.tx.data().take(n));
    assert(w.next_segment(now) == w.data_segment(now));
    if n == 0 {
        assert(w.send_payload(now) =~= Seq::<u8>::empty());
        assert(w.next_segment(now).control == TcpControl::Plain);
    }
}

/// The next segment of a flow carries the oldest octets that have not been acknowledged,
/// as many as the remote and the route allow. Where the options leave no room for any, it
/// is a bare acknowledgement from there, or a keep-alive if one is due.
pub open spec fn repeats_oldest(v: TcpView, net: NetView) -> bool {
    let (w, plan) = flow_next((v, net));
    let s = plan->Some_0.segment;
    let n = egress::min(w.effective_mss(), v.tx.length);
    if n > 0 {
        &&& s.seq_number == v.local_seq_no
        &&& s.payload == v.tx.data().take(n)
        &&& !plan->Some_0.is_keep_alive
    } else {
        &&& plan->Some_0.is_keep_alive == w.timer.keeps_alive(net.inner.now)
        &&& s.control == TcpControl::Plain
        &&& s.seq_number == if plan->Some_0.is_keep_alive {
            v.local_seq_no.plus(-1)
        } else {
            v.local_seq_no
        }
        &&& s.payload == if plan->Some_0.is_keep_alive {
            seq![0u8]
        } else {
            Seq::empty()
        }
    }
}

/// A fast retransmission that there is no room for makes a flush end at once, blocked and
/// with its budget untouched. Nothing is lost by it: the next flush, once there is room,
/// sends first what has not been acknowledged, whatever has become of the stack by then.
/// (The connection must not have timed out: then it ends with a reset.)
pub proof fn law_blocked_retransmission_comes_first(
    start: Flow,
    blocked: Flow,
    budget: usize,
    left: usize,
    ret: Result<FlushOutcome, Blocked>,
    later: NetView,
    end: Flow,
    next_budget: usize,
    next_left: usize,
    next_ret: Result<FlushOutcome, Blocked>,
)
    requires
        start.0.inv(),
        start.0.mtu_fits(flow_route(start)->Some_0.ip_mtu),
        start.0.timer is FastRetransmit || start.0.pending_fast_retransmit,
        start.0.tx.length > 0,
        start.0.ticked(start.1.inner.now).sends_data(),
        flow_route(start) is Some,
        is_blocked(start.1, flow_route(start)->Some_0),
        budget > 0,
        flushed(start, blocked, budget, left, ret),
        !blocked.0.timed_out(later.inner.now),
        flow_route((blocked.0, later)) matches Some(route) ==> !is_blocked(later, route),
        next_budget > 0,
        flushed((blocked.0, later), end, next_budget, next_left, next_ret),
    ensures
        ret is Err,
        left == budget,
        blocked.1 == start.1,
        blocked.0.local_seq_no == start.0.local_seq_no,
        blocked.0.tx == start.0.tx,
        next_left < next_budget,
        repeats_oldest(blocked.0, later),
        exists|run: Seq<Flow>|
            {
                &&& #[trigger] is_run(run)
                &&& run[0] == (blocked.0, later)
                &&& run.len() > 1
                &&& sends(run[0], run[1])
                &&& next_left + run.len() - 1 == next_budget
                &&& flush_ends(run.last(), end, next_left, next_ret)
            },
{
    let now = start.1.inner.now;
    let mtu = dispatch::route_mtu(flow_route(start));
    let v = start.0.ticked(now).with_mtu(mtu);
    egress::lemma_ticked_inv(start.0, now, mtu);
    assert(flow_next(start).1 is Some) by {
        reveal(TcpView::prepared);
        reveal(TcpView::wants_to_send);
        assert(v.pending_fast_retransmit);
        assert(v.seq_to_transmit());
    }
    let first = choose|run: Seq<Flow>|
        {
            &&& #[trigger] is_run(run)
            &&& run[0] == start
            &&& left + run.len() - 1 == budget
            &&& flush_ends(run.last(), blocked, left, ret)
        };
    if first.len() > 1 {
        assert(sends(first[0], first[0int + 1]));
    }
    assert(first.len() == 1);
    assert(blocked.0 == v);
    assert(v.pending_fast_retransmit);
    lemma_retransmission_is_next(v, later);
    let second = choose|run: Seq<Flow>|
        {
            &&& #[trigger] is_run(run)
            &&& run[0] == (blocked.0, later)
            &&& next_left + run.len() - 1 == next_budget
            &&& flush_ends(run.last(), end, next_left, next_ret)
        };
    assert(second.len() > 1);
    assert(sends(second[0], second[0int + 1]));
}

/// Sends what the socket wants to send, until it has nothing more to send right now:
/// data and flags, acknowledgements, window updates, retransmissions and probes.
///
/// At most `remaining` segments are sent. Returns [`Blocked`] if it stopped because the
/// device has no room, or no buffer is free: the segment that could not be sent leaves no
/// trace in the socket, so that nothing is lost.
pub fn flush<'a, 'd>(
    state: &mut TcpSocketState<'d>,
    cx: &mut TxContext<'a>,
    remaining: &mut usize,
) -> (ret: Result<FlushOutcome, Blocked>)
    requires
        old(state).inv(),
        can_flush((old(state)@, old(cx)@), *old(remaining)),
    ensures
        final(state).inv(),
        final(cx).inv(),
        flushed(
            (old(state)@, old(cx)@),
            (final(state)@, final(cx)@),
            *old(remaining),
            *final(remaining),
            ret,
        ),
{
    let ghost mut run: Seq<Flow> = seq![(state@, cx@)];
    loop
        invariant
            state.inv(),
            cx.inv(),
            is_run(run),
            run[0] == (old(state)@, old(cx)@),
            run.last() == (state@, cx@),
            can_flush((old(state)@, old(cx)@), *old(remaining)),
            *remaining + run.len() - 1 == *old(remaining),
        decreases *remaining,
    {
        if *remaining == 0 {
            return Ok(FlushOutcome::BudgetExhausted);
        }
        let ghost f: Flow = (state@, cx@);
        proof {
            assert forall|c: &mut TxContext<'a>, e: Emission|
                *c == *cx && flow_next(f).1 is Some && dispatch::hands_over(
                    e,
                    f.0,
                    flow_route(f),
                    flow_next(f).1->Some_0,
                ) implies #[trigger] emit_segment.requires((c, e)) by {
                lemma_sendable(f, e);
            }
        }
        match state.dispatch_one(cx, emit_segment) {
            Ok(emitted) => {
                if !emitted {
                    return Ok(FlushOutcome::Drained);
                }
            },
            Err(e) => {
                proof {
                    reveal(TcpView::prepared);
                }
                return Err(e);
            },
        }
        proof {
            let g: Flow = (state@, cx@);
            assert(sends(f, g));
            let longer = run.push(g);
            assert forall|i: int|
                #![trigger longer[i + 1]]
                0 <= i < longer.len() - 1 implies sends(longer[i], longer[i + 1]) by {
                if i + 1 < run.len() {
                    assert(run[i + 1] == longer[i + 1]);
                }
            }
            run = longer;
        }
        *remaining = *remaining - 1;
    }
}

/// The packet that carries a segment says so, octet by octet: the addresses, the protocol
/// and the hop limit, which is 64 unless another one has been set. The segment follows.
pub proof fn law_packet_carries_the_segment(
    net: NetView,
    route: EgressRoute,
    src: IpAddress,
    dst: IpAddress,
    v: TcpView,
    s: Segment,
)
    requires
        src is Ipv4 <==> dst is Ipv4,
        emit::segment_len(s) <= 65515,
        s.options_len() <= 40,
    ensures
        ({
            let d = tcp_packet(net, route, src, dst, hop_limit_of(v), s);
            let n = if dst is Ipv4 {
                20int
            } else {
                40
            };
            let hop_limit = match v.hop_limit {
                Some(hop_limit) => hop_limit,
                None => 64,
            };
            let caps = net.ifaces[route.iface as int]->0.device@.checksum;
            &&& dst matches IpAddress::Ipv4(a) ==> {
                &&& d[0] == 0x45
                &&& bytes::field(d, 2, 2) == d.len()
                &&& d[8] == hop_limit
                &&& d[9] == 6
                &&& bytes::field(d, 12, 4) == src->Ipv4_0.0
                &&& bytes::field(d, 16, 4) == a.0
            }
            &&& dst matches IpAddress::Ipv6(a) ==> {
                &&& d[0] == 0x60
                &&& bytes::field(d, 4, 2) == d.len() - 40
                &&& d[6] == 6
                &&& d[7] == hop_limit
                &&& bytes::field(d, 8, 16) == src->Ipv6_0.0
                &&& bytes::field(d, 24, 16) == a.0
            }
            &&& d.skip(n) == emit::segment(s, src, dst, caps.tcp.tx)
        }),
{
    let caps = net.ifaces[route.iface as int]->0.device@.checksum;
    let u = emit::segment(s, src, dst, caps.tcp.tx);
    let d = tcp_packet(net, route, src, dst, hop_limit_of(v), s);
    emit::law_segment_is_read_back(s, src, dst, caps.tcp.tx);
    let m = emit::segment_len(s);
    let h = packet::header(src, dst, IpProtocol::Tcp, hop_limit_of(v), m, caps.ipv4.tx);
    match (src, dst) {
        (IpAddress::Ipv4(a), IpAddress::Ipv4(b)) => {
            layout::law_ipv4_header_has_its_layout(
                a,
                b,
                IpProtocol::Tcp,
                hop_limit_of(v),
                m,
                caps.ipv4.tx,
            );
            assert(d.subrange(2, 4) =~= h.subrange(2, 4));
            assert(d.subrange(12, 16) =~= h.subrange(12, 16));
            assert(d.subrange(16, 20) =~= h.subrange(16, 20));
        },
        (IpAddress::Ipv6(a), IpAddress::Ipv6(b)) => {
            layout::law_ipv6_header_has_its_layout(
                a,
                b,
                IpProtocol::Tcp,
                hop_limit_of(v),
                m,
                caps.ipv4.tx,
            );
            assert(d.subrange(4, 6) =~= h.subrange(4, 6));
            assert(d.subrange(8, 24) =~= h.subrange(8, 24));
            assert(d.subrange(24, 40) =~= h.subrange(24, 40));
        },
        _ => {},
    }
    assert(d.skip(h.len() as int) =~= u);
}

/// A flush sends as long as its budget lasts, there is something to send, and there is room
/// in the device and a buffer for it, and it says which of these made it stop. Each segment
/// takes one from the budget.
pub proof fn law_flush_stops_for_a_reason(
    a: Flow,
    b: Flow,
    budget: usize,
    left: usize,
    ret: Result<FlushOutcome, Blocked>,
)
    requires
        flushed(a, b, budget, left, ret),
    ensures
        ({
            let next = flow_next(a).1;
            let held_back = match flow_route(a) {
                Some(route) => !a.1.ifaces[route.iface as int]->0.device@.has_room()
                    || a.1.inner.pool.free == 0,
                None => false,
            };
            &&& left <= budget
            &&& (ret matches Ok(FlushOutcome::BudgetExhausted)) <==> left == 0
            &&& budget > 0 && next is None ==> left == budget && (ret matches Ok(
                FlushOutcome::Drained,
            ))
            &&& budget > 0 && next is Some && held_back ==> left == budget && ret is Err
            &&& budget > 0 && next is Some && !held_back ==> left < budget
        }),
{
    let run = choose|run: Seq<Flow>|
        {
            &&& #[trigger] is_run(run)
            &&& run[0] == a
            &&& left + run.len() - 1 == budget
            &&& flush_ends(run.last(), b, left, ret)
        };
    if run.len() > 1 {
        assert(sends(run[0], run[0int + 1]));
    } else {
        assert(run.last() == a);
    }
}

} // verus!

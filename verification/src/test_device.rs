//! A network device without a network.
//!
//! It hands out the frames put into its receive queue, records the ones it is
//! given to transmit, refuses to transmit when asked to, and carries packet
//! metadata in both directions.
use crate::driver::{
    ChecksumCapabilities, HardwareAddress, LinkState, Medium, PacketBuf, PacketMeta, PacketPool,
    Timestamp, TxTimestamp,
};
use crate::iface::{Iface, IfaceHandle};
use crate::stack;
use crate::stack::Stack;
use crate::storage::slab;
use crate::storage::slices;
use crate::wire::IpCidr;
use vstd::prelude::*;

verus! {

/// The number of buffers that [`packet_allocator`] starts with.
pub const PACKET_COUNT: usize = 256;

/// The size of each of them: an Ethernet frame of the usual MTU.
pub const PACKET_LEN: usize = 1514;

/// A pool so large that no test runs out of buffers unless it means to.
pub fn packet_allocator() -> (r: PacketPool)
    ensures
        r.inv(),
        r == (PacketPool { free: PACKET_COUNT, buffer_len: PACKET_LEN }),
{
    PacketPool::new(PACKET_COUNT, PACKET_LEN)
}

/// A device under control of its user.
#[derive(Debug)]
pub struct TestDevice {
    /// The medium it reports.
    pub medium: Medium,
    /// The MTU it reports.
    pub mtu: usize,
    /// The checksums that are left to the stack.
    pub checksum: ChecksumCapabilities,
    /// Frames to hand to the stack, oldest first.
    pub rx: Vec<Vec<u8>>,
    /// Frames the stack transmitted, oldest first.
    pub tx: Vec<Vec<u8>>,
    /// The metadata of those frames.
    pub tx_meta: Vec<PacketMeta>,
    /// How many more frames it accepts. `None` is unlimited.
    pub room: Option<usize>,
    /// The hardware address it reports.
    pub hardware_addr: HardwareAddress,
    /// The link state it reports.
    pub link: LinkState,
    /// Metadata stamped onto every received packet.
    pub rx_meta: PacketMeta,
    /// Reported as the transmit timestamp of packets that ask for one.
    pub tx_stamp: Option<Timestamp>,
    /// Transmit timestamps not yet polled.
    pub tx_stamps: Vec<TxTimestamp>,
}

/// What a device holds.
#[verifier::ext_equal]
pub struct DeviceView {
    pub medium: Medium,
    pub mtu: usize,
    pub checksum: ChecksumCapabilities,
    pub rx: Seq<Seq<u8>>,
    pub tx: Seq<Seq<u8>>,
    pub tx_meta: Seq<PacketMeta>,
    pub room: Option<usize>,
    pub hardware_addr: HardwareAddress,
    pub link: LinkState,
    pub rx_meta: PacketMeta,
    pub tx_stamp: Option<Timestamp>,
    pub tx_stamps: Seq<TxTimestamp>,
}

/// The octets of each frame.
pub open spec fn frames(v: Seq<Vec<u8>>) -> Seq<Seq<u8>> {
    Seq::new(v.len(), |i: int| v[i]@)
}

impl DeviceView {
    /// A device of the given medium in its initial state.
    pub open spec fn initial(medium: Medium) -> DeviceView {
        DeviceView {
            medium,
            mtu: 1500,
            checksum: ChecksumCapabilities::all(),
            rx: Seq::empty(),
            tx: Seq::empty(),
            tx_meta: Seq::empty(),
            room: None,
            hardware_addr: match medium {
                Medium::Ethernet => HardwareAddress::Ethernet(0x02_00_00_00_00_01),
                Medium::Ip => HardwareAddress::Ip,
                Medium::Ieee802154 => HardwareAddress::Ieee802154(0x02_00_00_00_00_00_00_01),
            },
            link: LinkState::Up,
            rx_meta: PacketMeta { id: 0, request_timestamp: false },
            tx_stamp: None,
            tx_stamps: Seq::empty(),
        }
    }

    /// There is room for another frame.
    pub open spec fn has_room(self) -> bool {
        self.room matches Some(n) ==> n > 0
    }

    /// The device after it has transmitted a frame.
    pub open spec fn transmitted(self, frame: Seq<u8>, meta: PacketMeta) -> DeviceView {
        DeviceView {
            tx: self.tx.push(frame),
            tx_meta: self.tx_meta.push(meta),
            room: match self.room {
                Some(n) => Some((n - 1) as usize),
                None => None,
            },
            tx_stamps: match self.tx_stamp {
                Some(timestamp) => if meta.request_timestamp {
                    self.tx_stamps.push(TxTimestamp { id: meta.id, timestamp })
                } else {
                    self.tx_stamps
                },
                None => self.tx_stamps,
            },
            ..self
        }
    }
}

impl View for TestDevice {
    type V = DeviceView;

    open spec fn view(&self) -> DeviceView {
        DeviceView {
            medium: self.medium,
            mtu: self.mtu,
            checksum: self.checksum,
            rx: frames(self.rx@),
            tx: frames(self.tx@),
            tx_meta: self.tx_meta@,
            room: self.room,
            hardware_addr: self.hardware_addr,
            link: self.link,
            rx_meta: self.rx_meta,
            tx_stamp: self.tx_stamp,
            tx_stamps: self.tx_stamps@,
        }
    }
}

impl TestDevice {
    /// A device of the given medium, with an MTU of 1500 and unlimited transmit
    /// room, receiving nothing.
    pub fn new(medium: Medium) -> (r: TestDevice)
        ensures
            r@ == DeviceView::initial(medium),
    {
        let hardware_addr = match medium {
            Medium::Ethernet => HardwareAddress::Ethernet(0x02_00_00_00_00_01),
            Medium::Ip => HardwareAddress::Ip,
            Medium::Ieee802154 => HardwareAddress::Ieee802154(0x02_00_00_00_00_00_00_01),
        };
        let r = TestDevice {
            medium,
            mtu: 1500,
            checksum: ChecksumCapabilities::default(),
            rx: Vec::new(),
            tx: Vec::new(),
            tx_meta: Vec::new(),
            room: None,
            hardware_addr,
            link: LinkState::Up,
            rx_meta: PacketMeta::default(),
            tx_stamp: None,
            tx_stamps: Vec::new(),
        };
        assert(r@ =~= DeviceView::initial(medium));
        r
    }

    /// Sets the MTU it reports.
    pub fn with_mtu(self, mtu: usize) -> (r: TestDevice)
        ensures
            r@ == (DeviceView { mtu, ..self@ }),
    {
        let mut r = self;
        r.mtu = mtu;
        r
    }

    /// Sets the checksums that are left to the stack.
    pub fn with_checksum(self, checksum: ChecksumCapabilities) -> (r: TestDevice)
        ensures
            r@ == (DeviceView { checksum, ..self@ }),
    {
        let mut r = self;
        r.checksum = checksum;
        r
    }

    /// Stamps every received packet with this metadata.
    pub fn with_rx_meta(self, meta: PacketMeta) -> (r: TestDevice)
        ensures
            r@ == (DeviceView { rx_meta: meta, ..self@ }),
    {
        let mut r = self;
        r.rx_meta = meta;
        r
    }

    /// Reports this as the transmit timestamp of packets that ask for one.
    pub fn with_tx_stamp(self, stamp: Timestamp) -> (r: TestDevice)
        ensures
            r@ == (DeviceView { tx_stamp: Some(stamp), ..self@ }),
    {
        let mut r = self;
        r.tx_stamp = Some(stamp);
        r
    }

    /// Takes the oldest frame from the receive queue, in a buffer of the pool.
    /// `None` if there is none.
    pub fn receive(&mut self, pool: &mut PacketPool) -> (r: Option<PacketBuf>)
        requires
            old(self)@.rx.len() > 0 ==> old(pool).free > 0 && old(self)@.rx[0].len()
                <= old(pool).buffer_len,
        ensures
            match r {
                None => {
                    &&& old(self)@.rx.len() == 0
                    &&& final(self)@ == old(self)@
                    &&& *final(pool) == *old(pool)
                },
                Some(buf) => {
                    &&& old(self)@.rx.len() > 0
                    &&& final(self)@.rx == old(self)@.rx.skip(1)
                    &&& final(self)@ == (DeviceView { rx: final(self)@.rx, ..old(self)@ })
                    &&& final(pool).free == old(pool).free - 1
                    &&& final(pool).buffer_len == old(pool).buffer_len
                    &&& buf.inv()
                    &&& buf@.data() == old(self)@.rx[0]
                    &&& buf@.meta == old(self)@.rx_meta
                    &&& buf@.start == 0
                    &&& buf@.storage.len() == old(pool).buffer_len
                },
            },
    {
        if self.rx.len() == 0 {
            return None;
        }
        let ghost v = self@;
        let frame = self.rx.remove(0);
        assert(frames(self.rx@) =~= v.rx.skip(1));
        assert(frame@ == v.rx[0]);
        match pool.try_alloc() {
            None => vstd::pervasive::unreached(),
            Some(mut buf) => {
                buf.set_len(frame.len());
                {
                    let bytes = buf.bytes_mut();
                    slices::copy_slice(bytes, frame.as_slice());
                }
                buf.meta = self.rx_meta;
                assert(buf@.data() =~= frame@);
                Some(buf)
            },
        }
    }

    /// Whether there is room for another frame.
    pub fn can_transmit(&self) -> (r: bool)
        ensures
            r == self@.has_room(),
    {
        match self.room {
            Some(room) => room > 0,
            None => true,
        }
    }

    /// Transmits a packet, or hands it back if there is no room.
    pub fn transmit(&mut self, buf: PacketBuf) -> (r: Result<PacketBuf, PacketBuf>)
        requires
            buf.inv(),
        ensures
            match r {
                Ok(used) => {
                    &&& old(self)@.has_room()
                    &&& used == buf
                    &&& final(self)@ == old(self)@.transmitted(buf@.data(), buf@.meta)
                },
                Err(kept) => {
                    &&& !old(self)@.has_room()
                    &&& kept == buf
                    &&& final(self)@ == old(self)@
                },
            },
    {
        if !self.can_transmit() {
            return Err(buf);
        }
        let ghost v = self@;
        if let Some(room) = self.room {
            self.room = Some(room - 1);
        }
        let meta = buf.meta;
        self.tx_meta.push(meta);
        if meta.request_timestamp {
            if let Some(timestamp) = self.tx_stamp {
                self.tx_stamps.push(TxTimestamp { id: meta.id, timestamp });
            }
        }
        let frame: Vec<u8> = vstd::slice::slice_to_vec(buf.bytes());
        self.tx.push(frame);
        assert(frames(self.tx@) =~= v.tx.push(buf@.data()));
        assert(self@ =~= v.transmitted(buf@.data(), buf@.meta));
        Ok(buf)
    }

    /// Takes the oldest transmit timestamp, if any.
    pub fn poll_tx_timestamp(&mut self) -> (r: Option<TxTimestamp>)
        ensures
            match r {
                None => old(self)@.tx_stamps.len() == 0 && final(self)@ == old(self)@,
                Some(stamp) => {
                    &&& old(self)@.tx_stamps.len() > 0
                    &&& stamp == old(self)@.tx_stamps[0]
                    &&& final(self)@ == (DeviceView {
                        tx_stamps: old(self)@.tx_stamps.skip(1),
                        ..old(self)@
                    })
                },
            },
    {
        if self.tx_stamps.len() == 0 {
            return None;
        }
        let ghost v = self@;
        let stamp = self.tx_stamps.remove(0);
        assert(self@.tx_stamps =~= v.tx_stamps.skip(1));
        Some(stamp)
    }

    /// The medium, the MTU and the checksums that it reports.
    pub fn capabilities(&self) -> (r: (Medium, usize, ChecksumCapabilities))
        ensures
            r == (self@.medium, self@.mtu, self@.checksum),
    {
        (self.medium, self.mtu, self.checksum)
    }

    /// The hardware address that it reports.
    pub fn hardware_address(&self) -> (r: HardwareAddress)
        ensures
            r == self@.hardware_addr,
    {
        self.hardware_addr
    }

    /// The link state that it reports.
    pub fn link_state(&self) -> (r: LinkState)
        ensures
            r == self@.link,
    {
        self.link
    }

    /// Adds the device to `stack` as an interface with hardware address `hw`. The stack
    /// must have room for another interface.
    pub fn install<'d>(self, stack: &mut Stack<'d>, hw: HardwareAddress) -> (r: IfaceHandle)
        requires
            old(stack).inv(),
            slab::first_free(old(stack).ifaces@) < stack::IFACE_COUNT,
        ensures
            final(stack).inv(),
            final(stack).inner == old(stack).inner,
            final(stack).udp == old(stack).udp,
            final(stack).tcp == old(stack).tcp,
            final(stack).listeners == old(stack).listeners,
            r.index == slab::first_free(old(stack).ifaces@),
            exists|iface: Iface|
                {
                    &&& iface.device@ == (DeviceView { hardware_addr: hw, ..self@ })
                    &&& iface.ip_addrs@ == Seq::<IpCidr>::empty()
                    &&& final(stack).ifaces@ == #[trigger] slab::added(old(stack).ifaces@, iface)
                },
    {
        let mut device = self;
        device.hardware_addr = hw;
        match stack.add_iface(device) {
            Ok(handle) => handle,
            Err(_) => vstd::pervasive::unreached(),
        }
    }
}

/// A device transmits every frame that it has room for, behind those transmitted before,
/// with what accompanies it. A frame takes room, if that is limited. A frame that asks for it
/// gets a timestamp, if the device has one to report, and no other frame does.
pub proof fn law_frame_is_transmitted(v: DeviceView, frame: Seq<u8>, meta: PacketMeta)
    requires
        v.has_room(),
    ensures
        ({
            let w = v.transmitted(frame, meta);
            &&& w.tx.len() == v.tx.len() + 1
            &&& w.tx.last() == frame
            &&& w.tx.drop_last() == v.tx
            &&& w.tx_meta == v.tx_meta.push(meta)
            &&& v.room matches Some(n) ==> n > 0 && w.room == Some((n - 1) as usize)
            &&& v.room is None ==> w.room is None
            &&& !meta.request_timestamp || v.tx_stamp is None ==> w.tx_stamps == v.tx_stamps
            &&& meta.request_timestamp ==> (v.tx_stamp matches Some(timestamp) ==> w.tx_stamps
                == v.tx_stamps.push(TxTimestamp { id: meta.id, timestamp }))
            &&& w.rx == v.rx
            &&& w.medium == v.medium
            &&& w.mtu == v.mtu
        }),
{
    assert(v.tx.push(frame).drop_last() =~= v.tx);
}

/// A device without a limit always has room, and one with a limit as long as that is not
/// used up.
pub proof fn law_room_is_what_is_left(v: DeviceView)
    ensures
        v.room is None ==> v.has_room(),
        v.room matches Some(n) ==> (v.has_room() <==> n > 0),
{
}

} // verus!

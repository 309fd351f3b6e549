//! A device that hands out its frames, and takes frames, through tokens.
use crate::driver::{HardwareAddress, Medium};
use crate::wire::{IpAddress, IpCidr, Ipv4Address, Ipv6Address};
use std::collections::VecDeque;
use vstd::prelude::*;

verus! {

/// What tells the queues of a device apart.
#[derive(Debug, Clone, Copy, PartialEq, Eq, Structural)]
pub struct EgressKey(pub u64);

/// How a device wants its queues to be served. The device only carries it.
#[derive(Debug, Clone, Copy, PartialEq, Eq, Structural)]
pub struct EgressSchedule(pub u64);

/// What a device is told of the packets that wait for it. The device only carries it.
#[derive(Debug, Clone, Copy, PartialEq, Eq, Structural)]
pub struct EgressDemandUpdate(pub u64);

/// A permission to send a number of packets. The device only carries it.
#[derive(Debug, Clone, Copy, PartialEq, Eq, Structural)]
pub struct EgressBurstGrant(pub u64);

/// What a device is told of a permission that has been used. The device only carries it.
#[derive(Debug, Clone, Copy, PartialEq, Eq, Structural)]
pub struct EgressGrantCompletion(pub u64);

/// A testing device, with the frames to receive and those transmitted.
#[derive(Debug)]
pub struct TestingDevice {
    pub tx_queue: VecDeque<Vec<u8>>,
    pub rx_queue: VecDeque<Vec<u8>>,
    pub max_transmission_unit: usize,
    pub medium: Medium,
    pub egress_key_override: Option<EgressKey>,
    pub egress_key_calls: usize,
    pub egress_schedule: Option<EgressSchedule>,
    pub egress_demand_updates: Vec<EgressDemandUpdate>,
    pub egress_grants: VecDeque<EgressBurstGrant>,
    pub egress_grant_completions: Vec<EgressGrantCompletion>,
    pub granted_transmit_serials: Vec<u32>,
    pub ordinary_transmit_calls: usize,
    pub control_transmit_calls: usize,
}

/// What a testing device holds.
#[verifier::ext_equal]
pub struct TestingView {
    pub tx_queue: Seq<Vec<u8>>,
    pub rx_queue: Seq<Vec<u8>>,
    pub max_transmission_unit: usize,
    pub medium: Medium,
    pub egress_key_override: Option<EgressKey>,
    pub egress_key_calls: usize,
    pub egress_schedule: Option<EgressSchedule>,
    pub egress_demand_updates: Seq<EgressDemandUpdate>,
    pub egress_grants: Seq<EgressBurstGrant>,
    pub egress_grant_completions: Seq<EgressGrantCompletion>,
    pub granted_transmit_serials: Seq<u32>,
    pub ordinary_transmit_calls: usize,
    pub control_transmit_calls: usize,
}

impl View for TestingDevice {
    type V = TestingView;

    open spec fn view(&self) -> TestingView {
        TestingView {
            tx_queue: self.tx_queue@,
            rx_queue: self.rx_queue@,
            max_transmission_unit: self.max_transmission_unit,
            medium: self.medium,
            egress_key_override: self.egress_key_override,
            egress_key_calls: self.egress_key_calls,
            egress_schedule: self.egress_schedule,
            egress_demand_updates: self.egress_demand_updates@,
            egress_grants: self.egress_grants@,
            egress_grant_completions: self.egress_grant_completions@,
            granted_transmit_serials: self.granted_transmit_serials@,
            ordinary_transmit_calls: self.ordinary_transmit_calls,
            control_transmit_calls: self.control_transmit_calls,
        }
    }
}

/// One call more, as far as they are counted.
pub open spec fn counted(calls: usize) -> usize {
    if calls == usize::MAX {
        usize::MAX
    } else {
        (calls + 1) as usize
    }
}

impl TestingView {
    /// A device of the given medium in its initial state.
    pub open spec fn initial(medium: Medium) -> TestingView {
        TestingView {
            tx_queue: Seq::empty(),
            rx_queue: Seq::empty(),
            max_transmission_unit: match medium {
                Medium::Ethernet => 1514,
                Medium::Ip => 1500,
                Medium::Ieee802154 => 1500,
            },
            medium,
            egress_key_override: None,
            egress_key_calls: 0,
            egress_schedule: None,
            egress_demand_updates: Seq::empty(),
            egress_grants: Seq::empty(),
            egress_grant_completions: Seq::empty(),
            granted_transmit_serials: Seq::empty(),
            ordinary_transmit_calls: 0,
            control_transmit_calls: 0,
        }
    }
}

/// The addresses that [`setup`] gives an interface: `192.168.1.1/24`, `127.0.0.1/8`,
/// `fe80::1/64`, `::1/128` and `fdbe::1/64`.
pub open spec fn setup_addrs() -> Seq<IpCidr> {
    seq![
        IpCidr { address: IpAddress::Ipv4(Ipv4Address(0xc0a8_0101)), prefix_len: 24 },
        IpCidr { address: IpAddress::Ipv4(Ipv4Address(0x7f00_0001)), prefix_len: 8 },
        IpCidr {
            address: IpAddress::Ipv6(Ipv6Address(0xfe80_0000_0000_0000_0000_0000_0000_0001)),
            prefix_len: 64,
        },
        IpCidr { address: IpAddress::Ipv6(Ipv6Address(1)), prefix_len: 128 },
        IpCidr {
            address: IpAddress::Ipv6(Ipv6Address(0xfdbe_0000_0000_0000_0000_0000_0000_0001)),
            prefix_len: 64,
        },
    ]
}

/// What an interface on a new device of the given medium is set up with: its hardware
/// address, its IP addresses and the device.
pub fn setup(medium: Medium) -> (r: (HardwareAddress, Vec<IpCidr>, TestingDevice))
    ensures
        r.0 == match medium {
            Medium::Ethernet => HardwareAddress::Ethernet(0x02_02_02_02_02_02),
            Medium::Ip => HardwareAddress::Ip,
            Medium::Ieee802154 => HardwareAddress::Ieee802154(0x02_02_02_02_02_02_02_02),
        },
        r.1@ == setup_addrs(),
        forall|i: int| 0 <= i < r.1@.len() ==> (#[trigger] r.1@[i]).valid(),
        r.2@ == TestingView::initial(medium),
{
    let hardware_addr = match medium {
        Medium::Ethernet => HardwareAddress::Ethernet(0x02_02_02_02_02_02),
        Medium::Ip => HardwareAddress::Ip,
        Medium::Ieee802154 => HardwareAddress::Ieee802154(0x02_02_02_02_02_02_02_02),
    };
    let mut addrs: Vec<IpCidr> = Vec::new();
    addrs.push(IpCidr::new(IpAddress::Ipv4(Ipv4Address(0xc0a8_0101)), 24));
    addrs.push(IpCidr::new(IpAddress::Ipv4(Ipv4Address(0x7f00_0001)), 8));
    addrs.push(
        IpCidr::new(
            IpAddress::Ipv6(Ipv6Address(0xfe80_0000_0000_0000_0000_0000_0000_0001)),
            64,
        ),
    );
    addrs.push(IpCidr::new(IpAddress::Ipv6(Ipv6Address(1)), 128));
    addrs.push(
        IpCidr::new(
            IpAddress::Ipv6(Ipv6Address(0xfdbe_0000_0000_0000_0000_0000_0000_0001)),
            64,
        ),
    );
    assert(addrs@ =~= setup_addrs());
    (hardware_addr, addrs, TestingDevice::new(medium))
}

/// `len` octets that are zero.
pub open spec fn zeros(len: usize) -> Seq<u8> {
    Seq::new(len as nat, |i: int| 0u8)
}

/// A frame that has been received.
#[derive(Debug)]
pub struct RxToken {
    pub buffer: Vec<u8>,
}

impl RxToken {
    /// Hands the frame to `f`.
    pub fn consume<R, F>(self, f: F) -> (r: R) where F: FnOnce(&[u8]) -> R
        requires
            forall|s: &[u8]| s@ == self.buffer@ ==> #[trigger] f.requires((s,)),
        ensures
            exists|s: &[u8]| s@ == self.buffer@ && #[trigger] f.ensures((s,), r),
    {
        f(self.buffer.as_slice())
    }
}

/// The permission to transmit a frame.
pub struct TxToken<'a> {
    pub queue: &'a mut VecDeque<Vec<u8>>,
}

impl<'a> TxToken<'a> {
    /// The frames transmitted so far.
    pub open spec fn frames(&self) -> Seq<Vec<u8>> {
        self.queue@
    }

    /// Transmits a frame of `len` octets, which `f` fills.
    pub fn consume<R, F>(self, len: usize, f: F) -> (r: R) where F: FnOnce(&mut [u8]) -> R
        requires
            forall|s: &mut [u8]| s@ == zeros(len) ==> #[trigger] f.requires((s,)),
        ensures
            exists|s: &mut [u8], frame: Vec<u8>|
                {
                    &&& s@ == zeros(len)
                    &&& #[trigger] f.ensures((s,), r)
                    &&& frame@ == final(s)@
                    &&& final(self.queue)@ == #[trigger] self.frames().push(frame)
                },
    {
        let mut buffer: Vec<u8> = vec![0; len];
        assert(buffer@ =~= zeros(len));
        let ghost before = self.frames();
        let r = f(buffer.as_mut_slice());
        self.queue.push_back(buffer);
        proof {
            assert(self.queue@ == before.push(buffer));
            assert(exists|s: &mut [u8]|
                s@ == zeros(len) && #[trigger] f.ensures((s,), r) && buffer@ == final(s)@);
        }
        r
    }
}

impl TestingDevice {
    /// Creates a testing device.
    pub fn new(medium: Medium) -> (r: TestingDevice)
        ensures
            r@ == TestingView::initial(medium),
    {
        TestingDevice {
            tx_queue: VecDeque::new(),
            rx_queue: VecDeque::new(),
            max_transmission_unit: match medium {
                Medium::Ethernet => 1514,
                Medium::Ip => 1500,
                Medium::Ieee802154 => 1500,
            },
            medium,
            egress_key_override: None,
            egress_key_calls: 0,
            egress_schedule: None,
            egress_demand_updates: Vec::new(),
            egress_grants: VecDeque::new(),
            egress_grant_completions: Vec::new(),
            granted_transmit_serials: Vec::new(),
            ordinary_transmit_calls: 0,
            control_transmit_calls: 0,
        }
    }

    /// The medium of this device.
    pub fn medium(&self) -> (r: Medium)
        ensures
            r == self@.medium,
    {
        self.medium
    }

    /// Sets the key that stands for every route, or none.
    pub fn set_egress_key_override(&mut self, key: Option<EgressKey>)
        ensures
            final(self)@ == (TestingView { egress_key_override: key, ..old(self)@ }),
    {
        self.egress_key_override = key;
    }

    /// Sets the schedule that it reports.
    pub fn set_egress_schedule(&mut self, schedule: Option<EgressSchedule>)
        ensures
            final(self)@ == (TestingView { egress_schedule: schedule, ..old(self)@ }),
    {
        self.egress_schedule = schedule;
    }

    /// Adds a permission to hand out.
    pub fn push_egress_grant(&mut self, grant: EgressBurstGrant)
        ensures
            final(self)@ == (TestingView {
                egress_grants: old(self)@.egress_grants.push(grant),
                ..old(self)@
            }),
    {
        self.egress_grants.push_back(grant);
    }

    /// The medium and the MTU that it reports.
    pub fn capabilities(&self) -> (r: (Medium, usize))
        ensures
            r == (self@.medium, self@.max_transmission_unit),
    {
        (self.medium, self.max_transmission_unit)
    }

    /// Takes the oldest frame to receive, together with the permission to answer it.
    pub fn receive(&mut self) -> (r: Option<(RxToken, TxToken<'_>)>)
        ensures
            match r {
                Some((rx, tx)) => {
                    &&& old(self)@.rx_queue.len() > 0
                    &&& rx.buffer == old(self)@.rx_queue[0]
                    &&& tx.frames() == old(self)@.tx_queue
                    &&& final(self)@ == (TestingView {
                        rx_queue: old(self)@.rx_queue.skip(1),
                        tx_queue: final(tx.queue)@,
                        ..old(self)@
                    })
                },
                None => old(self)@.rx_queue.len() == 0 && final(self)@ == old(self)@,
            },
    {
        let ghost v = self@;
        match self.rx_queue.pop_front() {
            Some(buffer) => {
                assert(self.rx_queue@ =~= v.rx_queue.skip(1));
                Some((RxToken { buffer }, TxToken { queue: &mut self.tx_queue }))
            },
            None => None,
        }
    }

    /// The permission to transmit a frame, which is always given.
    pub fn transmit(&mut self) -> (r: Option<TxToken<'_>>)
        ensures
            r matches Some(tx) && tx.frames() == old(self)@.tx_queue && final(self)@ == (
            TestingView {
                ordinary_transmit_calls: counted(old(self)@.ordinary_transmit_calls),
                tx_queue: final(tx.queue)@,
                ..old(self)@
            }),
    {
        self.ordinary_transmit_calls = self.ordinary_transmit_calls.saturating_add(1);
        Some(TxToken { queue: &mut self.tx_queue })
    }

    /// The permission to transmit a frame of the stack's own, which is always given.
    pub fn transmit_control(&mut self) -> (r: Option<TxToken<'_>>)
        ensures
            r matches Some(tx) && tx.frames() == old(self)@.tx_queue && final(self)@ == (
            TestingView {
                control_transmit_calls: counted(old(self)@.control_transmit_calls),
                tx_queue: final(tx.queue)@,
                ..old(self)@
            }),
    {
        self.control_transmit_calls = self.control_transmit_calls.saturating_add(1);
        Some(TxToken { queue: &mut self.tx_queue })
    }

    /// The permission to transmit a frame under a grant, which is always given.
    pub fn transmit_granted(&mut self, grant_serial: u32) -> (tx: TxToken<'_>)
        ensures
            tx.frames() == old(self)@.tx_queue,
            final(self)@ == (TestingView {
                ordinary_transmit_calls: counted(old(self)@.ordinary_transmit_calls),
                granted_transmit_serials: old(self)@.granted_transmit_serials.push(grant_serial),
                tx_queue: final(tx.queue)@,
                ..old(self)@
            }),
    {
        self.ordinary_transmit_calls = self.ordinary_transmit_calls.saturating_add(1);
        self.granted_transmit_serials.push(grant_serial);
        TxToken { queue: &mut self.tx_queue }
    }

    /// The key of a route: `routed`, unless one stands for every route.
    pub fn egress_key(&mut self, routed: EgressKey) -> (r: EgressKey)
        ensures
            r == match old(self)@.egress_key_override {
                Some(key) => key,
                None => routed,
            },
            final(self)@ == (TestingView {
                egress_key_calls: counted(old(self)@.egress_key_calls),
                ..old(self)@
            }),
    {
        self.egress_key_calls = self.egress_key_calls.saturating_add(1);
        match self.egress_key_override {
            Some(key) => key,
            None => routed,
        }
    }

    /// The schedule that it reports.
    pub fn egress_schedule(&self) -> (r: Option<EgressSchedule>)
        ensures
            r == self@.egress_schedule,
    {
        self.egress_schedule
    }

    /// Takes note of the packets that wait.
    pub fn update_egress_demand(&mut self, update: EgressDemandUpdate)
        ensures
            final(self)@ == (TestingView {
                egress_demand_updates: old(self)@.egress_demand_updates.push(update),
                ..old(self)@
            }),
    {
        self.egress_demand_updates.push(update);
    }

    /// Takes the oldest permission to hand out, if any.
    pub fn poll_egress_grant(&mut self) -> (r: Option<EgressBurstGrant>)
        ensures
            match r {
                Some(grant) => {
                    &&& old(self)@.egress_grants.len() > 0
                    &&& grant == old(self)@.egress_grants[0]
                    &&& final(self)@ == (TestingView {
                        egress_grants: old(self)@.egress_grants.skip(1),
                        ..old(self)@
                    })
                },
                None => old(self)@.egress_grants.len() == 0 && final(self)@ == old(self)@,
            },
    {
        let ghost v = self@;
        let r = self.egress_grants.pop_front();
        proof {
            if r is Some {
                assert(self@.egress_grants =~= v.egress_grants.skip(1));
            }
        }
        r
    }

    /// Takes note of a permission that has been used.
    pub fn finish_egress_grant(&mut self, completion: EgressGrantCompletion)
        ensures
            final(self)@ == (TestingView {
                egress_grant_completions: old(self)@.egress_grant_completions.push(completion),
                ..old(self)@
            }),
    {
        self.egress_grant_completions.push(completion);
    }
}

} // verus!

//! Network interfaces: a device and the addresses assigned to it.
use crate::driver::Medium;
use crate::test_device::TestDevice;
use crate::wire::{IpAddress, IpCidr, LINK_HEADER_LEN};
use vstd::prelude::*;

verus! {

/// An interface of a stack.
#[derive(Debug)]
pub struct Iface {
    pub device: TestDevice,
    pub ip_addrs: Vec<IpCidr>,
}

/// The number of an interface added to a stack.
#[derive(Debug, Clone, Copy, PartialEq, Eq, Structural)]
pub struct IfaceHandle {
    pub index: usize,
}

/// The first of the addresses is `addr`, or a later one is.
pub open spec fn has_addr(addrs: Seq<IpCidr>, addr: IpAddress) -> bool {
    exists|i: int| 0 <= i < addrs.len() && (#[trigger] addrs[i]).address == addr
}

/// One of the networks contains `addr`.
pub open spec fn reaches(addrs: Seq<IpCidr>, addr: IpAddress) -> bool {
    exists|i: int| 0 <= i < addrs.len() && (#[trigger] addrs[i]).spec_contains(addr)
}

/// `addr` is a broadcast address of one of the networks.
pub open spec fn is_broadcast(addrs: Seq<IpCidr>, addr: IpAddress) -> bool {
    exists|i: int| 0 <= i < addrs.len() && (#[trigger] addrs[i]).spec_is_broadcast(addr)
}

/// The first address whose network contains `hop`.
pub open spec fn addr_towards(addrs: Seq<IpCidr>, hop: IpAddress) -> Option<IpAddress>
    decreases addrs.len(),
{
    if addrs.len() == 0 {
        None
    } else if addrs[0].spec_contains(hop) {
        Some(addrs[0].address)
    } else {
        addr_towards(addrs.skip(1), hop)
    }
}

/// The first address of the same version as `hop`.
pub open spec fn addr_of_version(addrs: Seq<IpCidr>, hop: IpAddress) -> Option<IpAddress>
    decreases addrs.len(),
{
    if addrs.len() == 0 {
        None
    } else if addrs[0].address.version() == hop.version() {
        Some(addrs[0].address)
    } else {
        addr_of_version(addrs.skip(1), hop)
    }
}

/// The address from which to reach `hop`: one of its own network, if there is
/// one.
pub open spec fn source_towards(addrs: Seq<IpCidr>, hop: IpAddress) -> Option<IpAddress> {
    match addr_towards(addrs, hop) {
        Some(addr) => Some(addr),
        None => addr_of_version(addrs, hop),
    }
}

/// The address from which to reach a neighbor is the first one of the interface whose
/// network the neighbor is in. If it is in none, it is the first one of its version. There
/// is none only if the interface has no address of its version.
pub proof fn law_source_is_in_the_network(addrs: Seq<IpCidr>, hop: IpAddress, k: int)
    requires
        0 <= k < addrs.len(),
    ensures
        ({
            let near = |i: int| 0 <= i < addrs.len() && addrs[i].spec_contains(hop);
            let alike = |i: int|
                0 <= i < addrs.len() && (addrs[i].address is Ipv4 == hop is Ipv4);
            match source_towards(addrs, hop) {
                Some(addr) => exists|i: int|
                    {
                        &&& 0 <= i < addrs.len()
                        &&& (#[trigger] addrs[i]).address == addr
                        &&& near(k) ==> near(i) && i <= k
                        &&& !near(i) ==> alike(i) && !near(k) && (alike(k) ==> i <= k)
                    },
                None => !near(k) && !alike(k),
            }
        }),
{
    lemma_addr_towards(addrs, hop, k);
    lemma_addr_of_version(addrs, hop, k);
}

proof fn lemma_addr_towards(addrs: Seq<IpCidr>, hop: IpAddress, k: int)
    requires
        0 <= k < addrs.len(),
    ensures
        match addr_towards(addrs, hop) {
            Some(addr) => exists|i: int|
                {
                    &&& 0 <= i < addrs.len()
                    &&& (#[trigger] addrs[i]).address == addr
                    &&& addrs[i].spec_contains(hop)
                    &&& addrs[k].spec_contains(hop) ==> i <= k
                },
            None => !addrs[k].spec_contains(hop),
        },
    decreases addrs.len(),
{
    if addrs[0].spec_contains(hop) {
        assert(addrs[0].address == addr_towards(addrs, hop)->0);
    } else {
        let rest = addrs.skip(1);
        if k > 0 {
            lemma_addr_towards(rest, hop, k - 1);
            assert(rest[k - 1] == addrs[k]);
        } else if rest.len() > 0 {
            lemma_addr_towards(rest, hop, 0);
        }
        if let Some(addr) = addr_towards(rest, hop) {
            let i = choose|i: int|
                {
                    &&& 0 <= i < rest.len()
                    &&& (#[trigger] rest[i]).address == addr
                    &&& rest[i].spec_contains(hop)
                    &&& k > 0 && addrs[k].spec_contains(hop) ==> i <= k - 1
                };
            assert(addrs[i + 1] == rest[i]);
        }
    }
}

proof fn lemma_addr_of_version(addrs: Seq<IpCidr>, hop: IpAddress, k: int)
    requires
        0 <= k < addrs.len(),
    ensures
        match addr_of_version(addrs, hop) {
            Some(addr) => exists|i: int|
                {
                    &&& 0 <= i < addrs.len()
                    &&& (#[trigger] addrs[i]).address == addr
                    &&& addrs[i].address is Ipv4 == hop is Ipv4
                    &&& addrs[k].address is Ipv4 == hop is Ipv4 ==> i <= k
                },
            None => addrs[k].address is Ipv4 != hop is Ipv4,
        },
    decreases addrs.len(),
{
    if addrs[0].address.version() == hop.version() {
        assert(addrs[0].address == addr_of_version(addrs, hop)->0);
    } else {
        let rest = addrs.skip(1);
        if k > 0 {
            lemma_addr_of_version(rest, hop, k - 1);
            assert(rest[k - 1] == addrs[k]);
        } else if rest.len() > 0 {
            lemma_addr_of_version(rest, hop, 0);
        }
        if let Some(addr) = addr_of_version(rest, hop) {
            let i = choose|i: int|
                {
                    &&& 0 <= i < rest.len()
                    &&& (#[trigger] rest[i]).address == addr
                    &&& rest[i].address is Ipv4 == hop is Ipv4
                    &&& k > 0 && (addrs[k].address is Ipv4 == hop is Ipv4) ==> i <= k - 1
                };
            assert(addrs[i + 1] == rest[i]);
        }
    }
}

/// The largest IP packet is the largest frame of the device, without the fourteen octets
/// that an Ethernet header takes.
pub proof fn law_frames_have_headers(dev: Iface)
    ensures
        dev.device.medium == Medium::Ethernet && dev.device.mtu >= 14 ==> dev.spec_ip_mtu()
            == dev.device.mtu - 14,
        dev.device.medium == Medium::Ethernet && dev.device.mtu < 14 ==> dev.spec_ip_mtu() == 0,
        dev.device.medium != Medium::Ethernet ==> dev.spec_ip_mtu() == dev.device.mtu,
{
}

impl Iface {
    pub open spec fn inv(&self) -> bool {
        forall|i: int| 0 <= i < self.ip_addrs@.len() ==> (#[trigger] self.ip_addrs@[i]).valid()
    }

    /// The largest IP packet that fits into a frame of the device.
    pub open spec fn spec_ip_mtu(&self) -> usize {
        match self.device.medium {
            Medium::Ethernet => if self.device.mtu < LINK_HEADER_LEN {
                0
            } else {
                (self.device.mtu - LINK_HEADER_LEN) as usize
            },
            _ => self.device.mtu,
        }
    }

    pub fn new(device: TestDevice) -> (r: Iface)
        ensures
            r.inv(),
            r.device == device,
            r.ip_addrs@ == Seq::<IpCidr>::empty(),
    {
        Iface { device, ip_addrs: Vec::new() }
    }

    pub fn ip_mtu(&self) -> (r: usize)
        ensures
            r == self.spec_ip_mtu(),
    {
        match self.device.medium {
            Medium::Ethernet => self.device.mtu.saturating_sub(LINK_HEADER_LEN),
            _ => self.device.mtu,
        }
    }

    /// Assigns another address.
    pub fn add_ip_addr(&mut self, cidr: IpCidr)
        requires
            old(self).inv(),
            cidr.valid(),
        ensures
            final(self).inv(),
            final(self).device == old(self).device,
            final(self).ip_addrs@ == old(self).ip_addrs@.push(cidr),
    {
        self.ip_addrs.push(cidr);
    }

    pub fn has_ip_addr(&self, addr: IpAddress) -> (r: bool)
        ensures
            r == has_addr(self.ip_addrs@, addr),
    {
        let mut i: usize = 0;
        while i < self.ip_addrs.len()
            invariant
                i <= self.ip_addrs@.len(),
                forall|k: int| 0 <= k < i ==> (#[trigger] self.ip_addrs@[k]).address != addr,
            decreases self.ip_addrs@.len() - i,
        {
            if self.ip_addrs[i].address == addr {
                assert(self.ip_addrs@[i as int].address == addr);
                return true;
            }
            i = i + 1;
        }
        false
    }

    /// Whether one of the networks contains `addr`.
    pub fn contains(&self, addr: IpAddress) -> (r: bool)
        requires
            self.inv(),
        ensures
            r == reaches(self.ip_addrs@, addr),
    {
        let mut i: usize = 0;
        while i < self.ip_addrs.len()
            invariant
                i <= self.ip_addrs@.len(),
                self.inv(),
                forall|k: int| 0 <= k < i ==> !(#[trigger] self.ip_addrs@[k]).spec_contains(addr),
            decreases self.ip_addrs@.len() - i,
        {
            assert(self.ip_addrs@[i as int].valid());
            if self.ip_addrs[i].contains(addr) {
                return true;
            }
            i = i + 1;
        }
        false
    }

    /// Whether `addr` is a broadcast address of one of the networks.
    pub fn is_broadcast(&self, addr: IpAddress) -> (r: bool)
        requires
            self.inv(),
        ensures
            r == is_broadcast(self.ip_addrs@, addr),
    {
        let mut i: usize = 0;
        while i < self.ip_addrs.len()
            invariant
                i <= self.ip_addrs@.len(),
                self.inv(),
                forall|k: int|
                    0 <= k < i ==> !(#[trigger] self.ip_addrs@[k]).spec_is_broadcast(addr),
            decreases self.ip_addrs@.len() - i,
        {
            assert(self.ip_addrs@[i as int].valid());
            if self.ip_addrs[i].is_broadcast(addr) {
                return true;
            }
            i = i + 1;
        }
        false
    }

    /// The address from which to reach `hop`.
    pub fn source_for(&self, hop: IpAddress) -> (r: Option<IpAddress>)
        requires
            self.inv(),
        ensures
            r == source_towards(self.ip_addrs@, hop),
    {
        let ghost addrs = self.ip_addrs@;
        assert(addrs.skip(0) =~= addrs);
        let mut i: usize = 0;
        while i < self.ip_addrs.len()
            invariant
                i <= addrs.len(),
                addrs == self.ip_addrs@,
                self.inv(),
                addr_towards(addrs, hop) == addr_towards(addrs.skip(i as int), hop),
            decreases addrs.len() - i,
        {
            assert(self.ip_addrs@[i as int].valid());
            assert(addrs.skip(i as int).skip(1) =~= addrs.skip(i + 1));
            if self.ip_addrs[i].contains(hop) {
                return Some(self.ip_addrs[i].address);
            }
            i = i + 1;
        }
        let mut j: usize = 0;
        while j < self.ip_addrs.len()
            invariant
                j <= addrs.len(),
                addrs == self.ip_addrs@,
                addr_towards(addrs, hop) is None,
                addr_of_version(addrs, hop) == addr_of_version(addrs.skip(j as int), hop),
            decreases addrs.len() - j,
        {
            assert(addrs.skip(j as int).skip(1) =~= addrs.skip(j + 1));
            if self.ip_addrs[j].address.version() == hop.version() {
                return Some(self.ip_addrs[j].address);
            }
            j = j + 1;
        }
        None
    }
}

} // verus!

//! The devices that carry frames in tests.
use xarxa::driver::{
    Checksum, ChecksumCapabilities, HardwareAddress, LinkState, Medium, PacketMeta, PacketPool,
    Timestamp, TxTimestamp,
};
use xarxa::test_device::{packet_allocator, TestDevice};
use xarxa::testing_device::{
    setup, EgressBurstGrant, EgressDemandUpdate, EgressGrantCompletion, EgressKey, EgressSchedule,
    TestingDevice,
};
use xarxa::wire::{IpAddress, Ipv4Address, Ipv6Address};

#[test]
fn device_reports_what_it_was_given() {
    let checksum = ChecksumCapabilities {
        ipv4: Checksum { rx: false, tx: true },
        ..ChecksumCapabilities::default()
    };
    let device = TestDevice::new(Medium::Ethernet)
        .with_mtu(600)
        .with_checksum(checksum);
    assert_eq!(device.capabilities(), (Medium::Ethernet, 600, checksum));
    assert_eq!(device.hardware_address(), HardwareAddress::Ethernet(0x02_00_00_00_00_01));
    assert_eq!(device.link_state(), LinkState::Up);
    assert_eq!(TestDevice::new(Medium::Ip).hardware_address(), HardwareAddress::Ip);
}

#[test]
fn device_receives_frames_in_order() {
    let mut pool = PacketPool::new(2, 128);
    let meta = PacketMeta { id: 5, request_timestamp: false };
    let mut device = TestDevice::new(Medium::Ip).with_rx_meta(meta);
    device.rx.push(b"first".to_vec());
    device.rx.push(b"second".to_vec());
    let a = device.receive(&mut pool).unwrap();
    let b = device.receive(&mut pool).unwrap();
    assert_eq!((a.bytes(), a.meta), (&b"first"[..], meta));
    assert_eq!(b.bytes(), b"second");
    assert!(device.receive(&mut pool).is_none());
    assert_eq!(pool.free, 0);
    pool.release(a);
    assert_eq!(pool.free, 1);
}

#[test]
fn device_refuses_frames_without_room() {
    let mut pool = packet_allocator();
    let mut device = TestDevice::new(Medium::Ip);
    device.room = Some(1);
    assert!(device.can_transmit());
    let mut buf = pool.try_alloc().unwrap();
    buf.set_len(3);
    buf.bytes_mut().copy_from_slice(b"abc");
    assert!(device.transmit(buf).is_ok());
    assert_eq!(device.tx, vec![b"abc".to_vec()]);
    assert!(!device.can_transmit());
    assert!(device.transmit(pool.try_alloc().unwrap()).is_err());
    assert_eq!(device.tx.len(), 1);
}

#[test]
fn timestamps_come_for_those_who_ask() {
    let stamp = Timestamp { seconds: 7, nanos: 9 };
    let mut device = TestDevice::new(Medium::Ip).with_tx_stamp(stamp);
    let mut pool = packet_allocator();
    device.transmit(pool.try_alloc().unwrap()).unwrap();
    assert_eq!(device.poll_tx_timestamp(), None);
    let mut buf = pool.try_alloc().unwrap();
    buf.meta = PacketMeta { id: 3, request_timestamp: true };
    device.transmit(buf).unwrap();
    assert_eq!(device.poll_tx_timestamp(), Some(TxTimestamp { id: 3, timestamp: stamp }));
    assert_eq!(device.poll_tx_timestamp(), None);
}

#[test]
fn buffers_have_room_in_front() {
    let mut buf = packet_allocator().try_alloc().unwrap();
    assert_eq!((buf.len(), buf.capacity()), (0, 1514));
    buf.reserve(10);
    buf.set_len(2);
    buf.bytes_mut().copy_from_slice(b"cd");
    buf.push_front(2);
    buf.bytes_mut()[..2].copy_from_slice(b"ab");
    assert_eq!(buf.bytes(), b"abcd");
    buf.pull_front(3);
    assert_eq!(buf.bytes(), b"d");
}

#[test]
fn tokens_carry_frames() {
    let mut device = TestingDevice::new(Medium::Ip);
    assert_eq!(device.capabilities(), (Medium::Ip, 1500));
    assert_eq!(TestingDevice::new(Medium::Ethernet).capabilities(), (Medium::Ethernet, 1514));
    assert_eq!(device.medium(), Medium::Ip);
    assert!(device.receive().is_none());
    device.rx_queue.push_back(b"in".to_vec());
    {
        let (rx, tx) = device.receive().unwrap();
        assert_eq!(rx.consume(|frame| frame.len()), 2);
        let sum = tx.consume(3, |frame| {
            assert_eq!(frame, [0, 0, 0]);
            frame.copy_from_slice(b"out");
            17
        });
        assert_eq!(sum, 17);
    }
    assert_eq!(device.tx_queue, [b"out".to_vec()]);
    device.transmit().unwrap().consume(1, |frame| frame[0] = b'x');
    device.transmit_control().unwrap().consume(1, |frame| frame[0] = b'y');
    device.transmit_granted(4).consume(1, |frame| frame[0] = b'z');
    assert_eq!(device.tx_queue.len(), 4);
    assert_eq!((device.ordinary_transmit_calls, device.control_transmit_calls), (2, 1));
    assert_eq!(device.granted_transmit_serials, [4]);
}

#[test]
fn egress_is_under_control() {
    let mut device = TestingDevice::new(Medium::Ip);
    assert_eq!(device.egress_key(EgressKey(5)), EgressKey(5));
    device.set_egress_key_override(Some(EgressKey(9)));
    assert_eq!(device.egress_key(EgressKey(5)), EgressKey(9));
    assert_eq!(device.egress_key_calls, 2);
    assert_eq!(device.egress_schedule(), None);
    device.set_egress_schedule(Some(EgressSchedule(1)));
    assert_eq!(device.egress_schedule(), Some(EgressSchedule(1)));
    device.push_egress_grant(EgressBurstGrant(1));
    device.push_egress_grant(EgressBurstGrant(2));
    assert_eq!(device.poll_egress_grant(), Some(EgressBurstGrant(1)));
    assert_eq!(device.poll_egress_grant(), Some(EgressBurstGrant(2)));
    assert_eq!(device.poll_egress_grant(), None);
    device.update_egress_demand(EgressDemandUpdate(3));
    device.finish_egress_grant(EgressGrantCompletion(4));
    assert_eq!(device.egress_demand_updates, [EgressDemandUpdate(3)]);
    assert_eq!(device.egress_grant_completions, [EgressGrantCompletion(4)]);
}

#[test]
fn setup_assigns_addresses() {
    let (hw, addrs, device) = setup(Medium::Ieee802154);
    assert_eq!(hw, HardwareAddress::Ieee802154(0x02_02_02_02_02_02_02_02));
    assert_eq!(device.capabilities(), (Medium::Ieee802154, 1500));
    assert_eq!(addrs.len(), 5);
    assert_eq!(addrs[0].address, IpAddress::Ipv4(Ipv4Address::new(192, 168, 1, 1)));
    assert_eq!(addrs[1].prefix_len, 8);
    assert_eq!(addrs[2].address, IpAddress::Ipv6(Ipv6Address((0xfe80 << 112) + 1)));
    assert_eq!(addrs[3].prefix_len, 128);
    assert_eq!(addrs[4].address, IpAddress::Ipv6(Ipv6Address((0xfdbe << 112) + 1)));
    assert_eq!(setup(Medium::Ethernet).0, HardwareAddress::Ethernet(0x02_02_02_02_02_02));
    assert_eq!(setup(Medium::Ip).0, HardwareAddress::Ip);
}

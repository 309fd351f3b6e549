pub mod driver;
pub mod icmp_error;
pub mod iface;
pub mod matching;
pub mod rand;
pub mod stack;
pub mod storage;
pub mod tcp;
pub mod test_device;
pub mod testing_device;
pub mod time;
pub mod udp;
pub mod waker;
pub mod wire;

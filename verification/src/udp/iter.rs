//! Going through the UDP sockets of a stack.
use super::{UdpHandle, UdpSocket};
use crate::stack::Stack;
use crate::storage::slab;
use vstd::prelude::*;

verus! {

/// Goes through the UDP sockets of a stack, one at a time.
///
/// Each item borrows the stack, so only one can exist at a time.
pub struct UdpSocketIter<'a, 'd> {
    pub stack: &'a mut Stack<'d>,
    pub next: usize,
}

impl<'a, 'd> UdpSocketIter<'a, 'd> {
    /// The stack as it is.
    pub open spec fn current(&self) -> Stack<'d> {
        *self.stack
    }

    /// The next UDP socket, with its handle. `None` when there are no more.
    pub fn next<'b>(&'b mut self) -> (ret: Option<(UdpHandle, UdpSocket<'b>)>)
        requires
            old(self).current().inv(),
        ensures
            *final(final(self).stack) == *final(old(self).stack),
            match ret {
                Some((handle, socket)) => {
                    &&& old(self).next <= handle.index
                    &&& slab::occupied(old(self).current().udp@, handle.index as int)
                    &&& forall|k: int|
                        old(self).next <= k < handle.index ==> !#[trigger] slab::occupied(
                            old(self).current().udp@,
                            k,
                        )
                    &&& final(self).next == handle.index + 1
                    &&& socket.inv()
                    &&& socket.index == handle.index
                    &&& socket.slots() == old(self).current().udp@
                    &&& socket.net() == old(self).current().net()
                    &&& final(self).current().udp == *final(socket.sockets)
                    &&& final(self).current().inner == *final(socket.tx.inner)
                    &&& final(self).current().ifaces == *final(socket.tx.ifaces)
                    &&& final(self).current().tcp == old(self).current().tcp
                    &&& final(self).current().listeners == old(self).current().listeners
                },
                None => {
                    &&& forall|k: int|
                        old(self).next <= k ==> !#[trigger] slab::occupied(
                            old(self).current().udp@,
                            k,
                        )
                    &&& final(self).next == old(self).next
                    &&& final(self).current() == old(self).current()
                },
            },
    {
        match self.stack.udp.next_occupied(self.next) {
            Some(index) => {
                let length: usize = self.stack.udp.len();
                self.next = index + 1;
                let handle = UdpHandle { index };
                Some((handle, self.stack.udp_socket(handle)))
            },
            None => None,
        }
    }
}

} // verus!

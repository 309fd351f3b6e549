//! Going through the TCP sockets of a stack.
use super::{TcpHandle, TcpSocket};
use crate::stack::Stack;
use crate::storage::slab;
use vstd::prelude::*;

verus! {

/// Goes through the TCP sockets of a stack, one at a time.
///
/// Each item borrows the stack, so only one can exist at a time.
pub struct TcpSocketIter<'a, 'd> {
    pub stack: &'a mut Stack<'d>,
    pub next: usize,
}

impl<'a, 'd> TcpSocketIter<'a, 'd> {
    /// The stack as it is.
    pub open spec fn current(&self) -> Stack<'d> {
        *self.stack
    }

    /// The next TCP socket, with its handle. `None` when there are no more.
    pub fn next<'b>(&'b mut self) -> (ret: Option<(TcpHandle, TcpSocket<'b, 'd>)>)
        requires
            old(self).current().inv(),
        ensures
            *final(final(self).stack) == *final(old(self).stack),
            match ret {
                Some((handle, socket)) => {
                    &&& old(self).next <= handle.index
                    &&& slab::occupied(old(self).current().tcp@, handle.index as int)
                    &&& forall|k: int|
                        old(self).next <= k < handle.index ==> !#[trigger] slab::occupied(
                            old(self).current().tcp@,
                            k,
                        )
                    &&& final(self).next == handle.index + 1
                    &&& socket.inv()
                    &&& socket.index == handle.index
                    &&& socket.slots() == old(self).current().tcp@
                    &&& socket.net() == old(self).current().net()
                    &&& final(self).current().tcp == *final(socket.sockets)
                    &&& final(self).current().inner == *final(socket.tx.inner)
                    &&& final(self).current().ifaces == *final(socket.tx.ifaces)
                    &&& final(self).current().udp == old(self).current().udp
                    &&& final(self).current().listeners == old(self).current().listeners
                },
                None => {
                    &&& forall|k: int|
                        old(self).next <= k ==> !#[trigger] slab::occupied(
                            old(self).current().tcp@,
                            k,
                        )
                    &&& final(self).next == old(self).next
                    &&& final(self).current() == old(self).current()
                },
            },
    {
        match self.stack.tcp.next_occupied(self.next) {
            Some(index) => {
                let length: usize = self.stack.tcp.len();
                self.next = index + 1;
                let handle = TcpHandle { index };
                Some((handle, self.stack.tcp_socket(handle)))
            },
            None => None,
        }
    }
}

} // verus!

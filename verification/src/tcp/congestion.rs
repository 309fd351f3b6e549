//! Congestion control: how much data may be in flight.
use vstd::prelude::*;

verus! {

/// The congestion window that a controlled connection starts with.
pub const INITIAL_CWND: usize = 2048;

/// The remote window assumed until the remote has announced one.
pub const INITIAL_RWND: usize = 65_536;

/// The state of the congestion control of a connection.
#[derive(Debug, Clone, Copy, PartialEq, Eq, Structural)]
pub enum Congestion {
    /// No limit beside the window of the remote.
    NoControl,
    /// Slow start below the threshold, linear growth above it, half the window on a
    /// loss, and slow start again after a timeout.
    Reno { cwnd: usize, min_cwnd: usize, ssthresh: usize, rwnd: usize },
}

/// Half of the window, but no less than the least window.
pub open spec fn half_window(cwnd: usize, min_cwnd: usize) -> usize {
    if cwnd / 2 < min_cwnd {
        min_cwnd
    } else {
        cwnd / 2
    }
}

/// The window once `len` octets have been acknowledged.
pub open spec fn grown_window(
    cwnd: usize,
    min_cwnd: usize,
    ssthresh: usize,
    rwnd: usize,
    len: usize,
) -> usize {
    let step = if cwnd < ssthresh {
        len
    } else {
        min_cwnd
    };
    let sum = if cwnd + step > rwnd {
        rwnd as int
    } else {
        cwnd + step
    };
    if sum < min_cwnd {
        min_cwnd
    } else {
        sum as usize
    }
}

impl Congestion {
    /// The same way of control in its initial state.
    pub open spec fn restarted(self) -> Congestion {
        match self {
            Congestion::NoControl => Congestion::NoControl,
            Congestion::Reno { .. } => Congestion::Reno {
                cwnd: INITIAL_CWND,
                min_cwnd: INITIAL_CWND,
                ssthresh: usize::MAX,
                rwnd: INITIAL_RWND,
            },
        }
    }

    /// The number of octets that may be in flight.
    pub open spec fn spec_window(self) -> usize {
        match self {
            Congestion::NoControl => usize::MAX,
            Congestion::Reno { cwnd, .. } => cwnd,
        }
    }

    pub open spec fn with_mss(self, mss: usize) -> Congestion {
        match self {
            Congestion::NoControl => self,
            Congestion::Reno { cwnd, ssthresh, rwnd, .. } => Congestion::Reno {
                cwnd,
                min_cwnd: mss,
                ssthresh,
                rwnd,
            },
        }
    }

    pub open spec fn with_remote_window(self, window: usize) -> Congestion {
        match self {
            Congestion::NoControl => self,
            Congestion::Reno { cwnd, min_cwnd, ssthresh, rwnd } => Congestion::Reno {
                cwnd,
                min_cwnd,
                ssthresh,
                rwnd: if rwnd < window {
                    window
                } else {
                    rwnd
                },
            },
        }
    }

    /// After an acknowledgement of `len` octets.
    pub open spec fn acked(self, len: usize) -> Congestion {
        match self {
            Congestion::NoControl => self,
            Congestion::Reno { cwnd, min_cwnd, ssthresh, rwnd } => Congestion::Reno {
                cwnd: grown_window(cwnd, min_cwnd, ssthresh, rwnd, len),
                min_cwnd,
                ssthresh,
                rwnd,
            },
        }
    }

    /// After a duplicate acknowledgement.
    pub open spec fn dup_acked(self) -> Congestion {
        match self {
            Congestion::NoControl => self,
            Congestion::Reno { cwnd, min_cwnd, rwnd, .. } => Congestion::Reno {
                cwnd,
                min_cwnd,
                ssthresh: half_window(cwnd, min_cwnd),
                rwnd,
            },
        }
    }

    /// After a loss.
    pub open spec fn lost(self) -> Congestion {
        match self {
            Congestion::NoControl => self,
            Congestion::Reno { cwnd, min_cwnd, ssthresh, rwnd } => Congestion::Reno {
                cwnd: half_window(cwnd, min_cwnd),
                min_cwnd,
                ssthresh,
                rwnd,
            },
        }
    }

    /// After a retransmission timeout: slow start, up to half the window.
    pub open spec fn timed_out(self) -> Congestion {
        match self {
            Congestion::NoControl => self,
            Congestion::Reno { cwnd, min_cwnd, rwnd, .. } => Congestion::Reno {
                cwnd: min_cwnd,
                min_cwnd,
                ssthresh: half_window(cwnd, min_cwnd),
                rwnd,
            },
        }
    }

    /// No congestion control.
    pub fn new() -> (r: Congestion)
        ensures
            r == Congestion::NoControl,
    {
        Congestion::NoControl
    }

    /// Congestion control in its initial state.
    pub fn reno() -> (r: Congestion)
        ensures
            r == (Congestion::Reno {
                cwnd: INITIAL_CWND,
                min_cwnd: INITIAL_CWND,
                ssthresh: usize::MAX,
                rwnd: INITIAL_RWND,
            }),
    {
        Congestion::Reno {
            cwnd: INITIAL_CWND,
            min_cwnd: INITIAL_CWND,
            ssthresh: usize::MAX,
            rwnd: INITIAL_RWND,
        }
    }

    /// Forgets what has been learned of a connection.
    pub fn restart(&mut self)
        ensures
            *final(self) == old(self).restarted(),
    {
        match *self {
            Congestion::NoControl => {},
            Congestion::Reno { .. } => {
                *self = Congestion::reno();
            },
        }
    }

    pub fn window(&self) -> (r: usize)
        ensures
            r == self.spec_window(),
    {
        match *self {
            Congestion::NoControl => usize::MAX,
            Congestion::Reno { cwnd, .. } => cwnd,
        }
    }

    pub fn set_mss(&mut self, mss: usize)
        ensures
            *final(self) == old(self).with_mss(mss),
    {
        match *self {
            Congestion::NoControl => {},
            Congestion::Reno { cwnd, ssthresh, rwnd, .. } => {
                *self = Congestion::Reno { cwnd, min_cwnd: mss, ssthresh, rwnd };
            },
        }
    }

    pub fn set_remote_window(&mut self, window: usize)
        ensures
            *final(self) == old(self).with_remote_window(window),
    {
        match *self {
            Congestion::NoControl => {},
            Congestion::Reno { cwnd, min_cwnd, ssthresh, rwnd } => {
                if rwnd < window {
                    *self = Congestion::Reno { cwnd, min_cwnd, ssthresh, rwnd: window };
                }
            },
        }
    }

    /// `len` octets have been acknowledged.
    pub fn on_ack(&mut self, len: usize)
        ensures
            *final(self) == old(self).acked(len),
    {
        match *self {
            Congestion::NoControl => {},
            Congestion::Reno { cwnd, min_cwnd, ssthresh, rwnd } => {
                let step: usize = if cwnd < ssthresh {
                    len
                } else {
                    min_cwnd
                };
                let sum: usize = cwnd.saturating_add(step);
                let capped: usize = if sum > rwnd {
                    rwnd
                } else {
                    sum
                };
                let next: usize = if capped < min_cwnd {
                    min_cwnd
                } else {
                    capped
                };
                *self = Congestion::Reno { cwnd: next, min_cwnd, ssthresh, rwnd };
            },
        }
    }

    /// An acknowledgement has been repeated.
    pub fn on_dup_ack(&mut self)
        ensures
            *final(self) == old(self).dup_acked(),
    {
        match *self {
            Congestion::NoControl => {},
            Congestion::Reno { cwnd, min_cwnd, rwnd, .. } => {
                let half: usize = if cwnd / 2 < min_cwnd {
                    min_cwnd
                } else {
                    cwnd / 2
                };
                *self = Congestion::Reno { cwnd, min_cwnd, ssthresh: half, rwnd };
            },
        }
    }

    /// Everything is being sent again, because a timeout has expired.
    pub fn on_rto(&mut self)
        ensures
            *final(self) == old(self).timed_out(),
    {
        match *self {
            Congestion::NoControl => {},
            Congestion::Reno { cwnd, min_cwnd, rwnd, .. } => {
                let half: usize = if cwnd / 2 < min_cwnd {
                    min_cwnd
                } else {
                    cwnd / 2
                };
                *self = Congestion::Reno { cwnd: min_cwnd, min_cwnd, ssthresh: half, rwnd };
            },
        }
    }

    /// A segment is being sent again, because an acknowledgement has been repeated
    /// often.
    pub fn on_loss(&mut self)
        ensures
            *final(self) == old(self).lost(),
    {
        match *self {
            Congestion::NoControl => {},
            Congestion::Reno { cwnd, min_cwnd, ssthresh, rwnd } => {
                let half: usize = if cwnd / 2 < min_cwnd {
                    min_cwnd
                } else {
                    cwnd / 2
                };
                *self = Congestion::Reno { cwnd: half, min_cwnd, ssthresh, rwnd };
            },
        }
    }
}

/// The congestion window grows with what is acknowledged, up to the window of the remote,
/// and shrinks on a loss, but never below a segment. A timeout makes it start over with
/// one segment.
pub proof fn law_window_follows_the_network(
    cwnd: usize,
    min_cwnd: usize,
    ssthresh: usize,
    rwnd: usize,
    len: usize,
)
    requires
        min_cwnd <= cwnd <= rwnd,
    ensures
        ({
            let c = Congestion::Reno { cwnd, min_cwnd, ssthresh, rwnd };
            &&& cwnd <= c.acked(len).spec_window() <= rwnd
            &&& cwnd < ssthresh && cwnd + len <= rwnd ==> c.acked(len).spec_window() == cwnd + len
            &&& min_cwnd <= c.lost().spec_window() <= cwnd
            &&& c.timed_out().spec_window() == min_cwnd
        }),
{
}

/// The window grows by what is acknowledged as long as it is below the threshold, and by
/// one segment per acknowledgement from there on. A repeated acknowledgement sets the
/// threshold to half of the window; a loss halves the window; a timeout does the former,
/// and makes the window start over with one segment. Half of the window is never less than
/// one segment.
pub proof fn law_window_grows_and_halves(
    cwnd: usize,
    min_cwnd: usize,
    ssthresh: usize,
    rwnd: usize,
    len: usize,
)
    ensures
        ({
            let c = Congestion::Reno { cwnd, min_cwnd, ssthresh, rwnd };
            let half = if cwnd as int / 2 > min_cwnd {
                cwnd as int / 2
            } else {
                min_cwnd as int
            };
            let step = if cwnd < ssthresh {
                len
            } else {
                min_cwnd
            };
            let least = if cwnd + step < rwnd {
                cwnd + step
            } else {
                rwnd as int
            };
            &&& least >= min_cwnd ==> c.acked(len).spec_window() == least
            &&& least < min_cwnd ==> c.acked(len).spec_window() == min_cwnd
            &&& c.acked(len) matches Congestion::Reno { min_cwnd: m, ssthresh: t, rwnd: r, .. } && m
                == min_cwnd && t == ssthresh && r == rwnd
            &&& c.dup_acked() matches Congestion::Reno { cwnd: w, min_cwnd: m, ssthresh: t, rwnd: r }
                && w == cwnd && m == min_cwnd && t == half && r == rwnd
            &&& c.lost() matches Congestion::Reno { cwnd: w, min_cwnd: m, ssthresh: t, rwnd: r } && w
                == half && m == min_cwnd && t == ssthresh && r == rwnd
            &&& c.timed_out() matches Congestion::Reno { cwnd: w, min_cwnd: m, ssthresh: t, rwnd: r }
                && w == min_cwnd && m == min_cwnd && t == half && r == rwnd
        }),
{
}

/// The controller learns the size of a segment and the largest window of the remote so
/// far, and forgets both with the connection. Without congestion control there is no limit,
/// whatever happens.
pub proof fn law_controller_learns(c: Congestion, mss: usize, window: usize, len: usize)
    ensures
        c.with_mss(mss).spec_window() == c.spec_window(),
        c.with_remote_window(window).spec_window() == c.spec_window(),
        c.with_mss(mss) matches Congestion::Reno { min_cwnd, .. } ==> min_cwnd == mss,
        c.with_remote_window(window) matches Congestion::Reno { rwnd, .. } ==> rwnd >= window,
        c.with_remote_window(window).with_remote_window(window) == c.with_remote_window(window),
        c.with_remote_window(0) == c,
        c is Reno ==> c.restarted().spec_window() == 2048 && c.restarted().restarted()
            == c.restarted(),
        c is NoControl ==> {
            &&& c.spec_window() == usize::MAX
            &&& c.acked(len) == c
            &&& c.dup_acked() == c
            &&& c.lost() == c
            &&& c.timed_out() == c
            &&& c.restarted() == c
        },
{
}

} // verus!

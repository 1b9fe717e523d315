//! The TCP connect probe of the batch scanner: the shorter operation
//! chain and the decisions taken on each completed submission.
use vstd::prelude::*;

use crate::ring::EntryStep;
use crate::scan_http::ECANCELED_ERRNO;

verus! {

/// The batch scanner's plain TCP connect probe.
pub struct ScanTcpConnect {}

impl ScanTcpConnect {
    pub fn new() -> ScanTcpConnect {
        ScanTcpConnect {  }
    }

    /// How many linked operations one address's probe chain holds: the
    /// connect, its timeout, and the close.
    pub fn ops_per_ip(&self) -> (r: usize)
        ensures
            r == 3,
    {
        3
    }
}

/// The steps of one TCP probe chain, in submission order.
pub fn tcp_chain_steps() -> (r: Vec<EntryStep>)
    ensures
        r@ == seq![EntryStep::Connect, EntryStep::ConnectTimeout, EntryStep::Close],
{
    let mut v: Vec<EntryStep> = Vec::new();
    v.push(EntryStep::Connect);
    v.push(EntryStep::ConnectTimeout);
    v.push(EntryStep::Close);
    proof {
        assert(v@ =~= seq![EntryStep::Connect, EntryStep::ConnectTimeout, EntryStep::Close]);
    }
    v
}

/// What the completion of one TCP-probe operation asks of the driver:
/// whether the file descriptor must be closed by hand (the linked
/// timeout cancelled the close), and whether this completion ends its
/// address's chain.  No buffer is ever inspected in this mode.
pub fn tcp_completion_action(step: EntryStep, result: i32) -> (r: (bool, bool))
    ensures
        r.0 == (step == EntryStep::Close && result == -ECANCELED_ERRNO),
        r.1 == (step == EntryStep::Close),
{
    match step {
        EntryStep::Close => (result == -ECANCELED_ERRNO, true),
        _ => (false, false),
    }
}

} // verus!

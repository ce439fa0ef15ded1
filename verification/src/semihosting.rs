//! Semihosting: asking whatever runs us to stop the machine.

use vstd::prelude::*;

verus! {

/// Terminate execution and report a status to the host.
pub const SYS_EXIT: u64 = 0x18;

/// The one reason the host treats as an intentional shutdown.
pub const ADP_STOPPED_APPLICATION_EXIT: u64 = 0x2_0026;

/// Statuses the host exits with.
pub const EXIT_SUCCESS: u64 = 0;

pub const EXIT_FAILURE: u64 = 1;

/// What to hand the host to exit with `status`: the operation, and the two
/// words its argument points at.
pub fn exit(status: u64) -> (r: (u64, [u64; 2]))
    ensures
        r.0 == SYS_EXIT,
        r.1@ == seq![ADP_STOPPED_APPLICATION_EXIT, status],
{
    let block: [u64; 2] = [ADP_STOPPED_APPLICATION_EXIT, status];
    (SYS_EXIT, block)
}

/// The host is asked to exit, for the reason it takes for a shutdown that is
/// meant, with the status it was given.
pub proof fn lemma_exit_reports_its_status(status: u64, r: (u64, [u64; 2]))
    requires
        call_ensures(exit, (status,), r),
    ensures
        r.0 == 0x18,
        r.1@.len() == 2,
        r.1@[0] == 0x2_0026,
        r.1@[1] == status,
{
}

} // verus!

//! The in-kernel classifier's decision rule.
//!
//! The classifier attached to the NIC reads each packet's ingress queue
//! index and redirects the packet to the socket registered for that
//! queue in the socket map. All policy lives in user space; the kernel
//! program only decides between redirecting and passing. The map lookup
//! itself runs in the kernel — here it is an input, so the rule is
//! checked for both outcomes.

use vstd::prelude::*;

verus! {

/// What the classifier tells the kernel to do with one packet.
#[derive(Clone, Copy, Debug, PartialEq, Eq, Structural)]
pub enum XdpAction {
    /// Deliver the packet to the registered socket.
    Redirect,
    /// Hand the packet to the kernel network stack.
    Pass,
}

/// The classifier's rule: redirect when the socket-map lookup for the
/// packet's queue succeeded, and fall back to passing the packet to the
/// kernel stack on any failure — the classifier never drops traffic.
pub fn xdp_redirect(lookup_ok: bool) -> (r: XdpAction)
    ensures
        r == if lookup_ok {
            XdpAction::Redirect
        } else {
            XdpAction::Pass
        },
{
    if lookup_ok {
        XdpAction::Redirect
    } else {
        XdpAction::Pass
    }
}

} // verus!

use xdp_relay::classifier::xdp_redirect;
use xdp_relay::classifier::XdpAction;

#[test]
fn redirects_when_socket_lookup_succeeds() {
    assert_eq!(xdp_redirect(true), XdpAction::Redirect);
}

#[test]
fn passes_to_kernel_stack_on_failure() {
    assert_eq!(xdp_redirect(false), XdpAction::Pass);
}

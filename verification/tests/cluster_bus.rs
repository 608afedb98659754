//! The warning about an open cluster bus.

use ironcache::cluster_bus::{cluster_bus_unauthenticated, warn_if_unauthenticated};

#[test]
fn clustered_without_bus_auth_emits_prominent_warning() {
    let out = warn_if_unauthenticated(true, false, false, 16379).expect("a warning must fire");
    assert!(
        out.contains("UNAUTHENTICATED"),
        "the warning must name the exposure, got: {out:?}"
    );
    assert!(
        out.contains("16379"),
        "the warning must name the cluster-bus port, got: {out:?}"
    );
}

#[test]
fn default_standalone_node_emits_no_warning() {
    assert!(
        warn_if_unauthenticated(false, false, false, 16379).is_none(),
        "a non-clustered node must not warn"
    );
}

#[test]
fn authenticated_cluster_emits_no_warning() {
    // A shared secret authenticates the peer even on a plaintext bus.
    assert!(warn_if_unauthenticated(true, true, false, 16379).is_none());
    // So does TLS with a secret.
    assert!(warn_if_unauthenticated(true, true, true, 16379).is_none());
}

#[test]
fn only_an_open_bus_of_a_cluster_is_exposed() {
    assert!(cluster_bus_unauthenticated(true, false, false));
    assert!(!cluster_bus_unauthenticated(true, true, false));
    assert!(!cluster_bus_unauthenticated(true, false, true));
    assert!(!cluster_bus_unauthenticated(false, false, false));
}

//! The warning about a cluster bus that anyone can join.
use vstd::prelude::*;
use vstd::string::*;
use crate::text::{append_decimal, decimal};

verus! {

/// Whether the bus between the nodes is open: the node is clustered, and neither a
/// shared secret nor TLS protects it.
pub fn cluster_bus_unauthenticated(clustered: bool, has_secret: bool, tls_on: bool) -> (r: bool)
    ensures
        r == (clustered && !has_secret && !tls_on),
{
    clustered && !has_secret && !tls_on
}

/// The warning for an open bus.
pub open spec fn open_bus_text(bus: u16) -> Seq<char> {
    "SECURITY: this node is configured for a CLUSTERED mode but the inter-node cluster bus is UNAUTHENTICATED and UNENCRYPTED (no cluster_secret, cluster_tls off). The RAFTMSG consensus bus (port "@
        + decimal(bus as nat)
        + ") and the replication data-plane stream are PLAINTEXT and accept ANY peer that can reach the port: an unauthorized party on the network could join consensus / forge RAFTMSG or SIPHON the entire keyspace off the replication stream. Secure it with cluster_secret (shared-secret peer authentication) and, to encrypt the link, cluster_tls = on plus cluster_tls_cert_path / cluster_tls_key_path / cluster_ca_path (see the cluster_secret / cluster_tls configuration docs)."@
}

/// The warning at boot, where the bus is open. `bus` is its port.
pub fn warn_if_unauthenticated(
    clustered: bool,
    has_secret: bool,
    tls_on: bool,
    bus: u16,
) -> (r: Option<String>)
    ensures
        match r {
            Some(t) => clustered && !has_secret && !tls_on && t@ == open_bus_text(bus),
            None => !clustered || has_secret || tls_on,
        },
{
    if !cluster_bus_unauthenticated(clustered, has_secret, tls_on) {
        return None;
    }
    let mut t: String =
        "SECURITY: this node is configured for a CLUSTERED mode but the inter-node cluster bus is UNAUTHENTICATED and UNENCRYPTED (no cluster_secret, cluster_tls off). The RAFTMSG consensus bus (port ".to_owned();
    append_decimal(&mut t, bus as u64);
    t.append(
        ") and the replication data-plane stream are PLAINTEXT and accept ANY peer that can reach the port: an unauthorized party on the network could join consensus / forge RAFTMSG or SIPHON the entire keyspace off the replication stream. Secure it with cluster_secret (shared-secret peer authentication) and, to encrypt the link, cluster_tls = on plus cluster_tls_cert_path / cluster_tls_key_path / cluster_ca_path (see the cluster_secret / cluster_tls configuration docs).",
    );
    Some(t)
}

} // verus!

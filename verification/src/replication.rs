//! Acknowledgement rules for leader-to-follower replication.

use crate::cluster::ClusterConfig;
use crate::text::{bytes_eq_ignore_case, eq_ignore_case};
use vstd::prelude::*;

verus! {

/// Whether an acknowledgement setting asks for every replica: `all` in any case.
pub open spec fn spec_requires_all(acks: Seq<u8>) -> bool {
    eq_ignore_case(acks, seq![97u8, 108u8, 108u8])
}

/// Reads the acknowledgement setting (absent means the leader's alone).
pub fn requires_all_replicas(acks_setting: Option<&[u8]>) -> (r: bool)
    ensures
        r == match acks_setting {
            Some(a) => spec_requires_all(a@),
            None => false,
        },
{
    match acks_setting {
        Some(a) => {
            let all: [u8; 3] = [97u8, 108u8, 108u8];
            assert(all@ =~= seq![97u8, 108u8, 108u8]);
            bytes_eq_ignore_case(a, all.as_slice())
        },
        None => false,
    }
}

/// How many acknowledgements a produce needs: with every replica asked for, the
/// configured in-sync minimum (at least one); otherwise one.
pub fn min_required_acks(cluster: &ClusterConfig, all_replicas: bool) -> (n: usize)
    ensures
        n == if all_replicas {
            if cluster.min_insync_replicas < 1 {
                1
            } else {
                cluster.min_insync_replicas as usize
            }
        } else {
            1
        },
{
    if all_replicas {
        if cluster.min_insync_replicas < 1 {
            1
        } else {
            cluster.min_insync_replicas as usize
        }
    } else {
        1
    }
}

} // verus!

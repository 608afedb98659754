//! The order of a rolling upgrade.

use ironcache::repl::{
    safe_to_promote, CandidateReplica, LinkStatus, PromotionSafety, ReplOffset, ReplicaLag,
};
use ironcache::rolling::{describe_stall, upgrade_step, BlockReason, Progress, UpgradeStep};

fn start() -> Progress {
    Progress {
        replicas_to_upgrade: 2,
        replica_catching_up: false,
        promotion: PromotionSafety::CandidateNotInSync,
        primary_demoted: false,
        old_primary_upgraded: false,
        master_on_target: false,
    }
}

#[test]
fn the_primary_comes_last() {
    let mut p = start();
    assert_eq!(upgrade_step(p), UpgradeStep::UpgradeReplica);
    p.replica_catching_up = true;
    assert_eq!(upgrade_step(p), UpgradeStep::AwaitInSync);
    p.replica_catching_up = false;
    p.replicas_to_upgrade = 0;
    assert_eq!(
        upgrade_step(p),
        UpgradeStep::Blocked(BlockReason::NoInSyncCandidate)
    );
    p.promotion = PromotionSafety::NoQuorum;
    assert_eq!(upgrade_step(p), UpgradeStep::Blocked(BlockReason::NoQuorum));
    p.promotion = PromotionSafety::Safe;
    assert_eq!(upgrade_step(p), UpgradeStep::Promote);
    p.primary_demoted = true;
    assert_eq!(upgrade_step(p), UpgradeStep::UpgradeOldPrimary);
    p.old_primary_upgraded = true;
    assert_eq!(upgrade_step(p), UpgradeStep::Done);
}

#[test]
fn a_shard_on_its_target_is_done_without_a_promotion() {
    let mut p = start();
    p.replicas_to_upgrade = 0;
    p.master_on_target = true;
    p.promotion = PromotionSafety::Safe;
    assert_eq!(upgrade_step(p), UpgradeStep::Done);
}

#[test]
fn a_promotion_needs_quorum_link_and_lag() {
    let good = CandidateReplica {
        link: LinkStatus::Up,
        lag: ReplicaLag::compute(ReplOffset(10), ReplOffset(8)),
    };
    assert_eq!(safe_to_promote(good, 2, true), PromotionSafety::Safe);
    assert_eq!(safe_to_promote(good, 2, false), PromotionSafety::NoQuorum);
    assert_eq!(safe_to_promote(good, 1, true), PromotionSafety::CandidateNotInSync);
    let down = CandidateReplica { link: LinkStatus::Down, ..good };
    assert_eq!(safe_to_promote(down, 2, true), PromotionSafety::CandidateNotInSync);
}

#[test]
fn the_lag_saturates_at_zero() {
    assert_eq!(ReplicaLag::compute(ReplOffset(3), ReplOffset(9)).lag(), Some(0));
    assert_eq!(ReplicaLag::unknown().lag(), None);
    assert!(!ReplicaLag::unknown().in_sync(u64::MAX));
    assert!(LinkStatus::Up.is_up());
    assert!(!LinkStatus::Down.is_up());
}

#[test]
fn each_stall_is_described() {
    let steps = [
        UpgradeStep::UpgradeReplica,
        UpgradeStep::AwaitInSync,
        UpgradeStep::Promote,
        UpgradeStep::UpgradeOldPrimary,
        UpgradeStep::Blocked(BlockReason::NoQuorum),
        UpgradeStep::Blocked(BlockReason::NoInSyncCandidate),
        UpgradeStep::Done,
    ];
    for (i, a) in steps.iter().enumerate() {
        for b in &steps[i + 1..] {
            assert_ne!(describe_stall(*a), describe_stall(*b));
        }
    }
    assert_eq!(
        describe_stall(UpgradeStep::Promote),
        "promoting an upgraded in-sync replica"
    );
    assert!(describe_stall(UpgradeStep::Blocked(BlockReason::NoQuorum)).starts_with("BLOCKED"));
}

//! The order of a rolling upgrade: which step the observed progress calls for.
use vstd::prelude::*;
use crate::repl::PromotionSafety;

verus! {

/// Why no step can be taken.
#[derive(Debug, Clone, Copy, PartialEq, Eq, Structural)]
pub enum BlockReason {
    /// No quorum can commit a promotion.
    NoQuorum,
    /// No upgraded replica is in sync.
    NoInSyncCandidate,
}

/// The next step of a roll.
#[derive(Debug, Clone, Copy, PartialEq, Eq, Structural)]
pub enum UpgradeStep {
    /// Upgrade a replica.
    UpgradeReplica,
    /// Wait for an upgraded replica to catch up.
    AwaitInSync,
    /// Promote an upgraded replica.
    Promote,
    /// Upgrade the demoted old primary.
    UpgradeOldPrimary,
    /// Nothing can be done now.
    Blocked(BlockReason),
    /// The roll is complete.
    Done,
}

/// How a roll ended.
#[derive(Debug, Clone, Copy, PartialEq, Eq, Structural)]
pub enum UpgradeReport {
    /// Every node is on the target version.
    Completed,
    /// The ticks ran out at this step.
    StalledAfterBudget(UpgradeStep),
}

/// What an observation says of the progress of a roll.
#[derive(Debug, Clone, Copy, PartialEq, Eq, Structural)]
pub struct Progress {
    /// The number of replicas on another version than the target.
    pub replicas_to_upgrade: usize,
    /// An upgraded replica is not back in sync.
    pub replica_catching_up: bool,
    /// Whether a promotion may be committed.
    pub promotion: PromotionSafety,
    /// The old primary is a replica.
    pub primary_demoted: bool,
    /// The old primary is on the target version.
    pub old_primary_upgraded: bool,
    /// The primary is on the target version.
    pub master_on_target: bool,
}

/// The step that the progress calls for.
pub open spec fn rolling_step(p: Progress) -> UpgradeStep {
    if p.primary_demoted {
        if p.old_primary_upgraded {
            UpgradeStep::Done
        } else {
            UpgradeStep::UpgradeOldPrimary
        }
    } else if p.replica_catching_up {
        UpgradeStep::AwaitInSync
    } else if p.replicas_to_upgrade > 0 {
        UpgradeStep::UpgradeReplica
    } else if p.master_on_target {
        UpgradeStep::Done
    } else {
        match p.promotion {
            PromotionSafety::Safe => UpgradeStep::Promote,
            PromotionSafety::NoQuorum => UpgradeStep::Blocked(BlockReason::NoQuorum),
            PromotionSafety::CandidateNotInSync => UpgradeStep::Blocked(
                BlockReason::NoInSyncCandidate,
            ),
        }
    }
}

/// Picks the next step: the replicas one after the other, each back in sync before
/// the next; the promotion; the old primary last.
pub fn upgrade_step(p: Progress) -> (r: UpgradeStep)
    ensures
        r == rolling_step(p),
{
    if p.primary_demoted {
        if p.old_primary_upgraded {
            UpgradeStep::Done
        } else {
            UpgradeStep::UpgradeOldPrimary
        }
    } else if p.replica_catching_up {
        UpgradeStep::AwaitInSync
    } else if p.replicas_to_upgrade > 0 {
        UpgradeStep::UpgradeReplica
    } else if p.master_on_target {
        UpgradeStep::Done
    } else {
        match p.promotion {
            PromotionSafety::Safe => UpgradeStep::Promote,
            PromotionSafety::NoQuorum => UpgradeStep::Blocked(BlockReason::NoQuorum),
            PromotionSafety::CandidateNotInSync => UpgradeStep::Blocked(
                BlockReason::NoInSyncCandidate,
            ),
        }
    }
}

/// The old primary is upgraded only after it was demoted, and a promotion happens
/// only when no replica is left to upgrade or to catch up and it is safe.
pub proof fn law_primary_last(p: Progress)
    ensures
        rolling_step(p) == UpgradeStep::UpgradeOldPrimary ==> p.primary_demoted,
        rolling_step(p) == UpgradeStep::Promote ==> p.replicas_to_upgrade == 0
            && !p.replica_catching_up && !p.primary_demoted && p.promotion == PromotionSafety::Safe,
        rolling_step(p) == UpgradeStep::UpgradeReplica ==> !p.replica_catching_up
            && !p.primary_demoted,
{
}

/// What a stalled roll was waiting for.
pub open spec fn stall_text(step: UpgradeStep) -> Seq<char> {
    match step {
        UpgradeStep::UpgradeReplica => "upgrading a replica (a node upgrade did not complete)"@,
        UpgradeStep::AwaitInSync =>
            "awaiting a just-upgraded replica to catch back up (it never re-synced)"@,
        UpgradeStep::Promote => "promoting an upgraded in-sync replica"@,
        UpgradeStep::UpgradeOldPrimary => "upgrading the demoted old primary (last node)"@,
        UpgradeStep::Blocked(BlockReason::NoQuorum) =>
            "BLOCKED: the config-plane raft has no quorum, so the promotion fence cannot commit"@,
        UpgradeStep::Blocked(BlockReason::NoInSyncCandidate) =>
            "BLOCKED: no upgraded replica is in sync enough to promote without losing acknowledged writes"@,
        UpgradeStep::Done => "completed"@,
    }
}

/// Says what a stalled roll was waiting for.
pub fn describe_stall(step: UpgradeStep) -> (r: String)
    ensures
        r@ == stall_text(step),
{
    match step {
        UpgradeStep::UpgradeReplica =>
            "upgrading a replica (a node upgrade did not complete)".to_owned(),
        UpgradeStep::AwaitInSync =>
            "awaiting a just-upgraded replica to catch back up (it never re-synced)".to_owned(),
        UpgradeStep::Promote => "promoting an upgraded in-sync replica".to_owned(),
        UpgradeStep::UpgradeOldPrimary =>
            "upgrading the demoted old primary (last node)".to_owned(),
        UpgradeStep::Blocked(BlockReason::NoQuorum) =>
            "BLOCKED: the config-plane raft has no quorum, so the promotion fence cannot commit".to_owned(),
        UpgradeStep::Blocked(BlockReason::NoInSyncCandidate) =>
            "BLOCKED: no upgraded replica is in sync enough to promote without losing acknowledged writes".to_owned(),
        UpgradeStep::Done => "completed".to_owned(),
    }
}

/// Which step the progress calls for, each exactly where it is due. The old primary is
/// the last node. Until it is demoted, an upgraded replica has to be back in sync before
/// the next one is taken, and a primary that is not on the target is replaced once all
/// replicas are.
pub proof fn law_each_step_is_taken_when_due(p: Progress)
    ensures
        rolling_step(p) == UpgradeStep::UpgradeOldPrimary <==> p.primary_demoted
            && !p.old_primary_upgraded,
        rolling_step(p) == UpgradeStep::AwaitInSync <==> !p.primary_demoted
            && p.replica_catching_up,
        rolling_step(p) == UpgradeStep::UpgradeReplica <==> !p.primary_demoted
            && !p.replica_catching_up && p.replicas_to_upgrade > 0,
        rolling_step(p) == UpgradeStep::Done <==> (p.primary_demoted && p.old_primary_upgraded) || (
        !p.primary_demoted && !p.replica_catching_up && p.replicas_to_upgrade == 0
            && p.master_on_target),
        rolling_step(p) == UpgradeStep::Promote <==> !p.primary_demoted && !p.replica_catching_up
            && p.replicas_to_upgrade == 0 && !p.master_on_target && p.promotion
            == PromotionSafety::Safe,
        rolling_step(p) == UpgradeStep::Blocked(BlockReason::NoQuorum) <==> !p.primary_demoted
            && !p.replica_catching_up && p.replicas_to_upgrade == 0 && !p.master_on_target
            && p.promotion == PromotionSafety::NoQuorum,
        rolling_step(p) == UpgradeStep::Blocked(BlockReason::NoInSyncCandidate)
            <==> !p.primary_demoted && !p.replica_catching_up && p.replicas_to_upgrade == 0
            && !p.master_on_target && p.promotion == PromotionSafety::CandidateNotInSync,
{
}

} // verus!

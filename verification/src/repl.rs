//! Replication facts that the rolling upgrade decides on.
use vstd::prelude::*;

verus! {

/// A replica's link to its master.
#[derive(Debug, Clone, Copy, PartialEq, Eq, Structural)]
pub enum LinkStatus {
    /// The replica is attached.
    Up,
    /// The replica is detached.
    Down,
}

impl LinkStatus {
    /// Whether the link is up.
    pub fn is_up(self) -> (r: bool)
        ensures
            r == (self is Up),
    {
        matches!(self, LinkStatus::Up)
    }
}

/// A position in the replication stream, counted in logical writes.
#[derive(Debug, Clone, Copy, PartialEq, Eq, Structural)]
pub struct ReplOffset(pub u64);

/// How far a replica is behind its master, where that is known.
#[derive(Debug, Clone, Copy, PartialEq, Eq, Structural)]
pub struct ReplicaLag {
    /// The number of writes the replica still has to apply.
    pub writes: Option<u64>,
}

impl ReplicaLag {
    /// Whether the lag is known and at most `max_lag`.
    pub open spec fn within(self, max_lag: u64) -> bool {
        self.writes is Some && self.writes->0 <= max_lag
    }

    /// The lag of a replica that has acknowledged up to `acked` of `head`.
    pub fn compute(head: ReplOffset, acked: ReplOffset) -> (r: Self)
        ensures
            r.writes == Some(if acked.0 <= head.0 { (head.0 - acked.0) as u64 } else { 0 }),
    {
        ReplicaLag { writes: Some(head.0.saturating_sub(acked.0)) }
    }

    /// The lag of a replica that its master does not list.
    pub fn unknown() -> (r: Self)
        ensures
            r.writes is None,
    {
        ReplicaLag { writes: None }
    }

    /// The lag, where it is known.
    pub fn lag(self) -> (r: Option<u64>)
        ensures
            r == self.writes,
    {
        self.writes
    }

    /// Whether the lag is known and at most `max_lag`.
    pub fn in_sync(self, max_lag: u64) -> (r: bool)
        ensures
            r == self.within(max_lag),
    {
        match self.writes {
            Some(n) => n <= max_lag,
            None => false,
        }
    }
}

/// What a promotion decision says.
#[derive(Debug, Clone, Copy, PartialEq, Eq, Structural)]
pub enum PromotionSafety {
    /// The candidate may be promoted.
    Safe,
    /// The configuration plane has no quorum, so that no promotion can be committed.
    NoQuorum,
    /// No replica holds enough of the acknowledged writes.
    CandidateNotInSync,
}

/// What is known of a promotion candidate.
#[derive(Debug, Clone, Copy, PartialEq, Eq, Structural)]
pub struct CandidateReplica {
    /// The link to its master.
    pub link: LinkStatus,
    /// Its lag.
    pub lag: ReplicaLag,
}

/// The promotion decision for a candidate.
pub open spec fn promotion_of(c: CandidateReplica, max_lag: u64, quorum: bool) -> PromotionSafety {
    if !quorum {
        PromotionSafety::NoQuorum
    } else if c.link is Up && c.lag.within(max_lag) {
        PromotionSafety::Safe
    } else {
        PromotionSafety::CandidateNotInSync
    }
}

/// Decides whether a candidate may be promoted: a quorum must be able to commit
/// the promotion, and the candidate must be attached and in sync.
pub fn safe_to_promote(c: CandidateReplica, max_lag: u64, quorum: bool) -> (r: PromotionSafety)
    ensures
        r == promotion_of(c, max_lag, quorum),
{
    if !quorum {
        PromotionSafety::NoQuorum
    } else if c.link.is_up() && c.lag.in_sync(max_lag) {
        PromotionSafety::Safe
    } else {
        PromotionSafety::CandidateNotInSync
    }
}

/// A promotion is safe if and only if a quorum can commit it and the candidate is
/// attached with a known lag within the bound; without a quorum that is the reason, and
/// otherwise that the candidate is not in sync.
pub proof fn law_when_a_promotion_is_safe(c: CandidateReplica, max_lag: u64, quorum: bool)
    ensures
        promotion_of(c, max_lag, quorum) == PromotionSafety::Safe <==> {
            &&& quorum
            &&& c.link == LinkStatus::Up
            &&& c.lag.writes is Some
            &&& c.lag.writes->0 <= max_lag
        },
        promotion_of(c, max_lag, quorum) == PromotionSafety::NoQuorum <==> !quorum,
        c.lag.within(max_lag) <==> c.lag.writes is Some && c.lag.writes->0 <= max_lag,
{
}

} // verus!

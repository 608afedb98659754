//! The budget of file descriptors at boot.
//!
//! A client needs a descriptor, and the process needs some for itself. Where the
//! open-file limit is too low for the clients that are asked for, it is raised as far
//! as it may be, and the number of clients is clamped to what fits.
use vstd::prelude::*;

verus! {

/// The descriptors that the process keeps for itself: listeners, snapshot files and
/// the connections between nodes.
pub const RESERVED_FDS: u64 = 64;

/// What the budget allows.
#[derive(Debug, Clone, Copy, PartialEq, Eq, Structural)]
pub struct FdBudget {
    /// The number of clients that fits; 0 means unlimited where it was asked for.
    pub effective_maxclients: u64,
    /// The soft limit to set, where it has to be raised.
    pub raise_soft_to: Option<u64>,
}

/// The descriptors that `requested` clients need.
pub open spec fn required_fds(requested: u64, reserved: u64) -> int {
    if requested + reserved > u64::MAX {
        u64::MAX as int
    } else {
        requested + reserved
    }
}

/// The budget for given limits.
pub open spec fn fd_budget(soft: u64, hard: u64, requested: u64, reserved: u64) -> FdBudget {
    let to_hard = if hard > soft {
        Some(hard)
    } else {
        None
    };
    if requested == 0 {
        FdBudget { effective_maxclients: 0, raise_soft_to: to_hard }
    } else if soft >= required_fds(requested, reserved) {
        FdBudget { effective_maxclients: requested, raise_soft_to: None }
    } else if hard >= required_fds(requested, reserved) {
        FdBudget {
            effective_maxclients: requested,
            raise_soft_to: Some(required_fds(requested, reserved) as u64),
        }
    } else {
        FdBudget {
            effective_maxclients: if hard >= reserved {
                (hard - reserved) as u64
            } else {
                0
            },
            raise_soft_to: to_hard,
        }
    }
}

/// Decides how many clients fit and whether the soft limit has to be raised. An
/// unlimited number of clients is never clamped.
pub fn compute_fd_budget(soft: u64, hard: u64, requested: u64, reserved: u64) -> (r: FdBudget)
    ensures
        r == fd_budget(soft, hard, requested, reserved),
{
    let to_hard: Option<u64> = if hard > soft {
        Some(hard)
    } else {
        None
    };
    if requested == 0 {
        return FdBudget { effective_maxclients: 0, raise_soft_to: to_hard };
    }
    let required: u64 = requested.saturating_add(reserved);
    if soft >= required {
        return FdBudget { effective_maxclients: requested, raise_soft_to: None };
    }
    if hard >= required {
        return FdBudget { effective_maxclients: requested, raise_soft_to: Some(required) };
    }
    FdBudget { effective_maxclients: hard.saturating_sub(reserved), raise_soft_to: to_hard }
}

/// The number of clients after the limits were read and a raise was tried.
/// `limits` are the soft and the hard limit where they could be read, `raised` says
/// whether a raise that was asked for succeeded. Without limits nothing changes.
pub open spec fn clients_allowed(requested: u64, limits: Option<(u64, u64)>, raised: bool) -> u64 {
    match limits {
        None => requested,
        Some((soft, hard)) => {
            let soft_now = match fd_budget(soft, hard, requested, RESERVED_FDS).raise_soft_to {
                Some(t) => if raised {
                    t
                } else {
                    soft
                },
                None => soft,
            };
            let fit = fd_budget(soft_now, soft_now, requested, RESERVED_FDS).effective_maxclients;
            if fit < requested {
                fit
            } else {
                requested
            }
        },
    }
}

/// Applies the budget: the number of clients that the limit which was actually
/// achieved allows.
pub fn apply_fd_budget(requested: u64, limits: Option<(u64, u64)>, raised: bool) -> (r: u64)
    ensures
        r == clients_allowed(requested, limits, raised),
{
    match limits {
        None => requested,
        Some((soft, hard)) => {
            let soft_now: u64 = match compute_fd_budget(soft, hard, requested, RESERVED_FDS).raise_soft_to {
                Some(t) => if raised {
                    t
                } else {
                    soft
                },
                None => soft,
            };
            let fit: u64 = compute_fd_budget(soft_now, soft_now, requested, RESERVED_FDS).effective_maxclients;
            if fit < requested {
                fit
            } else {
                requested
            }
        },
    }
}

/// A raise is a real one: above the soft limit and not above the hard limit. A clamp
/// only lowers the number of clients, and what is left fits the hard limit.
pub proof fn law_fd_budget(soft: u64, hard: u64, requested: u64, reserved: u64)
    ensures
        fd_budget(soft, hard, requested, reserved).raise_soft_to matches Some(t) ==> soft < t
            <= hard,
        fd_budget(soft, hard, requested, reserved).effective_maxclients <= requested,
        requested == 0 ==> fd_budget(soft, hard, requested, reserved).effective_maxclients == 0,
        fd_budget(soft, hard, requested, reserved).effective_maxclients < requested ==> fd_budget(
            soft,
            hard,
            requested,
            reserved,
        ).effective_maxclients <= hard,
        soft <= hard && required_fds(requested, reserved) <= hard ==> fd_budget(
            soft,
            hard,
            requested,
            reserved,
        ).effective_maxclients == requested,
{
}

/// The budget never asks for more clients than were requested, and an unlimited node
/// stays unlimited, whatever became of the limits.
pub proof fn law_clients_only_clamped(requested: u64, limits: Option<(u64, u64)>, raised: bool)
    ensures
        clients_allowed(requested, limits, raised) <= requested,
        requested == 0 ==> clients_allowed(requested, limits, raised) == 0,
{
}

/// A budget in figures. Where the soft limit suffices nothing is raised, where the hard
/// limit does the soft one is raised to what is needed and no further, and otherwise as
/// many clients are let in as the hard limit leaves beside the reserve.
pub proof fn law_budget_in_figures(soft: u64, hard: u64, requested: u64, reserved: u64)
    requires
        requested > 0,
        soft <= hard,
        requested + reserved <= u64::MAX,
    ensures
        requested + reserved <= soft ==> fd_budget(soft, hard, requested, reserved) == (FdBudget {
            effective_maxclients: requested,
            raise_soft_to: None,
        }),
        soft < requested + reserved <= hard ==> fd_budget(soft, hard, requested, reserved) == (
        FdBudget {
            effective_maxclients: requested,
            raise_soft_to: Some((requested + reserved) as u64),
        }),
        hard < requested + reserved && reserved <= hard ==> fd_budget(
            soft,
            hard,
            requested,
            reserved,
        ).effective_maxclients == hard - reserved,
        hard < reserved ==> fd_budget(soft, hard, requested, reserved).effective_maxclients == 0,
        hard < requested + reserved ==> fd_budget(soft, hard, requested, reserved).raise_soft_to
            == (if hard > soft {
            Some(hard)
        } else {
            None
        }),
{
}

/// The clients that are let in fit the limit that holds in the end: all of them where it
/// was read as large enough or was raised so, and else what it leaves beside the reserve.
pub proof fn law_clients_fit_what_was_achieved(requested: u64, soft: u64, hard: u64, raised: bool)
    requires
        requested > 0,
        soft <= hard,
        requested + RESERVED_FDS <= u64::MAX,
    ensures
        clients_allowed(requested, None, raised) == requested,
        requested + RESERVED_FDS <= soft ==> clients_allowed(requested, Some((soft, hard)), raised)
            == requested,
        raised && requested + RESERVED_FDS <= hard ==> clients_allowed(
            requested,
            Some((soft, hard)),
            raised,
        ) == requested,
        !raised && soft < requested + RESERVED_FDS ==> clients_allowed(
            requested,
            Some((soft, hard)),
            raised,
        ) == (if soft >= RESERVED_FDS {
            (soft - RESERVED_FDS) as u64
        } else {
            0
        }),
        raised && hard < requested + RESERVED_FDS ==> clients_allowed(
            requested,
            Some((soft, hard)),
            raised,
        ) == (if hard >= RESERVED_FDS {
            (hard - RESERVED_FDS) as u64
        } else {
            0
        }),
{
}

} // verus!

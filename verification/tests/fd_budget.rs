//! Fitting the client ceiling into the descriptor limits.

use ironcache::fd_budget::{apply_fd_budget, compute_fd_budget, FdBudget, RESERVED_FDS};

#[test]
fn soft_limit_already_covers_requested_is_a_noop() {
    // Soft limit comfortably above requested + reserved: no raise, no clamp.
    let b = compute_fd_budget(65_535, 65_535, 10_000, RESERVED_FDS);
    assert_eq!(
        b,
        FdBudget {
            effective_maxclients: 10_000,
            raise_soft_to: None,
        }
    );
}

#[test]
fn exact_fit_boundary_is_a_noop() {
    // soft == requested + reserved is the exact-fit boundary: still no raise/clamp.
    let requested = 1_000;
    let soft = requested + RESERVED_FDS;
    let b = compute_fd_budget(soft, soft, requested, RESERVED_FDS);
    assert_eq!(b.effective_maxclients, requested);
    assert_eq!(b.raise_soft_to, None);
}

#[test]
fn low_soft_but_high_hard_raises_to_fit_without_clamping() {
    // The common production case: soft 1024, hard huge. Raise the soft limit to
    // exactly requested + reserved; the requested ceiling is preserved.
    let requested = 10_000;
    let b = compute_fd_budget(1024, 1_048_576, requested, RESERVED_FDS);
    assert_eq!(b.effective_maxclients, requested);
    assert_eq!(b.raise_soft_to, Some(requested + RESERVED_FDS));
    // The raise target must be a strict increase over the current soft limit.
    assert!(b.raise_soft_to.unwrap() > 1024);
}

#[test]
fn hard_limit_below_required_clamps_to_hard_minus_reserved() {
    // Container pinned at 1024/1024: cannot fit 10000 clients. Raising the soft
    // limit is a no-op (soft == hard), and maxclients clamps to hard - reserved.
    let requested = 10_000;
    let hard = 1024;
    let b = compute_fd_budget(hard, hard, requested, RESERVED_FDS);
    assert_eq!(b.effective_maxclients, hard - RESERVED_FDS);
    assert_eq!(
        b.raise_soft_to, None,
        "soft == hard leaves nothing to raise"
    );
    assert!(
        b.effective_maxclients < requested,
        "must clamp below requested"
    );
}

#[test]
fn hard_below_required_but_above_soft_raises_then_clamps() {
    // soft 256, hard 1024, requested 10000: raise the soft limit to the hard limit
    // (a real increase), and STILL clamp maxclients to hard - reserved.
    let requested = 10_000;
    let b = compute_fd_budget(256, 1024, requested, RESERVED_FDS);
    assert_eq!(b.effective_maxclients, 1024 - RESERVED_FDS);
    assert_eq!(b.raise_soft_to, Some(1024));
}

#[test]
fn hard_limit_below_reserved_headroom_clamps_to_zero() {
    // Pathological: fewer fds than the reserved headroom. Clamp saturates to 0
    // (no client capacity) rather than underflowing.
    let b = compute_fd_budget(16, 16, 100, RESERVED_FDS);
    assert_eq!(b.effective_maxclients, 0);
}

#[test]
fn unlimited_maxclients_is_never_clamped_but_raises_headroom() {
    // requested == 0 disables the cap: never clamp. With soft < hard, raise the
    // soft limit to the hard limit to maximize the available fds.
    let b = compute_fd_budget(1024, 65_535, 0, RESERVED_FDS);
    assert_eq!(b.effective_maxclients, 0);
    assert_eq!(b.raise_soft_to, Some(65_535));
}

#[test]
fn unlimited_maxclients_with_soft_equal_hard_does_not_raise() {
    // Unlimited, but no room to raise: no-op.
    let b = compute_fd_budget(65_535, 65_535, 0, RESERVED_FDS);
    assert_eq!(
        b,
        FdBudget {
            effective_maxclients: 0,
            raise_soft_to: None,
        }
    );
}

#[test]
fn the_ceiling_follows_the_limits_and_the_raise() {
    // Unknown limits leave the request as it is.
    assert_eq!(apply_fd_budget(10_000, None, false), 10_000);
    // A raise that the kernel grants keeps the request.
    assert_eq!(apply_fd_budget(10_000, Some((1024, 1_048_576)), true), 10_000);
    // A raise that fails leaves what the soft limit holds.
    assert_eq!(
        apply_fd_budget(10_000, Some((1024, 1_048_576)), false),
        1024 - RESERVED_FDS
    );
    // No limit on the clients stays none.
    assert_eq!(apply_fd_budget(0, Some((1024, 65_535)), false), 0);
}

//! Pinning the persist thread.

use ironcache::affinity::{
    apply_persist_pin, pin_outcome, pin_selection, pin_setting, Announcer, PinNote, PinPolicy,
    PinStep,
};

#[test]
fn unset_and_off_never_pin() {
    // An unset knob and "off" both read as the policy that never pins.
    assert_eq!(
        apply_persist_pin(Some(PinPolicy::Off), true, vec![0], true).0,
        Vec::<usize>::new()
    );
    assert_eq!(
        apply_persist_pin(Some(PinPolicy::Off), false, vec![0], false).0,
        Vec::<usize>::new()
    );
}

#[test]
fn invalid_spec_is_a_graceful_noop() {
    let (cpus, note) = apply_persist_pin(None, true, vec![0], true);
    assert_eq!(cpus, Vec::<usize>::new());
    assert_eq!(note, PinNote::Invalid);
}

#[test]
fn non_linux_set_knob_is_a_noop() {
    let (cpus, note) = apply_persist_pin(Some(PinPolicy::Wanted), false, vec![0], true);
    assert_eq!(cpus, Vec::<usize>::new());
    assert_eq!(note, PinNote::Unsupported);
}

#[test]
fn an_explicit_core_is_reported_once_the_kernel_agrees() {
    let (cpus, note) = apply_persist_pin(Some(PinPolicy::Wanted), true, vec![0], true);
    assert_eq!(cpus, vec![0]);
    assert_eq!(note, PinNote::Pinned);
}

#[test]
fn a_refused_or_empty_selection_runs_unpinned() {
    let (cpus, note) = apply_persist_pin(Some(PinPolicy::Wanted), true, vec![3], false);
    assert_eq!(cpus, Vec::<usize>::new());
    assert_eq!(note, PinNote::Refused);
    let (cpus, note) = apply_persist_pin(Some(PinPolicy::Wanted), true, Vec::new(), true);
    assert_eq!(cpus, Vec::<usize>::new());
    assert_eq!(note, PinNote::EmptySelection);
}

#[test]
fn the_pin_goes_step_by_step() {
    assert_eq!(pin_setting(None, true), PinStep::Leave(PinNote::Invalid));
    assert_eq!(pin_setting(Some(PinPolicy::Off), true), PinStep::Leave(PinNote::Quiet));
    assert_eq!(pin_setting(Some(PinPolicy::Wanted), false), PinStep::Leave(PinNote::Unsupported));
    assert_eq!(pin_setting(Some(PinPolicy::Wanted), true), PinStep::Select);
    assert_eq!(pin_selection(&Vec::new()), PinStep::Leave(PinNote::EmptySelection));
    assert_eq!(pin_selection(&vec![2]), PinStep::Pin);
    assert_eq!(pin_outcome(vec![2], true), (vec![2], PinNote::Pinned));
    assert_eq!(pin_outcome(vec![2], false), (Vec::new(), PinNote::Refused));
}

#[test]
fn the_announcement_is_made_once() {
    let mut a = Announcer::new();
    assert!(a.announce_once());
    assert!(!a.announce_once());
    assert!(!a.announce_once());
}

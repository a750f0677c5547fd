use hassan::assume_valid::RELEASE_ASSUME_VALID;

#[test]
fn release_pin_constant_is_empty_by_default() {
    assert!(RELEASE_ASSUME_VALID.is_empty());
}

#[test]
fn unset_pin_means_not_pinned() {
    let pin = hassan::assume_valid::pinned_digest_from_text("");
    assert!(pin.is_none());
    let zero = hassan::hash::Hash::zero();
    assert!(!hassan::assume_valid::is_pinned(&pin, &zero) || pin == Some(zero));
}

#[test]
fn may_skip_requires_pin() {
    let pin = hassan::assume_valid::pinned_digest_from_text("");
    if pin.is_none() {
        assert!(!hassan::assume_valid::may_skip_stark_verify(&pin, &hassan::hash::Hash::zero(), |_| true));
    }
}

#[test]
fn a_pin_skips_itself_and_reported_ancestors_only() {
    let text = "ab".repeat(64);
    let pin = hassan::assume_valid::pinned_digest_from_text(&text);
    let p = pin.expect("128 hex digits parse");
    assert_eq!(p.0, [0xab; 64]);
    assert!(hassan::assume_valid::is_pinned(&pin, &p));
    assert!(hassan::assume_valid::may_skip_stark_verify(&pin, &p, |_| false));
    let other = hassan::hash::Hash::zero();
    assert!(!hassan::assume_valid::may_skip_stark_verify(&pin, &other, |_| false));
    assert!(hassan::assume_valid::may_skip_stark_verify(&pin, &other, |_| true));
    assert!(hassan::assume_valid::pinned_digest_from_text("abc").is_none());
}

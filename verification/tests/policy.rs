use rust_pii_transformer::detect::EntityKind;
use rust_pii_transformer::mask::{Policy, PolicySet, Redaction};

#[test]
fn overrides_beat_the_default() {
    let set = PolicySet::new(Policy::Redact(Redaction::Label)).with(
        EntityKind::Phone,
        Policy::Partial { keep_prefix: 3, keep_suffix: 4, fill: '*' },
    );
    assert!(matches!(set.policy_for(EntityKind::Resident), Policy::Redact(_)));
    assert!(matches!(set.policy_for(EntityKind::Phone), Policy::Partial { .. }));
}

#[test]
fn the_same_entity_can_be_reassigned() {
    let set = PolicySet::default()
        .with(EntityKind::Phone, Policy::Tokenize)
        .with(EntityKind::Phone, Policy::Redact(Redaction::Fill('*')));
    assert!(matches!(set.policy_for(EntityKind::Phone), Policy::Redact(_)));
    assert_eq!(set.overrides.len(), 1, "같은 엔티티가 두 번 쌓이면 안 된다");
}

#[test]
fn tokenize_is_detected_in_either_slot() {
    assert!(!PolicySet::default().uses_tokenize());
    assert!(PolicySet::new(Policy::Tokenize).uses_tokenize());
    assert!(PolicySet::default().with(EntityKind::Email, Policy::Tokenize).uses_tokenize());
}

use led_visualizer::effects::{is_valid_color_mode, color_modes, next_seed, EffectSelector, INITIAL_SEED};

#[test]
fn test_color_modes() {
    assert!(is_valid_color_mode("rainbow"));
    assert!(is_valid_color_mode("fire"));
    assert!(!is_valid_color_mode("invalid_mode"));
}

#[test]
fn every_listed_color_mode_is_valid() {
    let modes = color_modes();
    assert_eq!(modes, vec!["rainbow", "fire", "ocean", "sunset", "custom"]);
    for m in modes {
        assert!(is_valid_color_mode(m));
    }
    assert!(!is_valid_color_mode("Fire"));
    assert!(!is_valid_color_mode(""));
}

#[test]
fn xorshift_steps_from_the_initial_seed() {
    let s1 = next_seed(INITIAL_SEED);
    assert_eq!(s1, 0x87985aa5);
    assert_eq!(next_seed(s1), 0x155b24a3);
    assert_eq!(next_seed(0), 0);
}

#[test]
fn test_effect_engine_creation() {
    let sel = EffectSelector::new(8);
    assert_eq!(sel.effect_count(), 8);
    assert_eq!(sel.get_current_effect(), 0);
    assert!(!sel.is_transitioning());
}

#[test]
fn test_effect_switching() {
    // The first effect fades, as the spectrum bars do.
    let mut sel = EffectSelector::new(8);

    assert!(sel.set_effect(2, true).is_ok());
    assert_eq!(sel.get_current_effect(), 2);

    assert!(sel.set_effect(10, true).is_err());
    assert_eq!(sel.get_current_effect(), 2);
}

#[test]
fn effect_switching_without_transitions() {
    let mut sel = EffectSelector::new(8);
    assert!(sel.set_effect(2, false).is_ok());
    assert_eq!(sel.get_current_effect(), 2);
    assert_eq!(sel.shown_effect(), 2);

    let err = sel.set_effect(10, false).unwrap_err();
    assert_eq!(err, "Effect index 10 out of range (0-7)");
    assert_eq!(sel.get_current_effect(), 2);
    assert!(!sel.is_transitioning());
}

#[test]
fn effect_switching_with_a_fade() {
    let mut sel = EffectSelector::new(8);
    assert!(sel.set_effect(3, true).is_ok());
    assert_eq!(sel.shown_effect(), 0);
    assert_eq!(sel.get_current_effect(), 3);
    assert!(sel.is_transitioning());
    assert_eq!(sel.target_effect(), Some(3));

    // A second request while fading switches at once.
    assert!(sel.set_effect(5, true).is_ok());
    assert_eq!(sel.shown_effect(), 5);
    assert!(!sel.is_transitioning());
    assert_eq!(sel.target_effect(), None);

    assert!(sel.set_effect(1, true).is_ok());
    sel.complete_transition();
    assert_eq!(sel.shown_effect(), 1);
    assert!(!sel.is_transitioning());
    // Completing without a fade changes nothing.
    sel.complete_transition();
    assert_eq!(sel.shown_effect(), 1);
}

#[test]
fn requesting_the_current_effect_changes_nothing() {
    let mut sel = EffectSelector::new(8);
    assert!(sel.set_effect(0, true).is_ok());
    assert!(!sel.is_transitioning());
    assert_eq!(sel.shown_effect(), 0);
}

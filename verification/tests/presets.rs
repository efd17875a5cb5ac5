use sortsmith_core::models::{AppSettings, AppStateData, RuleAction, RuleCriterion, ScanOptions};
use sortsmith_core::presets::default_presets;
use sortsmith_core::rules::validate_rule;
use sortsmith_core::state::validate_state_data;
use std::collections::HashSet;

#[test]
fn bundled_preset_ids_are_stable_and_unique() {
    let first = default_presets();
    let second = default_presets();
    let first_ids = first.iter().map(|preset| preset.id).collect::<Vec<_>>();
    let second_ids = second.iter().map(|preset| preset.id).collect::<Vec<_>>();
    assert_eq!(first_ids, second_ids);
    assert_eq!(first_ids.iter().copied().collect::<HashSet<_>>().len(), first_ids.len());
}

#[test]
fn bundled_preset_rules_are_valid() {
    for preset in default_presets() {
        assert!(!preset.rules.is_empty(), "{} should contain rules", preset.name);
        for rule in preset.rules {
            validate_rule(&rule).unwrap();
        }
    }
}

#[test]
fn bundled_preset_ids_are_the_documented_uuids() {
    let ids = default_presets().iter().map(|p| p.id).collect::<Vec<_>>();
    assert_eq!(
        ids,
        vec![
            0x11111111_1111_4111_8111_111111111101u128,
            0x11111111_1111_4111_8111_111111111102u128,
            0x11111111_1111_4111_8111_111111111103u128,
            0x11111111_1111_4111_8111_111111111104u128,
        ]
    );
}

#[test]
fn bundled_presets_move_by_extension() {
    let presets = default_presets();
    assert_eq!(presets[0].name, "Everyday tidy");
    assert_eq!(presets[1].rules.len(), 3);
    let images = &presets[1].rules[0];
    assert_eq!(images.name, "Media images");
    assert!(images.enabled && images.match_all);
    assert_eq!(
        images.action,
        RuleAction::MoveTo { subdirectory: "Media/Images".into() }
    );
    match &images.criteria[..] {
        [RuleCriterion::Extension { values }] => assert!(values.contains(&"avif".to_string())),
        other => panic!("unexpected {:?}", other),
    }
    let rule_ids = presets.iter().flat_map(|p| p.rules.iter().map(|r| r.id)).collect::<HashSet<_>>();
    assert_eq!(rule_ids.len(), 15);
}

#[test]
fn default_state_is_valid() {
    let state = AppStateData::default();
    assert_eq!(state.schema_version, 1);
    assert_eq!(state.settings.theme, "system");
    assert!(state.settings.confirm_before_apply);
    assert_eq!(state.presets.len(), 4);
    assert!(validate_state_data(&state).is_ok());
}

#[test]
fn default_settings_and_scan_options() {
    let settings = AppSettings::default();
    assert!(!settings.reduced_motion && !settings.include_hidden && !settings.recursive_scan);
    let options = ScanOptions::default();
    assert_eq!(options, ScanOptions { recursive: false, include_hidden: false, follow_links: false, max_depth: Some(32) });
}

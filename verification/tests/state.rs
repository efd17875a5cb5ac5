use sortsmith_core::models::{
    AppStateData, Preset, Rule, RuleAction, RuleCriterion, Timestamp, WatchedFolder,
};
use sortsmith_core::presets::default_presets;
use sortsmith_core::state::{validate_state_data, validate_unique_rule_ids};

fn rule(id: u128) -> Rule {
    Rule {
        id,
        name: "Text".into(),
        enabled: true,
        match_all: true,
        criteria: vec![RuleCriterion::Extension { values: vec!["txt".into()] }],
        action: RuleAction::MoveTo { subdirectory: "Text".into() },
    }
}

fn watch(id: u128, preset: Option<u128>) -> WatchedFolder {
    WatchedFolder {
        id,
        path: "/home/user/Downloads".into(),
        preset_id: preset,
        interval_minutes: 15,
        enabled: true,
        last_run_at: None,
    }
}

fn error_of(state: &AppStateData) -> String {
    validate_state_data(state).unwrap_err()
}

#[test]
fn rejects_unsupported_schema_and_theme() {
    let mut state = AppStateData::default();
    state.schema_version = 2;
    assert_eq!(error_of(&state), "Unsupported settings schema version.");
    let mut state = AppStateData::default();
    state.settings.theme = "solarized".into();
    assert_eq!(error_of(&state), "Settings contain an unsupported theme value.");
    for theme in ["light", "dark", "system"] {
        let mut state = AppStateData::default();
        state.settings.theme = theme.into();
        assert!(validate_state_data(&state).is_ok());
    }
}

#[test]
fn rejects_too_many_items() {
    let mut state = AppStateData::default();
    state.recent_journal_ids = (0..101u128).collect();
    assert_eq!(error_of(&state), "Settings contain more items than this SortSmith build supports.");
    let mut state = AppStateData::default();
    state.recent_journal_ids = (0..100u128).collect();
    assert!(validate_state_data(&state).is_ok());
}

#[test]
fn rejects_duplicate_rule_ids_and_invalid_rules() {
    let mut state = AppStateData::default();
    state.rules = vec![rule(1), rule(1)];
    assert_eq!(error_of(&state), "Settings contain duplicate rule identifiers.");
    assert!(validate_unique_rule_ids(&[rule(1), rule(2)]).is_ok());
    let mut state = AppStateData::default();
    let mut bad = rule(3);
    bad.action = RuleAction::MoveTo { subdirectory: "../outside".into() };
    state.rules = vec![rule(2), bad];
    assert_eq!(error_of(&state), "unsafe destination path: ../outside");
}

#[test]
fn rejects_duplicate_and_malformed_presets() {
    let mut state = AppStateData::default();
    let copy = state.presets[0].clone();
    state.presets.push(copy);
    assert_eq!(error_of(&state), "Settings contain duplicate preset identifiers.");
    let mut state = AppStateData::default();
    state.presets.push(Preset { id: 99, name: " ".into(), description: String::new(), rules: vec![] });
    assert_eq!(error_of(&state), "Settings contain an invalid preset definition.");
    let mut state = AppStateData::default();
    state.presets.push(Preset { id: 99, name: "Mine".into(), description: "d".repeat(513), rules: vec![] });
    assert_eq!(error_of(&state), "Settings contain an invalid preset definition.");
    let mut state = AppStateData::default();
    state.presets.push(Preset { id: 99, name: "Mine".into(), description: String::new(), rules: vec![rule(5), rule(5)] });
    assert_eq!(error_of(&state), "Settings contain duplicate rule identifiers.");
}

#[test]
fn rejects_bad_watched_folders() {
    let preset_id = default_presets()[0].id;
    let mut state = AppStateData::default();
    state.watched_folders = vec![watch(1, Some(preset_id)), watch(1, None)];
    assert_eq!(error_of(&state), "Settings contain duplicate watched-folder identifiers.");
    let mut state = AppStateData::default();
    let mut short = watch(1, None);
    short.interval_minutes = 4;
    state.watched_folders = vec![short];
    assert_eq!(error_of(&state), "Settings contain an invalid watched-folder entry.");
    let mut state = AppStateData::default();
    let mut blank = watch(1, None);
    blank.path = "  \t".into();
    state.watched_folders = vec![blank];
    assert_eq!(error_of(&state), "Settings contain an invalid watched-folder entry.");
    let mut state = AppStateData::default();
    state.watched_folders = vec![watch(1, Some(12345))];
    assert_eq!(error_of(&state), "A watched folder references a preset that is not present in this backup.");
    let mut state = AppStateData::default();
    let mut longest = watch(1, Some(preset_id));
    longest.interval_minutes = 10_080;
    state.watched_folders = vec![longest];
    assert!(validate_state_data(&state).is_ok());
}

#[test]
fn rejects_duplicate_undo_history() {
    let mut state = AppStateData::default();
    state.recent_journal_ids = vec![4, 5, 4];
    assert_eq!(error_of(&state), "Settings contain duplicate undo-history identifiers.");
}

#[test]
fn checks_run_in_documented_order() {
    let mut state = AppStateData::default();
    state.settings.theme = "neon".into();
    state.rules = vec![rule(1), rule(1)];
    assert_eq!(error_of(&state), "Settings contain an unsupported theme value.");
    let mut state = AppStateData::default();
    state.recent_journal_ids = vec![1, 1];
    state.watched_folders = vec![watch(1, Some(777))];
    assert_eq!(error_of(&state), "A watched folder references a preset that is not present in this backup.");
    let _ = Timestamp { secs: 0, nanos: 0 };
}

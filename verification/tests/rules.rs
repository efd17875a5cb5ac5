use sortsmith_core::error::SortSmithError;
use sortsmith_core::models::{FileEntry, Rule, RuleAction, RuleCriterion, Timestamp};
use sortsmith_core::paths::FsPath;
use sortsmith_core::rules::{
    destination_for, rule_matches, rule_matches_at, validate_rule, validate_values, PreparedRule,
};

fn entry() -> FileEntry {
    FileEntry {
        path: FsPath::parse("/tmp/root/report.txt"),
        relative_path: FsPath::parse("report.txt"),
        size: 12,
        modified_at: None,
        mime: Some("text/plain".into()),
        extension: Some("txt".into()),
    }
}

fn rule(action: RuleAction) -> Rule {
    Rule {
        id: 7,
        name: "rename".into(),
        enabled: true,
        match_all: true,
        criteria: vec![RuleCriterion::Extension { values: vec!["txt".into()] }],
        action,
    }
}

fn move_rule() -> Rule {
    rule(RuleAction::MoveTo { subdirectory: "Text".into() })
}

fn at(secs: i64) -> Timestamp {
    Timestamp { secs, nanos: 0 }
}

/// A clock that always reads the same time.
fn clock() -> Timestamp {
    at(2_000_000)
}

#[test]
fn prepared_regex_matches_repeatedly() {
    let mut candidate = move_rule();
    candidate.criteria = vec![RuleCriterion::NameRegex { pattern: r"^report\.txt$".into() }];
    let prepared = PreparedRule::new(&candidate).unwrap();
    assert!(prepared.matches(&entry(), &clock));
    assert!(prepared.matches(&entry(), &clock));
}

#[test]
fn rejects_unsafe_rename_prefix() {
    let result = destination_for(
        &FsPath::parse("/tmp/root"),
        &entry(),
        &rule(RuleAction::RenamePrefix { prefix: "../".into() }),
    );
    assert!(result.is_err());
}

#[test]
fn rejects_invalid_size_range() {
    let mut candidate = move_rule();
    candidate.criteria = vec![RuleCriterion::SizeRange { min_bytes: Some(20), max_bytes: Some(10) }];
    assert!(validate_rule(&candidate).is_err());
}

#[test]
fn rejects_unknown_template_placeholder() {
    let candidate = rule(RuleAction::RenameTemplate { template: "{name}-{unknown}.{ext}".into() });
    assert!(validate_rule(&candidate).is_err());
}

#[test]
fn renders_safe_template_and_preserves_extension() {
    let candidate = rule(RuleAction::RenameTemplate { template: "{name}-sorted.{ext}".into() });
    validate_rule(&candidate).unwrap();
    let result = destination_for(&FsPath::parse("/tmp/root"), &entry(), &candidate).unwrap();
    assert_eq!(result.file_name().unwrap(), "report-sorted.txt");
}

#[test]
fn rejects_reserved_rendered_filename() {
    let candidate = rule(RuleAction::RenameTemplate { template: "CON.{ext}".into() });
    validate_rule(&candidate).unwrap();
    assert!(destination_for(&FsPath::parse("/tmp/root"), &entry(), &candidate).is_err());
}

#[test]
fn rejects_trailing_period_for_extensionless_file() {
    let candidate = rule(RuleAction::RenameTemplate { template: "{name}.".into() });
    validate_rule(&candidate).unwrap();
    let mut extensionless = entry();
    extensionless.path = FsPath::parse("/tmp/root/report");
    extensionless.relative_path = FsPath::parse("report");
    extensionless.extension = None;
    assert!(destination_for(&FsPath::parse("/tmp/root"), &extensionless, &candidate).is_err());
}

#[test]
fn accepts_128_unicode_characters_in_rule_values() {
    let value = "é".repeat(128);
    let mut candidate = move_rule();
    candidate.criteria = vec![RuleCriterion::Extension { values: vec![value] }];
    assert!(validate_rule(&candidate).is_ok());
}

#[test]
fn rejects_129_unicode_characters_in_rule_values() {
    let value = "é".repeat(129);
    let mut candidate = move_rule();
    candidate.criteria = vec![RuleCriterion::Extension { values: vec![value] }];
    assert!(validate_rule(&candidate).is_err());
}

#[test]
fn move_destination_is_below_root() {
    let root = FsPath::parse("/tmp/root");
    let result = destination_for(&root, &entry(), &move_rule()).unwrap();
    assert_eq!(result, FsPath::parse("/tmp/root/Text/report.txt"));
    assert!(result.starts_with(&root));
}

#[test]
fn rename_prefix_keeps_folder() {
    let result = destination_for(
        &FsPath::parse("/tmp/root"),
        &entry(),
        &rule(RuleAction::RenamePrefix { prefix: "2024-".into() }),
    )
    .unwrap();
    assert_eq!(result, FsPath::parse("/tmp/root/2024-report.txt"));
}

#[test]
fn template_without_extension_gets_it_back() {
    let candidate = rule(RuleAction::RenameTemplate { template: "{name}-copy".into() });
    let result = destination_for(&FsPath::parse("/tmp/root"), &entry(), &candidate).unwrap();
    assert_eq!(result.file_name().unwrap(), "report-copy.txt");
}

#[test]
fn rename_templates_preserve_txt_extension() {
    let root = FsPath::parse("root");
    let file = FileEntry {
        path: FsPath::parse("root/a_b-1.txt"),
        relative_path: FsPath::parse("a_b-1.txt"),
        size: 1,
        modified_at: None,
        mime: Some("text/plain".into()),
        extension: Some("txt".into()),
    };
    let candidate = rule(RuleAction::RenameTemplate { template: "{name}-x_Y-9.{ext}".into() });
    validate_rule(&candidate).unwrap();
    let destination = destination_for(&root, &file, &candidate).unwrap();
    assert_eq!(destination.extension(), Some("txt".to_string()));
    assert!(destination.starts_with(&root));
}

#[test]
fn template_with_separator_is_refused() {
    let candidate = rule(RuleAction::RenameTemplate { template: "{name}..{ext}".into() });
    match destination_for(&FsPath::parse("/tmp/root"), &entry(), &candidate) {
        Err(SortSmithError::InvalidRule(m)) => {
            assert_eq!(m, "rename template cannot contain path separators or '..'")
        }
        other => panic!("unexpected {:?}", other),
    }
}

#[test]
fn move_to_parent_directory_is_unsafe() {
    let candidate = rule(RuleAction::MoveTo { subdirectory: "../outside".into() });
    assert!(validate_rule(&candidate).is_err());
    match destination_for(&FsPath::parse("/tmp/root"), &entry(), &candidate) {
        Err(SortSmithError::UnsafeDestination(p)) => assert_eq!(p, FsPath::parse("../outside")),
        other => panic!("unexpected {:?}", other),
    }
}

#[test]
fn rule_name_and_criteria_limits() {
    let mut blank = move_rule();
    blank.name = "   ".into();
    match validate_rule(&blank) {
        Err(SortSmithError::InvalidRule(m)) => assert_eq!(m, "rule name must contain 1 to 128 characters"),
        other => panic!("unexpected {:?}", other),
    }
    let mut none = move_rule();
    none.criteria.clear();
    assert!(validate_rule(&none).is_err());
    let mut many = move_rule();
    many.criteria = (0..17).map(|_| RuleCriterion::ModifiedOlderThanDays { days: 1 }).collect();
    assert!(validate_rule(&many).is_err());
}

#[test]
fn invalid_regex_is_refused() {
    let mut candidate = move_rule();
    candidate.criteria = vec![RuleCriterion::NameRegex { pattern: "(".into() }];
    assert!(validate_rule(&candidate).is_err());
    assert!(PreparedRule::new(&candidate).is_err());
}

#[test]
fn values_must_be_present_and_bounded() {
    assert!(validate_values(&["txt".to_string()], 64, "extension", "Text").is_ok());
    assert!(validate_values(&[], 64, "extension", "Text").is_err());
    assert!(validate_values(&["  ".to_string()], 64, "extension", "Text").is_err());
}

#[test]
fn match_all_and_match_any() {
    let mut both = move_rule();
    both.criteria.push(RuleCriterion::SizeRange { min_bytes: Some(100), max_bytes: None });
    assert_eq!(rule_matches(&both, &entry(), &clock).unwrap(), false);
    both.match_all = false;
    assert_eq!(rule_matches(&both, &entry(), &clock).unwrap(), true);
}

#[test]
fn extension_and_mime_criteria() {
    let mut by_mime = move_rule();
    by_mime.criteria = vec![RuleCriterion::MimePrefix { values: vec!["TEXT/".into()] }];
    assert!(rule_matches(&by_mime, &entry(), &clock).unwrap());
    let mut other = move_rule();
    other.criteria = vec![RuleCriterion::Extension { values: vec![".PDF".into()] }];
    assert!(!rule_matches(&other, &entry(), &clock).unwrap());
    let mut dotted = move_rule();
    dotted.criteria = vec![RuleCriterion::Extension { values: vec![".TXT".into()] }];
    assert!(rule_matches(&dotted, &entry(), &clock).unwrap());
}

#[test]
fn age_criterion_compares_with_now() {
    let mut old_file = entry();
    old_file.modified_at = Some(at(0));
    let mut aged = move_rule();
    aged.criteria = vec![RuleCriterion::ModifiedOlderThanDays { days: 1 }];
    assert!(!rule_matches_at(&aged, &old_file, at(86_400)).unwrap());
    assert!(rule_matches_at(&aged, &old_file, at(86_401)).unwrap());
    assert!(!rule_matches_at(&aged, &entry(), at(86_401)).unwrap());
}

//! Validation of the persisted application state: what the app accepts when
//! it loads, saves, imports or exports its settings.
use vstd::prelude::*;
use crate::error::error_text;
use crate::models::{AppStateData, PresetView, Rule, RuleView, StateView, WatchView, rules_view};
use crate::rules::{rule_problem, validate_rule};
use crate::text::{blank, char_count, is_blank, owned, str_eq};

verus! {

pub open spec fn schema_message() -> Seq<char> {
    "Unsupported settings schema version."@
}

pub open spec fn theme_message() -> Seq<char> {
    "Settings contain an unsupported theme value."@
}

pub open spec fn count_message() -> Seq<char> {
    "Settings contain more items than this SortSmith build supports."@
}

pub open spec fn duplicate_rule_message() -> Seq<char> {
    "Settings contain duplicate rule identifiers."@
}

pub open spec fn duplicate_preset_message() -> Seq<char> {
    "Settings contain duplicate preset identifiers."@
}

pub open spec fn invalid_preset_message() -> Seq<char> {
    "Settings contain an invalid preset definition."@
}

pub open spec fn duplicate_watch_message() -> Seq<char> {
    "Settings contain duplicate watched-folder identifiers."@
}

pub open spec fn invalid_watch_message() -> Seq<char> {
    "Settings contain an invalid watched-folder entry."@
}

pub open spec fn missing_preset_message() -> Seq<char> {
    "A watched folder references a preset that is not present in this backup."@
}

pub open spec fn duplicate_journal_message() -> Seq<char> {
    "Settings contain duplicate undo-history identifiers."@
}

/// No identifier occurs twice.
pub open spec fn distinct_ids(ids: Seq<u128>) -> bool {
    forall|i: int, j: int| 0 <= i < j < ids.len() ==> ids[i] != ids[j]
}

pub open spec fn rule_ids(rules: Seq<RuleView>) -> Seq<u128> {
    rules.map_values(|r: RuleView| r.id)
}

pub open spec fn preset_ids(presets: Seq<PresetView>) -> Seq<u128> {
    presets.map_values(|p: PresetView| p.id)
}

pub open spec fn watch_ids(watches: Seq<WatchView>) -> Seq<u128> {
    watches.map_values(|w: WatchView| w.id)
}

/// The text of the first rule's problem, in order.
pub open spec fn first_rule_problem(rules: Seq<RuleView>) -> Option<Seq<char>>
    decreases rules.len(),
{
    if rules.len() == 0 {
        None
    } else {
        match rule_problem(rules[0]) {
            Some(e) => Some(error_text(e)),
            None => first_rule_problem(rules.skip(1)),
        }
    }
}

/// What is wrong with a list of rules: a repeated identifier, else the
/// first invalid rule.
pub open spec fn rules_problem(rules: Seq<RuleView>) -> Option<Seq<char>> {
    if !distinct_ids(rule_ids(rules)) {
        Some(duplicate_rule_message())
    } else {
        first_rule_problem(rules)
    }
}

/// A preset needs a non-blank name of at most 128 characters, a
/// description of at most 512 and at most 500 rules.
pub open spec fn preset_malformed(p: PresetView) -> bool {
    is_blank(p.name) || p.name.len() > 128 || p.description.len() > 512 || p.rules.len() > 500
}

/// What is wrong with preset `i`, given the presets before it.
pub open spec fn preset_problem(presets: Seq<PresetView>, i: int) -> Option<Seq<char>> {
    if preset_ids(presets).take(i).contains(presets[i].id) {
        Some(duplicate_preset_message())
    } else if preset_malformed(presets[i]) {
        Some(invalid_preset_message())
    } else {
        rules_problem(presets[i].rules)
    }
}

/// The problem of the first preset from `i` on that has one.
pub open spec fn presets_problem_from(presets: Seq<PresetView>, i: int) -> Option<Seq<char>>
    decreases presets.len() - i,
{
    if i < 0 || i >= presets.len() {
        None
    } else if preset_problem(presets, i) is Some {
        preset_problem(presets, i)
    } else {
        presets_problem_from(presets, i + 1)
    }
}

/// A watched folder needs a non-blank path of at most 4096 characters and an
/// interval of 5 to 10080 minutes.
pub open spec fn watch_malformed(w: WatchView) -> bool {
    is_blank(w.path) || w.path.len() > 4096 || w.interval_minutes < 5 || w.interval_minutes
        > 10_080
}

/// What is wrong with watched folder `i`, given the folders before it and
/// the presets.
pub open spec fn watch_problem(
    watches: Seq<WatchView>,
    presets: Seq<PresetView>,
    i: int,
) -> Option<Seq<char>> {
    if watch_ids(watches).take(i).contains(watches[i].id) {
        Some(duplicate_watch_message())
    } else if watch_malformed(watches[i]) {
        Some(invalid_watch_message())
    } else if watches[i].preset_id matches Some(p) && !preset_ids(presets).contains(p) {
        Some(missing_preset_message())
    } else {
        None
    }
}

/// The problem of the first watched folder from `i` on that has one.
pub open spec fn watches_problem_from(
    watches: Seq<WatchView>,
    presets: Seq<PresetView>,
    i: int,
) -> Option<Seq<char>>
    decreases watches.len() - i,
{
    if i < 0 || i >= watches.len() {
        None
    } else if watch_problem(watches, presets, i) is Some {
        watch_problem(watches, presets, i)
    } else {
        watches_problem_from(watches, presets, i + 1)
    }
}

pub open spec fn known_theme(theme: Seq<char>) -> bool {
    theme == "system"@ || theme == "light"@ || theme == "dark"@
}

/// What is wrong with a state, checked in this order: the schema version,
/// the theme, the item limits (500 rules, 50 presets, 100 watched folders,
/// 100 undo-history ids), the rules, the presets, the watched folders, the
/// undo-history ids.
pub open spec fn state_problem(s: StateView) -> Option<Seq<char>> {
    if s.schema_version != 1 {
        Some(schema_message())
    } else if !known_theme(s.settings.theme) {
        Some(theme_message())
    } else if s.rules.len() > 500 || s.presets.len() > 50 || s.watched_folders.len() > 100
        || s.recent_journal_ids.len() > 100 {
        Some(count_message())
    } else if rules_problem(s.rules) is Some {
        rules_problem(s.rules)
    } else if presets_problem_from(s.presets, 0) is Some {
        presets_problem_from(s.presets, 0)
    } else if watches_problem_from(s.watched_folders, s.presets, 0) is Some {
        watches_problem_from(s.watched_folders, s.presets, 0)
    } else if !distinct_ids(s.recent_journal_ids) {
        Some(duplicate_journal_message())
    } else {
        None
    }
}

/// Whether `ids` holds no identifier twice.
fn ids_distinct(ids: &Vec<u128>) -> (r: bool)
    ensures
        r == distinct_ids(ids@),
{
    let mut i: usize = 0;
    while i < ids.len()
        invariant
            i <= ids.len(),
            forall|a: int, b: int| 0 <= a < b < i ==> ids@[a] != ids@[b],
        decreases ids.len() - i,
    {
        let mut j: usize = 0;
        while j < i
            invariant
                j <= i < ids.len(),
                forall|a: int| 0 <= a < j ==> ids@[a] != ids@[i as int],
            decreases i - j,
        {
            if ids[j] == ids[i] {
                return false;
            }
            j += 1;
        }
        i += 1;
    }
    true
}

fn ids_of_rules(rules: &[Rule]) -> (r: Vec<u128>)
    ensures
        r@ == rule_ids(rules_view(rules@)),
{
    let mut r: Vec<u128> = Vec::new();
    let mut i: usize = 0;
    while i < rules.len()
        invariant
            i <= rules.len(),
            r@ == rule_ids(rules_view(rules@)).take(i as int),
        decreases rules.len() - i,
    {
        r.push(rules[i].id);
        proof {
            assert(rule_ids(rules_view(rules@)).take(i + 1) =~= rule_ids(rules_view(rules@)).take(
                i as int,
            ).push(rules[i as int].id));
        }
        i += 1;
    }
    assert(rule_ids(rules_view(rules@)).take(rules.len() as int) =~= rule_ids(rules_view(rules@)));
    r
}

/// Whether `ids[..end]` holds `id`.
fn holds_id(ids: &Vec<u128>, end: usize, id: u128) -> (r: bool)
    requires
        end <= ids.len(),
    ensures
        r == ids@.take(end as int).contains(id),
{
    let mut j: usize = 0;
    while j < end
        invariant
            j <= end <= ids.len(),
            forall|a: int| 0 <= a < j ==> ids@[a] != id,
        decreases end - j,
    {
        if ids[j] == id {
            assert(ids@.take(end as int)[j as int] == id);
            return true;
        }
        j += 1;
    }
    false
}

/// A list of rules may not hold one identifier twice.
pub fn validate_unique_rule_ids(rules: &[Rule]) -> (r: Result<(), String>)
    ensures
        r is Ok <==> distinct_ids(rule_ids(rules_view(rules@))),
        r matches Err(m) ==> m@ == duplicate_rule_message(),
{
    let ids = ids_of_rules(rules);
    if ids_distinct(&ids) {
        Ok(())
    } else {
        Err(owned("Settings contain duplicate rule identifiers."))
    }
}

/// The text of the first invalid rule's error.
fn check_rules(rules: &Vec<Rule>) -> (r: Result<(), String>)
    ensures
        r is Ok <==> first_rule_problem(rules_view(rules@)) is None,
        r matches Err(m) ==> first_rule_problem(rules_view(rules@)) == Some(m@),
{
    let ghost all = rules_view(rules@);
    let mut i: usize = 0;
    assert(all.skip(0) =~= all);
    while i < rules.len()
        invariant
            i <= rules.len(),
            all == rules_view(rules@),
            first_rule_problem(all) == first_rule_problem(all.skip(i as int)),
        decreases rules.len() - i,
    {
        assert(all.skip(i as int)[0] == rules@[i as int]@);
        assert(all.skip(i as int).skip(1) =~= all.skip(i + 1));
        match validate_rule(&rules[i]) {
            Err(e) => {
                return Err(e.to_text());
            },
            Ok(()) => {},
        }
        i += 1;
    }
    assert(all.skip(rules.len() as int).len() == 0);
    Ok(())
}

fn check_rule_list(rules: &Vec<Rule>) -> (r: Result<(), String>)
    ensures
        r is Ok <==> rules_problem(rules_view(rules@)) is None,
        r matches Err(m) ==> rules_problem(rules_view(rules@)) == Some(m@),
{
    validate_unique_rule_ids(rules.as_slice())?;
    check_rules(rules)
}

/// The settings the app accepts: see `state_problem` for what is checked,
/// and in which order; the first problem found is the error.
pub fn validate_state_data(state: &AppStateData) -> (r: Result<(), String>)
    ensures
        r is Ok <==> state_problem(state@) is None,
        r matches Err(m) ==> state_problem(state@) == Some(m@),
{
    if state.schema_version != 1 {
        return Err(owned("Unsupported settings schema version."));
    }
    let theme = state.settings.theme.as_str();
    if !(str_eq(theme, "system") || str_eq(theme, "light") || str_eq(theme, "dark")) {
        return Err(owned("Settings contain an unsupported theme value."));
    }
    if state.rules.len() > 500 || state.presets.len() > 50 || state.watched_folders.len() > 100
        || state.recent_journal_ids.len() > 100 {
        return Err(owned("Settings contain more items than this SortSmith build supports."));
    }
    check_rule_list(&state.rules)?;
    let ghost ps = state@.presets;
    let mut ids: Vec<u128> = Vec::new();
    let mut i: usize = 0;
    while i < state.presets.len()
        invariant
            i <= state.presets.len(),
            ps == state@.presets,
            ids@ == preset_ids(ps).take(i as int),
            presets_problem_from(ps, 0) == presets_problem_from(ps, i as int),
            state@.schema_version == 1,
            known_theme(state@.settings.theme),
            state.rules.len() <= 500 && state.presets.len() <= 50 && state.watched_folders.len()
                <= 100 && state.recent_journal_ids.len() <= 100,
            rules_problem(state@.rules) is None,
        decreases state.presets.len() - i,
    {
        let preset = &state.presets[i];
        assert(ps[i as int] == preset@);
        assert(preset_ids(ps)[i as int] == preset.id);
        if holds_id(&ids, i, preset.id) {
            assert(ids@.take(i as int) =~= ids@);
            return Err(owned("Settings contain duplicate preset identifiers."));
        }
        assert(ids@.take(i as int) =~= ids@);
        if blank(preset.name.as_str()) || char_count(preset.name.as_str()) > 128 || char_count(
            preset.description.as_str(),
        ) > 512 || preset.rules.len() > 500 {
            return Err(owned("Settings contain an invalid preset definition."));
        }
        check_rule_list(&preset.rules)?;
        ids.push(preset.id);
        proof {
            assert(preset_ids(ps).take(i + 1) =~= preset_ids(ps).take(i as int).push(preset.id));
        }
        i += 1;
    }
    assert(preset_ids(ps).take(ps.len() as int) =~= preset_ids(ps));
    let ghost ws = state@.watched_folders;
    let mut seen: Vec<u128> = Vec::new();
    let mut k: usize = 0;
    while k < state.watched_folders.len()
        invariant
            k <= state.watched_folders.len(),
            ps == state@.presets,
            ws == state@.watched_folders,
            ids@ == preset_ids(ps),
            seen@ == watch_ids(ws).take(k as int),
            watches_problem_from(ws, ps, 0) == watches_problem_from(ws, ps, k as int),
            state@.schema_version == 1,
            known_theme(state@.settings.theme),
            state.rules.len() <= 500 && state.presets.len() <= 50 && state.watched_folders.len()
                <= 100 && state.recent_journal_ids.len() <= 100,
            rules_problem(state@.rules) is None,
            presets_problem_from(ps, 0) is None,
        decreases state.watched_folders.len() - k,
    {
        let watch = &state.watched_folders[k];
        assert(ws[k as int] == watch@);
        assert(watch_ids(ws)[k as int] == watch.id);
        if holds_id(&seen, k, watch.id) {
            assert(seen@.take(k as int) =~= seen@);
            return Err(owned("Settings contain duplicate watched-folder identifiers."));
        }
        assert(seen@.take(k as int) =~= seen@);
        let path = watch.path.as_str();
        if blank(path) || char_count(path) > 4096 || watch.interval_minutes < 5
            || watch.interval_minutes > 10_080 {
            return Err(owned("Settings contain an invalid watched-folder entry."));
        }
        match watch.preset_id {
            Some(p) => {
                let n = ids.len();
                if !holds_id(&ids, n, p) {
                    assert(ids@.take(n as int) =~= ids@);
                    return Err(
                        owned("A watched folder references a preset that is not present in this backup."),
                    );
                }
                assert(ids@.take(n as int) =~= ids@);
            },
            None => {},
        }
        seen.push(watch.id);
        proof {
            assert(watch_ids(ws).take(k + 1) =~= watch_ids(ws).take(k as int).push(watch.id));
        }
        k += 1;
    }
    if !ids_distinct(&state.recent_journal_ids) {
        return Err(owned("Settings contain duplicate undo-history identifiers."));
    }
    Ok(())
}

} // verus!

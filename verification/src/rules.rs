//! Rules: validation, matching against scanned files, and the destination a
//! matching rule gives a file.
use vstd::prelude::*;
use crate::error::{ErrorView, Result, SortSmithError};
use crate::models::{
    ActionView, CriterionView, FileEntry, FileView, Rule, RuleAction, RuleCriterion, RuleView,
    Timestamp, criteria_view,
};
use crate::paths::{
    FsPath, PathView, file_name_of, file_stem_of, join_path, parse_path, with_file_name_of,
    parent_of, starts_with_path, is_component_name, is_parent_name, lemma_parse_single_name,
    extension_of, lemma_last_dot_before,
};
use crate::safety::{
    has_unsafe_filename_char, is_unsafe_filename_char,
    filename_problem, fragment_problem, safe_subdirectory, subdirectory_refused, validate_filename,
    validate_filename_fragment, is_portable_char, lemma_last_piece_whole, last_piece_len,
    lemma_first_piece_at_least, lemma_first_piece_at_most, device_stem, is_device_name,
};
use crate::text::{
    blank, char_count, chars_of, concat, contains_char, contains_char_exec, contains_seq,
    contains_text, ends_with, ends_with_exec, eq_ignore_case, eq_ignore_case_exec, is_blank,
    lower_seq, lower_text, owned, push_chars, push_str, replace_all, replace_text, starts_with,
    starts_with_exec, string_of, trim_start_char, trim_start_char_exec, is_white_space,
    lemma_ascii_lengths, lemma_replace_after_plain, lemma_replace_at_match, occurs_at,
};

verus! {

#[verifier::external_type_specification]
#[verifier::external_body]
pub struct ExRegex(regex::Regex);

/// Whether `regex::Regex::new(pattern)` accepts the pattern.
pub uninterp spec fn regex_accepts(pattern: Seq<char>) -> bool;

/// Whether the regular expression `pattern` matches somewhere in `text`
/// (`Regex::is_match`).
pub uninterp spec fn regex_finds(pattern: Seq<char>, text: Seq<char>) -> bool;

/// The text of the error that `regex::Regex::new(pattern)` reports.
pub uninterp spec fn regex_error_text(pattern: Seq<char>) -> Seq<char>;

/// A regular expression together with the pattern it was compiled from.
/// Values are made only by `compile_pattern`, so `regex` is always the
/// compilation of `source`.
pub struct CompiledPattern {
    source: String,
    regex: regex::Regex,
}

impl CompiledPattern {
    pub closed spec fn source(&self) -> Seq<char> {
        self.source@
    }
}

/// `regex::Regex::new`: succeeds exactly on the patterns the crate accepts;
/// on failure, the error's text.
#[verifier::external_body]
fn compile_pattern(pattern: &str) -> (r: std::result::Result<CompiledPattern, String>)
    ensures
        r is Ok <==> regex_accepts(pattern@),
        r matches Ok(c) ==> c.source() == pattern@,
        r matches Err(m) ==> m@ == regex_error_text(pattern@),
{
    match regex::Regex::new(pattern) {
        Ok(regex) => Ok(CompiledPattern { source: pattern.to_string(), regex }),
        Err(e) => Err(e.to_string()),
    }
}

/// `regex::Regex::is_match` on the compiled pattern.
#[verifier::external_body]
fn pattern_finds(compiled: &CompiledPattern, text: &str) -> (r: bool)
    ensures
        r == regex_finds(compiled.source(), text@),
{
    compiled.regex.is_match(text)
}

/// Some value, with leading dots removed, equals the extension up to ASCII case.
pub open spec fn extension_matches(values: Seq<Seq<char>>, extension: Option<Seq<char>>) -> bool {
    match extension {
        Some(e) => exists|i: int|
            0 <= i < values.len() && eq_ignore_case(trim_start_char(#[trigger] values[i], '.'), e),
        None => false,
    }
}

/// The MIME type starts with some prefix, both lower-cased.
pub open spec fn mime_matches(values: Seq<Seq<char>>, mime: Option<Seq<char>>) -> bool {
    match mime {
        Some(m) => exists|i: int|
            0 <= i < values.len() && starts_with(lower_seq(m), lower_seq(#[trigger] values[i])),
        None => false,
    }
}

/// The file was modified before `now` minus `days` days.
pub open spec fn older_than(days: u32, modified: Option<Timestamp>, now: Timestamp) -> bool {
    match modified {
        Some(m) => {
            let limit = now.secs - days * 86400;
            m.secs < limit || (m.secs == limit && m.nanos < now.nanos)
        },
        None => false,
    }
}

pub open spec fn size_matches(min_bytes: Option<u64>, max_bytes: Option<u64>, size: u64) -> bool {
    (match min_bytes {
        Some(m) => size >= m,
        None => true,
    }) && (match max_bytes {
        Some(m) => size <= m,
        None => true,
    })
}

/// The file's name is matched by the (valid) regular expression `pattern`.
pub open spec fn name_pattern_matches(pattern: Seq<char>, path: PathView) -> bool {
    regex_accepts(pattern) && match file_name_of(path) {
        Some(n) => regex_finds(pattern, n),
        None => false,
    }
}

/// Whether one criterion holds for a file at time `now`, given the outcome
/// `name_found` of the name pattern (used by `NameRegex` only).
pub open spec fn criterion_given(
    c: CriterionView,
    file: FileView,
    now: Timestamp,
    name_found: bool,
) -> bool {
    match c {
        CriterionView::Extension { values } => extension_matches(values, file.extension),
        CriterionView::MimePrefix { values } => mime_matches(values, file.mime),
        CriterionView::ModifiedOlderThanDays { days } => older_than(days, file.modified_at, now),
        CriterionView::SizeRange { min_bytes, max_bytes } => size_matches(
            min_bytes,
            max_bytes,
            file.size,
        ),
        CriterionView::NameRegex { .. } => name_found,
    }
}

/// Whether one criterion holds for a file at time `now`.
pub open spec fn criterion_holds(c: CriterionView, file: FileView, now: Timestamp) -> bool {
    criterion_given(
        c,
        file,
        now,
        match c {
            CriterionView::NameRegex { pattern } => name_pattern_matches(pattern, file.path),
            _ => false,
        },
    )
}

/// Whether a rule matches a file at time `now`: it is enabled, and all
/// (or, without `match_all`, any) of its criteria hold.
pub open spec fn rule_holds(rule: RuleView, file: FileView, now: Timestamp) -> bool {
    rule.enabled && if rule.match_all {
        forall|i: int|
            0 <= i < rule.criteria.len() ==> criterion_holds(#[trigger] rule.criteria[i], file, now)
    } else {
        exists|i: int|
            0 <= i < rule.criteria.len() && criterion_holds(#[trigger] rule.criteria[i], file, now)
    }
}

fn extension_check(values: &Vec<String>, extension: &Option<String>) -> (r: bool)
    ensures
        r == extension_matches(crate::models::texts(values@), crate::models::opt_text(*extension)),
{
    match extension {
        Some(e) => {
            let ev = chars_of(e.as_str());
            let mut i: usize = 0;
            while i < values.len()
                invariant
                    ev@ == e@,
                    crate::models::opt_text(*extension) == Some(e@),
                    i <= values.len(),
                    forall|j: int|
                        0 <= j < i ==> !eq_ignore_case(
                            trim_start_char(#[trigger] crate::models::texts(values@)[j], '.'),
                            e@,
                        ),
                decreases values.len() - i,
            {
                let v = chars_of(values[i].as_str());
                let t = trim_start_char_exec(&v, '.');
                if eq_ignore_case_exec(&t, &ev) {
                    proof {
                        assert(crate::models::texts(values@)[i as int] == values@[i as int]@);
                        assert(eq_ignore_case(
                            trim_start_char(crate::models::texts(values@)[i as int], '.'),
                            e@,
                        ));
                        assert(0 <= i < crate::models::texts(values@).len());
                        assert(crate::models::opt_text(*extension) == Some(e@));
                    }
                    return true;
                }
                proof {
                    assert(crate::models::texts(values@)[i as int] == values@[i as int]@);
                }
                i += 1;
            }
            false
        },
        None => false,
    }
}

fn mime_check(values: &Vec<String>, mime: &Option<String>) -> (r: bool)
    ensures
        r == mime_matches(crate::models::texts(values@), crate::models::opt_text(*mime)),
{
    match mime {
        Some(m) => {
            let mv = chars_of(m.as_str());
            let lm = lower_text(&mv);
            let mut i: usize = 0;
            while i < values.len()
                invariant
                    lm@ == lower_seq(m@),
                    crate::models::opt_text(*mime) == Some(m@),
                    i <= values.len(),
                    forall|j: int|
                        0 <= j < i ==> !starts_with(
                            lower_seq(m@),
                            lower_seq(#[trigger] crate::models::texts(values@)[j]),
                        ),
                decreases values.len() - i,
            {
                let v = chars_of(values[i].as_str());
                let lv = lower_text(&v);
                proof {
                    assert(crate::models::texts(values@)[i as int] == values@[i as int]@);
                }
                if starts_with_exec(&lm, &lv) {
                    assert(starts_with(
                        lower_seq(m@),
                        lower_seq(crate::models::texts(values@)[i as int]),
                    ));
                    assert(0 <= i < crate::models::texts(values@).len());
                    assert(crate::models::opt_text(*mime) == Some(m@));
                    return true;
                }
                i += 1;
            }
            false
        },
        None => false,
    }
}

fn older_check(days: u32, modified: Option<Timestamp>, now: Timestamp) -> (r: bool)
    ensures
        r == older_than(days, modified, now),
{
    match modified {
        Some(m) => {
            let limit: i128 = now.secs as i128 - (days as i128) * 86400;
            (m.secs as i128) < limit || ((m.secs as i128) == limit && m.nanos < now.nanos)
        },
        None => false,
    }
}

/// Whether one criterion holds, given the outcome of the name pattern
/// (`name_found`, consulted for `NameRegex` only).
pub fn criterion_matches_given(
    criterion: &RuleCriterion,
    file: &FileEntry,
    now: Timestamp,
    name_found: bool,
) -> (r: bool)
    ensures
        r == criterion_given(criterion@, file@, now, name_found),
{
    match criterion {
        RuleCriterion::Extension { values } => extension_check(values, &file.extension),
        RuleCriterion::MimePrefix { values } => mime_check(values, &file.mime),
        RuleCriterion::ModifiedOlderThanDays { days } => older_check(*days, file.modified_at, now),
        RuleCriterion::SizeRange { min_bytes, max_bytes } => {
            let low = match min_bytes {
                Some(m) => file.size >= *m,
                None => true,
            };
            let high = match max_bytes {
                Some(m) => file.size <= *m,
                None => true,
            };
            low && high
        },
        RuleCriterion::NameRegex { .. } => name_found,
    }
}

/// The compiled pattern of each `NameRegex` criterion (`None` for other
/// criteria and for patterns the regex crate refuses).
pub open spec fn patterns_fit(criteria: Seq<CriterionView>, patterns: Seq<Option<CompiledPattern>>) -> bool {
    &&& patterns.len() == criteria.len()
    &&& forall|i: int|
        0 <= i < criteria.len() ==> match #[trigger] criteria[i] {
            CriterionView::NameRegex { pattern } => match patterns[i] {
                Some(c) => regex_accepts(pattern) && c.source() == pattern,
                None => !regex_accepts(pattern),
            },
            _ => patterns[i] is None,
        }
}

/// A validated rule, with its name patterns compiled once.
pub struct PreparedRule<'a> {
    rule: &'a Rule,
    regexes: Vec<Option<CompiledPattern>>,
}

impl<'a> PreparedRule<'a> {
    pub closed spec fn spec_rule(&self) -> RuleView {
        self.rule@
    }

    pub closed spec fn wf(&self) -> bool {
        patterns_fit(self.rule@.criteria, self.regexes@)
    }

    /// The rule this was prepared from.
    pub fn rule(&self) -> (r: &'a Rule)
        ensures
            r@ == self.spec_rule(),
    {
        self.rule
    }

    fn criterion_at(&self, i: usize, file: &FileEntry, now: Timestamp) -> (r: bool)
        requires
            self.wf(),
            i < self.spec_rule().criteria.len(),
        ensures
            r == criterion_holds(self.spec_rule().criteria[i as int], file@, now),
    {
        let criterion = &self.rule.criteria[i];
        proof {
            assert(criteria_view(self.rule.criteria@)[i as int] == criterion@);
        }
        let found = match criterion {
            RuleCriterion::NameRegex { .. } => match &self.regexes[i] {
                Some(compiled) => match file.path.file_name() {
                    Some(name) => pattern_finds(compiled, name.as_str()),
                    None => false,
                },
                None => false,
            },
            _ => false,
        };
        criterion_matches_given(criterion, file, now, found)
    }

    /// Whether the rule matches `file` at time `now`.
    pub fn matches_at(&self, file: &FileEntry, now: Timestamp) -> (r: bool)
        requires
            self.wf(),
        ensures
            r == rule_holds(self.spec_rule(), file@, now),
    {
        if !self.rule.enabled {
            return false;
        }
        let n = self.rule.criteria.len();
        let all = self.rule.match_all;
        let mut i: usize = 0;
        while i < n
            invariant
                self.wf(),
                self.spec_rule().enabled,
                n == self.spec_rule().criteria.len(),
                all == self.spec_rule().match_all,
                i <= n,
                all ==> forall|j: int|
                    0 <= j < i ==> criterion_holds(#[trigger] self.spec_rule().criteria[j], file@, now),
                !all ==> forall|j: int|
                    0 <= j < i ==> !criterion_holds(#[trigger] self.spec_rule().criteria[j], file@, now),
            decreases n - i,
        {
            let holds = self.criterion_at(i, file, now);
            if all && !holds {
                return false;
            }
            if !all && holds {
                assert(criterion_holds(self.spec_rule().criteria[i as int], file@, now));
                return true;
            }
            i += 1;
        }
        all
    }

    /// Whether the rule matches `file` at the time `clock` reads.
    pub fn matches<C: Fn() -> Timestamp>(&self, file: &FileEntry, clock: &C) -> (r: bool)
        requires
            self.wf(),
            clock.requires(()),
        ensures
            exists|now: Timestamp| clock.ensures((), now) && r == rule_holds(self.spec_rule(), file@, now),
    {
        let now = clock();
        self.matches_at(file, now)
    }
}

/// Law: a rule without age criteria matches a file the same way at every
/// time.
pub proof fn law_match_without_age_criteria_ignores_time(
    rule: RuleView,
    file: FileView,
    now1: Timestamp,
    now2: Timestamp,
)
    requires
        forall|i: int|
            0 <= i < rule.criteria.len() ==> !(#[trigger] rule.criteria[i] is ModifiedOlderThanDays),
    ensures
        rule_holds(rule, file, now1) == rule_holds(rule, file, now2),
{
    assert forall|i: int| 0 <= i < rule.criteria.len() implies criterion_holds(
        #[trigger] rule.criteria[i],
        file,
        now1,
    ) == criterion_holds(rule.criteria[i], file, now2) by {
        assert(!(rule.criteria[i] is ModifiedOlderThanDays));
    }
    if rule.match_all {
        if rule_holds(rule, file, now1) {
            assert forall|i: int| 0 <= i < rule.criteria.len() implies criterion_holds(
                #[trigger] rule.criteria[i],
                file,
                now2,
            ) by {
                assert(criterion_holds(rule.criteria[i], file, now1));
            }
        }
        if rule_holds(rule, file, now2) {
            assert forall|i: int| 0 <= i < rule.criteria.len() implies criterion_holds(
                #[trigger] rule.criteria[i],
                file,
                now1,
            ) by {
                assert(criterion_holds(rule.criteria[i], file, now2));
            }
        }
    } else {
        if rule_holds(rule, file, now1) {
            let i = choose|i: int|
                0 <= i < rule.criteria.len() && criterion_holds(#[trigger] rule.criteria[i], file, now1);
            assert(criterion_holds(rule.criteria[i], file, now2));
        }
        if rule_holds(rule, file, now2) {
            let i = choose|i: int|
                0 <= i < rule.criteria.len() && criterion_holds(#[trigger] rule.criteria[i], file, now2);
            assert(criterion_holds(rule.criteria[i], file, now1));
        }
    }
}


/// `'name` followed by `rest` (which starts with the closing quote).
pub open spec fn quoted(name: Seq<char>, rest: Seq<char>) -> Seq<char> {
    "'"@ + name + rest
}

pub open spec fn invalid(message: Seq<char>) -> Option<ErrorView> {
    Some(ErrorView::InvalidRule(message))
}

/// What `validate_values` refuses: no values, more than `maximum`, or a
/// blank value or one of more than 128 characters.
pub open spec fn values_problem(
    values: Seq<Seq<char>>,
    maximum: nat,
    label: Seq<char>,
    rule_name: Seq<char>,
) -> Option<ErrorView> {
    if values.len() == 0 || values.len() > maximum || exists|i: int|
        0 <= i < values.len() && (is_blank(#[trigger] values[i]) || values[i].len() > 128) {
        invalid(quoted(rule_name, "' has invalid "@ + label + " values"@))
    } else {
        None
    }
}

/// What `validate_rule` refuses in one criterion.
pub open spec fn criterion_problem(c: CriterionView, name: Seq<char>) -> Option<ErrorView> {
    match c {
        CriterionView::Extension { values } => values_problem(values, 64, "extension"@, name),
        CriterionView::MimePrefix { values } => values_problem(values, 64, "MIME prefix"@, name),
        CriterionView::ModifiedOlderThanDays { days } => if days > 365_000 {
            invalid(quoted(name, "' has an unsupported modified-age range"@))
        } else {
            None
        },
        CriterionView::SizeRange { min_bytes, max_bytes } => if min_bytes is None && max_bytes is None {
            invalid(quoted(name, "' has an empty size range"@))
        } else if min_bytes is Some && max_bytes is Some && min_bytes->0 > max_bytes->0 {
            invalid(quoted(name, "' has a minimum size larger than its maximum"@))
        } else {
            None
        },
        CriterionView::NameRegex { pattern } => if pattern.len() == 0 || pattern.len() > 1024 {
            invalid(quoted(name, "' has an empty or oversized filename pattern"@))
        } else if !regex_accepts(pattern) {
            invalid("invalid regex in '"@ + name + "': "@ + regex_error_text(pattern))
        } else {
            None
        },
    }
}

/// The first criterion problem, in order.
pub open spec fn criteria_problem(cs: Seq<CriterionView>, name: Seq<char>) -> Option<ErrorView>
    decreases cs.len(),
{
    if cs.len() == 0 {
        None
    } else {
        match criterion_problem(cs[0], name) {
            Some(e) => Some(e),
            None => criteria_problem(cs.skip(1), name),
        }
    }
}

/// What `validate_rule` refuses in a rename template.
pub open spec fn template_problem(t: Seq<char>) -> Option<ErrorView> {
    match fragment_problem(t, "rename template"@) {
        Some(e) => Some(e),
        None => if contains_seq(t, ".."@) {
            invalid("rename template cannot contain '..'"@)
        } else if !contains_seq(t, "{name}"@) && !contains_seq(t, "{ext}"@) {
            invalid("rename template must contain {name} or {ext}"@)
        } else {
            let rest = replace_all(replace_all(t, "{name}"@, Seq::empty()), "{ext}"@, Seq::empty());
            if contains_char(rest, '{') || contains_char(rest, '}') {
                invalid("rename template contains an unknown placeholder"@)
            } else {
                None
            }
        },
    }
}

/// What `validate_rule` refuses in an action.
pub open spec fn action_problem(a: ActionView) -> Option<ErrorView> {
    match a {
        ActionView::MoveTo { subdirectory } => if subdirectory_refused(subdirectory) {
            Some(ErrorView::UnsafeDestination(parse_path(subdirectory)))
        } else {
            None
        },
        ActionView::RenamePrefix { prefix } => fragment_problem(prefix, "rename prefix"@),
        ActionView::RenameTemplate { template } => template_problem(template),
    }
}

/// What `validate_rule` refuses, with its error: `None` for a valid rule.
pub open spec fn rule_problem(rule: RuleView) -> Option<ErrorView> {
    if is_blank(rule.name) || rule.name.len() > 128 {
        invalid("rule name must contain 1 to 128 characters"@)
    } else if rule.criteria.len() == 0 || rule.criteria.len() > 16 {
        invalid(quoted(rule.name, "' must contain 1 to 16 criteria"@))
    } else {
        match criteria_problem(rule.criteria, rule.name) {
            Some(e) => Some(e),
            None => action_problem(rule.action),
        }
    }
}

fn quoted_message(name: &str, rest: &str) -> (r: String)
    ensures
        r@ == quoted(name@, rest@),
{
    let mut r = owned("'");
    push_str(&mut r, name);
    push_str(&mut r, rest);
    r
}

fn invalid_quoted<T>(name: &str, rest: &str) -> (r: Result<T>)
    ensures
        r matches Err(e) && e@ == ErrorView::InvalidRule(quoted(name@, rest@)),
{
    Err(SortSmithError::InvalidRule(quoted_message(name, rest)))
}

/// Checks the values of an extension or MIME-prefix criterion.
pub fn validate_values(values: &[String], maximum: usize, label: &str, rule_name: &str) -> (r: Result<()>)
    ensures
        r is Ok <==> values_problem(crate::models::texts(values@), maximum as nat, label@, rule_name@) is None,
        r matches Err(e) ==> values_problem(crate::models::texts(values@), maximum as nat, label@, rule_name@)
            == Some(e@),
{
    let ghost vs = crate::models::texts(values@);
    let mut bad = values.len() == 0 || values.len() > maximum;
    let mut i: usize = 0;
    while i < values.len() && !bad
        invariant
            vs == crate::models::texts(values@),
            i <= values.len(),
            !bad ==> !(values.len() == 0 || values.len() > maximum),
            !bad ==> forall|j: int| 0 <= j < i ==> !(is_blank(#[trigger] vs[j]) || vs[j].len() > 128),
            bad ==> (values.len() == 0 || values.len() > maximum || exists|j: int|
                0 <= j < values.len() && (is_blank(#[trigger] vs[j]) || vs[j].len() > 128)),
        decreases values.len() - i,
    {
        let v = values[i].as_str();
        proof {
            assert(vs[i as int] == values@[i as int]@);
        }
        if blank(v) || char_count(v) > 128 {
            bad = true;
        }
        i += 1;
    }
    if bad {
        let mut rest = owned("' has invalid ");
        push_str(&mut rest, label);
        push_str(&mut rest, " values");
        return invalid_quoted(rule_name, rest.as_str());
    }
    Ok(())
}

fn validate_criterion(c: &RuleCriterion, name: &str) -> (r: Result<()>)
    ensures
        r is Ok <==> criterion_problem(c@, name@) is None,
        r matches Err(e) ==> criterion_problem(c@, name@) == Some(e@),
{
    match c {
        RuleCriterion::Extension { values } => validate_values(values.as_slice(), 64, "extension", name),
        RuleCriterion::MimePrefix { values } => validate_values(values.as_slice(), 64, "MIME prefix", name),
        RuleCriterion::ModifiedOlderThanDays { days } => {
            if *days > 365_000 {
                return invalid_quoted(name, "' has an unsupported modified-age range");
            }
            Ok(())
        },
        RuleCriterion::SizeRange { min_bytes, max_bytes } => {
            if min_bytes.is_none() && max_bytes.is_none() {
                return invalid_quoted(name, "' has an empty size range");
            }
            match (min_bytes, max_bytes) {
                (Some(minimum), Some(maximum)) => {
                    if *minimum > *maximum {
                        return invalid_quoted(name, "' has a minimum size larger than its maximum");
                    }
                },
                _ => {},
            }
            Ok(())
        },
        RuleCriterion::NameRegex { pattern } => {
            let n = char_count(pattern.as_str());
            if n == 0 || n > 1024 {
                return invalid_quoted(name, "' has an empty or oversized filename pattern");
            }
            match compile_pattern(pattern.as_str()) {
                Ok(_) => Ok(()),
                Err(m) => {
                    let mut text = concat("invalid regex in '", name);
                    push_str(&mut text, "': ");
                    push_str(&mut text, m.as_str());
                    Err(SortSmithError::InvalidRule(text))
                },
            }
        },
    }
}

fn text_of(s: &str) -> (r: Vec<char>)
    ensures
        r@ == s@,
{
    chars_of(s)
}

fn name_placeholder() -> (r: Vec<char>)
    ensures
        r@ == "{name}"@,
        r@.len() == 6,
{
    proof {
        reveal_strlit("{name}");
    }
    chars_of("{name}")
}

fn ext_placeholder() -> (r: Vec<char>)
    ensures
        r@ == "{ext}"@,
        r@.len() == 5,
{
    proof {
        reveal_strlit("{ext}");
    }
    chars_of("{ext}")
}

fn validate_template(template: &str) -> (r: Result<()>)
    ensures
        r is Ok <==> template_problem(template@) is None,
        r matches Err(e) ==> template_problem(template@) == Some(e@),
{
    validate_filename_fragment(template, "rename template")?;
    let t = chars_of(template);
    if contains_text(&t, &text_of("..")) {
        return Err(SortSmithError::InvalidRule(owned("rename template cannot contain '..'")));
    }
    let name = name_placeholder();
    let ext = ext_placeholder();
    if !contains_text(&t, &name) && !contains_text(&t, &ext) {
        return Err(SortSmithError::InvalidRule(owned("rename template must contain {name} or {ext}")));
    }
    let empty: Vec<char> = Vec::new();
    let a = replace_text(&t, &name, &empty);
    let rest = replace_text(&a, &ext, &empty);
    proof {
        assert(empty@ =~= Seq::<char>::empty());
    }
    if contains_char_exec(&rest, '{') || contains_char_exec(&rest, '}') {
        return Err(SortSmithError::InvalidRule(owned("rename template contains an unknown placeholder")));
    }
    Ok(())
}

fn validate_action(a: &RuleAction) -> (r: Result<()>)
    ensures
        r is Ok <==> action_problem(a@) is None,
        r matches Err(e) ==> action_problem(a@) == Some(e@),
{
    match a {
        RuleAction::MoveTo { subdirectory } => {
            let here = FsPath::parse(".");
            match safe_subdirectory(&here, subdirectory.as_str()) {
                Ok(_) => Ok(()),
                Err(e) => Err(e),
            }
        },
        RuleAction::RenamePrefix { prefix } => validate_filename_fragment(prefix.as_str(), "rename prefix"),
        RuleAction::RenameTemplate { template } => validate_template(template.as_str()),
    }
}

/// Checks a rule before it is used: a name of 1 to 128 characters, 1 to 16
/// valid criteria, and a safe action.
pub fn validate_rule(rule: &Rule) -> (r: Result<()>)
    ensures
        r is Ok <==> rule_problem(rule@) is None,
        r matches Err(e) ==> rule_problem(rule@) == Some(e@),
{
    let name = rule.name.as_str();
    if blank(name) || char_count(name) > 128 {
        return Err(SortSmithError::InvalidRule(owned("rule name must contain 1 to 128 characters")));
    }
    let n = rule.criteria.len();
    if n == 0 || n > 16 {
        return invalid_quoted(name, "' must contain 1 to 16 criteria");
    }
    let ghost cs = rule@.criteria;
    let mut i: usize = 0;
    assert(cs.skip(0) =~= cs);
    while i < n
        invariant
            n == rule.criteria.len(),
            cs == rule@.criteria,
            cs.len() == n,
            0 < n <= 16,
            name@ == rule@.name,
            !is_blank(rule@.name) && rule@.name.len() <= 128,
            i <= n,
            criteria_problem(cs, rule@.name) == criteria_problem(cs.skip(i as int), rule@.name),
        decreases n - i,
    {
        proof {
            assert(cs.skip(i as int)[0] == cs[i as int]);
            assert(cs.skip(i as int).skip(1) =~= cs.skip(i + 1));
            assert(cs[i as int] == rule.criteria@[i as int]@);
        }
        match validate_criterion(&rule.criteria[i], name) {
            Ok(()) => {},
            Err(e) => {
                proof {
                    assert(criteria_problem(cs.skip(i as int), rule@.name) == Some(e@));
                }
                return Err(e);
            },
        }
        i += 1;
    }
    assert(cs.skip(n as int) =~= Seq::<CriterionView>::empty());
    validate_action(&rule.action)
}

impl<'a> PreparedRule<'a> {
    /// Validates the rule and compiles its name patterns.
    pub fn new(rule: &'a Rule) -> (r: Result<PreparedRule<'a>>)
        ensures
            r is Ok <==> rule_problem(rule@) is None,
            r matches Err(e) ==> rule_problem(rule@) == Some(e@),
            r matches Ok(p) ==> p.spec_rule() == rule@ && p.wf(),
    {
        validate_rule(rule)?;
        let mut regexes: Vec<Option<CompiledPattern>> = Vec::new();
        let n = rule.criteria.len();
        let mut i: usize = 0;
        while i < n
            invariant
                n == rule.criteria.len(),
                i <= n,
                patterns_fit(rule@.criteria.take(i as int), regexes@),
            decreases n - i,
        {
            let c = &rule.criteria[i];
            proof {
                assert(rule@.criteria[i as int] == c@);
            }
            let compiled = match c {
                RuleCriterion::NameRegex { pattern } => match compile_pattern(pattern.as_str()) {
                    Ok(p) => Some(p),
                    Err(_) => None,
                },
                _ => None,
            };
            let ghost before = regexes@;
            regexes.push(compiled);
            proof {
                let cs = rule@.criteria.take(i + 1);
                assert(cs =~= rule@.criteria.take(i as int).push(c@));
                assert forall|j: int| 0 <= j < cs.len() implies match #[trigger] cs[j] {
                    CriterionView::NameRegex { pattern } => match regexes@[j] {
                        Some(c) => regex_accepts(pattern) && c.source() == pattern,
                        None => !regex_accepts(pattern),
                    },
                    _ => regexes@[j] is None,
                } by {
                    if j < i {
                        assert(cs[j] == rule@.criteria.take(i as int)[j]);
                        assert(regexes@[j] == before[j]);
                    }
                }
            }
            i += 1;
        }
        assert(rule@.criteria.take(n as int) =~= rule@.criteria);
        Ok(PreparedRule { rule, regexes })
    }
}

/// Whether `rule` (validated first) matches `file` at time `now`.
pub fn rule_matches_at(rule: &Rule, file: &FileEntry, now: Timestamp) -> (r: Result<bool>)
    ensures
        r is Ok <==> rule_problem(rule@) is None,
        r matches Err(e) ==> rule_problem(rule@) == Some(e@),
        r matches Ok(b) ==> b == rule_holds(rule@, file@, now),
{
    let prepared = PreparedRule::new(rule)?;
    Ok(prepared.matches_at(file, now))
}

/// Whether `rule` (validated first) matches `file` at the time `clock`
/// reads.
pub fn rule_matches<C: Fn() -> Timestamp>(rule: &Rule, file: &FileEntry, clock: &C) -> (r: Result<bool>)
    requires
        clock.requires(()),
    ensures
        r is Ok <==> rule_problem(rule@) is None,
        r matches Err(e) ==> rule_problem(rule@) == Some(e@),
        r matches Ok(b) ==> exists|now: Timestamp| clock.ensures((), now) && b == rule_holds(rule@, file@, now),
{
    let now = clock();
    rule_matches_at(rule, file, now)
}


/// The name a rename template gives a file, before the extension is
/// restored and the name is checked.
pub open spec fn rendered_template(template: Seq<char>, stem: Seq<char>, ext: Seq<char>) -> Seq<char> {
    replace_all(replace_all(template, "{name}"@, stem), "{ext}"@, ext)
}

/// The rendered name with the file's extension appended when the template
/// dropped it.
pub open spec fn with_extension_kept(rendered: Seq<char>, ext: Seq<char>) -> Seq<char> {
    if ext.len() > 0 && !ends_with(rendered, "."@ + ext) {
        rendered + "."@ + ext
    } else {
        rendered
    }
}

/// Where `rule` sends `file` below `root`, or why it cannot.
pub open spec fn destination_outcome(root: PathView, file: FileView, rule: RuleView) -> std::result::Result<
    PathView,
    ErrorView,
> {
    match file_name_of(file.path) {
        None => Err(ErrorView::InvalidRule("file has no name"@)),
        Some(name) => match rule.action {
            ActionView::MoveTo { subdirectory } => if subdirectory_refused(subdirectory) {
                Err(ErrorView::UnsafeDestination(parse_path(subdirectory)))
            } else {
                Ok(join_path(join_path(root, parse_path(subdirectory)), parse_path(name)))
            },
            ActionView::RenamePrefix { prefix } => match fragment_problem(prefix, "rename prefix"@) {
                Some(e) => Err(e),
                None => match filename_problem(prefix + name, "renamed file"@) {
                    Some(e) => Err(e),
                    None => Ok(with_file_name_of(file.path, prefix + name)),
                },
            },
            ActionView::RenameTemplate { template } => match fragment_problem(
                template,
                "rename template"@,
            ) {
                Some(e) => Err(e),
                None => {
                    let stem = match file_stem_of(file.path) {
                        Some(s) => s,
                        None => "file"@,
                    };
                    let ext = match file.extension {
                        Some(e) => e,
                        None => Seq::empty(),
                    };
                    let rendered = rendered_template(template, stem, ext);
                    if contains_char(rendered, '/') || contains_char(rendered, '\\') || contains_seq(
                        rendered,
                        ".."@,
                    ) {
                        Err(
                            ErrorView::InvalidRule(
                                "rename template cannot contain path separators or '..'"@,
                            ),
                        )
                    } else if is_blank(rendered) {
                        Err(ErrorView::InvalidRule("rename template cannot produce an empty name"@))
                    } else {
                        let full = with_extension_kept(rendered, ext);
                        match filename_problem(full, "renamed file"@) {
                            Some(e) => Err(e),
                            None => Ok(with_file_name_of(file.path, full)),
                        }
                    }
                },
            },
        },
    }
}

/// The destination `rule` gives `file` when organizing below `root`.
pub fn destination_for(root: &FsPath, file: &FileEntry, rule: &Rule) -> (r: Result<FsPath>)
    ensures
        r matches Ok(p) ==> destination_outcome(root@, file@, rule@) == Ok::<PathView, ErrorView>(p@),
        r matches Err(e) ==> destination_outcome(root@, file@, rule@) == Err::<PathView, ErrorView>(e@),
{
    let name = match file.path.file_name() {
        Some(n) => n,
        None => return Err(SortSmithError::InvalidRule(owned("file has no name"))),
    };
    match &rule.action {
        RuleAction::MoveTo { subdirectory } => {
            let folder = safe_subdirectory(root, subdirectory.as_str())?;
            Ok(folder.join_text(name.as_str()))
        },
        RuleAction::RenamePrefix { prefix } => {
            validate_filename_fragment(prefix.as_str(), "rename prefix")?;
            let rendered = concat(prefix.as_str(), name.as_str());
            validate_filename(rendered.as_str(), "renamed file")?;
            Ok(file.path.with_file_name(rendered.as_str()))
        },
        RuleAction::RenameTemplate { template } => {
            validate_filename_fragment(template.as_str(), "rename template")?;
            let stem = match file.path.file_stem() {
                Some(s) => s,
                None => owned("file"),
            };
            let ext = match &file.extension {
                Some(e) => chars_of(e.as_str()),
                None => Vec::new(),
            };
            let t = chars_of(template.as_str());
            let sv = chars_of(stem.as_str());
            let first = replace_text(&t, &name_placeholder(), &sv);
            let rendered = replace_text(&first, &ext_placeholder(), &ext);
            if contains_char_exec(&rendered, '/') || contains_char_exec(&rendered, '\\')
                || contains_text(&rendered, &text_of("..")) {
                return Err(
                    SortSmithError::InvalidRule(
                        owned("rename template cannot contain path separators or '..'"),
                    ),
                );
            }
            let rendered_text = string_of(&rendered);
            if blank(rendered_text.as_str()) {
                return Err(
                    SortSmithError::InvalidRule(owned("rename template cannot produce an empty name")),
                );
            }
            let mut full = rendered_text;
            if ext.len() > 0 {
                let mut dotted: Vec<char> = Vec::new();
                dotted.push('.');
                let mut k: usize = 0;
                while k < ext.len()
                    invariant
                        k <= ext.len(),
                        dotted@ == seq!['.'] + ext@.take(k as int),
                    decreases ext.len() - k,
                {
                    dotted.push(ext[k]);
                    k += 1;
                    assert(dotted@ =~= seq!['.'] + ext@.take(k as int));
                }
                proof {
                    assert(ext@.take(ext.len() as int) =~= ext@);
                    reveal_strlit(".");
                    assert(dotted@ =~= "."@ + ext@);
                }
                if !ends_with_exec(&rendered, &dotted) {
                    push_chars(&mut full, &dotted);
                    assert(full@ =~= rendered@ + "."@ + ext@);
                }
            }
            proof {
                if file.extension is Some {
                    assert(file@.extension == Some(ext@));
                } else {
                    assert(ext@ =~= Seq::<char>::empty());
                }
            }
            validate_filename(full.as_str(), "renamed file")?;
            Ok(file.path.with_file_name(full.as_str()))
        },
    }
}


/// A filename that `validate_filename` accepts is a single path component.
pub proof fn lemma_accepted_filename_is_component(n: Seq<char>, label: Seq<char>)
    requires
        filename_problem(n, label) is None,
    ensures
        is_component_name(n),
        !is_parent_name(n),
        parse_path(n) == (PathView { rooted: false, current: false, names: seq![n] }),
{
    if contains_char(n, '/') {
        let k = choose|k: int| 0 <= k < n.len() && n[k] == '/';
        assert(is_unsafe_filename_char(n[k]));
        assert(has_unsafe_filename_char(n));
    }
    lemma_parse_single_name(n);
}

/// Law: a move rule's destination lies below the root it organizes.
pub proof fn law_moves_stay_below_root(root: PathView, file: FileView, rule: RuleView)
    requires
        file.path.wf(),
        rule.action is MoveTo,
        destination_outcome(root, file, rule) is Ok,
    ensures
        starts_with_path(destination_outcome(root, file, rule)->Ok_0, root),
{
    let name = file_name_of(file.path)->0;
    assert(is_component_name(name));
    lemma_parse_single_name(name);
    let c = parse_path(rule.action->subdirectory);
    let mid = join_path(root, c);
    let dest = join_path(mid, parse_path(name));
    if !root.is_empty() {
        assert(dest.names.take(root.names.len() as int) =~= root.names);
    }
}

/// Law: a rename rule keeps the file in its folder, under the new name.
pub proof fn law_renames_stay_beside_the_file(root: PathView, file: FileView, rule: RuleView)
    requires
        file.path.wf(),
        rule.action is RenamePrefix || rule.action is RenameTemplate,
        destination_outcome(root, file, rule) is Ok,
    ensures
        parent_of(destination_outcome(root, file, rule)->Ok_0) == parent_of(file.path),
        file_name_of(destination_outcome(root, file, rule)->Ok_0) is Some,
{
    let name = file_name_of(file.path)->0;
    let dest = destination_outcome(root, file, rule)->Ok_0;
    let full = if rule.action is RenamePrefix {
        rule.action->prefix + name
    } else {
        let stem = match file_stem_of(file.path) {
            Some(s) => s,
            None => "file"@,
        };
        let ext = match file.extension {
            Some(e) => e,
            None => Seq::empty(),
        };
        with_extension_kept(rendered_template(rule.action->template, stem, ext), ext)
    };
    assert(filename_problem(full, "renamed file"@) is None);
    lemma_accepted_filename_is_component(full, "renamed file"@);
    assert(dest == with_file_name_of(file.path, full));
    let base = parent_of(file.path)->0;
    assert(dest.names =~= base.names.push(full));
    assert(dest.names.drop_last() =~= base.names);
}


/// Law: a rename template `{name}-<suffix>.{ext}` applied to a file
/// `<stem>.txt` directly in the root is accepted, keeps the `txt` extension,
/// and keeps the file below the root, for a stem of 1 to 64 and a suffix of
/// 1 to 24 letters, digits, `_` or `-`.
#[verifier::rlimit(40)]
pub proof fn law_rename_templates_preserve_extension(
    root: PathView,
    file: FileView,
    rule: RuleView,
    stem: Seq<char>,
    suffix: Seq<char>,
)
    requires
        1 <= stem.len() <= 64,
        1 <= suffix.len() <= 24,
        forall|i: int| 0 <= i < stem.len() ==> is_portable_char(#[trigger] stem[i]),
        forall|i: int| 0 <= i < suffix.len() ==> is_portable_char(#[trigger] suffix[i]),
        file.path == (PathView { names: root.names.push(stem + ".txt"@), ..root }),
        file.extension == Some("txt"@),
        rule.action == (ActionView::RenameTemplate { template: "{name}-"@ + suffix + ".{ext}"@ }),
    ensures
        destination_outcome(root, file, rule) is Ok,
        extension_of(destination_outcome(root, file, rule)->Ok_0) == Some("txt"@),
        starts_with_path(destination_outcome(root, file, rule)->Ok_0, root),
{
    reveal_strlit("{name}-");
    reveal_strlit(".{ext}");
    reveal_strlit(".txt");
    reveal_strlit("txt");
    reveal_strlit("{name}");
    reveal_strlit("{ext}");
    reveal_strlit(".");
    reveal_strlit("..");
    let txt = "txt"@;
    assert forall|i: int| 0 <= i < txt.len() implies #[trigger] txt[i] != '.' by {}
    // The file's name and stem.
    let name = stem + ".txt"@;
    assert(name =~= stem + seq!['.'] + txt);
    assert(file.path.names.last() == name);
    assert(name.len() != 2);
    assert(file_name_of(file.path) == Some(name));
    lemma_last_dot_before(stem, txt);
    assert(name.take(stem.len() as int) =~= stem);
    assert(file_stem_of(file.path) == Some(stem));
    // The template.
    let t = "{name}-"@ + suffix + ".{ext}"@;
    assert forall|i: int| 0 <= i < t.len() implies !is_unsafe_filename_char(#[trigger] t[i])
        && !is_white_space(t[i]) by {
        if 7 <= i < 7 + suffix.len() {
            assert(t[i] == suffix[i - 7]);
        }
    }
    assert(!is_blank(t)) by {
        assert(!is_white_space(t[0]));
    }
    assert(fragment_problem(t, "rename template"@) is None);
    // Rendering: `{name}` becomes the stem, `{ext}` becomes `txt`.
    let pat_n = "{name}"@;
    let pat_e = "{ext}"@;
    let plain = seq!['-'] + suffix + seq!['.'];
    assert forall|i: int| 0 <= i < plain.len() implies #[trigger] plain[i] != '{' by {
        if 1 <= i < 1 + suffix.len() {
            assert(plain[i] == suffix[i - 1]);
        }
    }
    assert(t =~= pat_n + (plain + pat_e));
    lemma_replace_at_match(pat_n, plain + pat_e, stem);
    lemma_replace_after_plain(plain, pat_e, pat_n, stem);
    let tail = pat_e.skip(1);
    assert forall|i: int| 0 <= i < tail.len() implies #[trigger] tail[i] != pat_n[0] by {}
    lemma_replace_after_plain(tail, Seq::empty(), pat_n, stem);
    assert(tail + Seq::<char>::empty() =~= tail);
    assert(!starts_with(pat_e, pat_n));
    assert(seq![pat_e[0]] + tail =~= pat_e);
    assert(replace_all(pat_e, pat_n, stem) == pat_e);
    let first = stem + plain;
    assert(replace_all(t, pat_n, stem) =~= first + pat_e);
    assert forall|i: int| 0 <= i < first.len() implies #[trigger] first[i] != pat_e[0] by {
        if i < stem.len() {
            assert(first[i] == stem[i]);
        } else {
            assert(first[i] == plain[i - stem.len()]);
        }
    }
    lemma_replace_after_plain(first, pat_e, pat_e, txt);
    lemma_replace_at_match(pat_e, Seq::empty(), txt);
    assert(pat_e + Seq::<char>::empty() =~= pat_e);
    assert(txt + Seq::<char>::empty() =~= txt);
    let rendered = first + txt;
    assert(rendered_template(t, stem, txt) == rendered);
    // Its characters.
    let p: int = (stem.len() + 1 + suffix.len()) as int;
    assert(rendered.len() == p + 4);
    assert(rendered[p] == '.');
    assert forall|i: int| 0 <= i < rendered.len() && i != p implies is_portable_char(
        #[trigger] rendered[i],
    ) by {
        if i < stem.len() {
            assert(rendered[i] == stem[i]);
        } else if i == stem.len() {
        } else if i < p {
            assert(rendered[i] == suffix[i - stem.len() - 1]);
        } else {
            assert(rendered[i] == txt[i - p - 1]);
        }
    }
    assert forall|i: int| 0 <= i < rendered.len() implies #[trigger] rendered[i] != '/'
        && rendered[i] != '\\' && !is_unsafe_filename_char(rendered[i]) && (rendered[i] as u32)
        < 0x80 by {
        if i != p {
            assert(is_portable_char(rendered[i]));
        }
    }
    assert(!contains_char(rendered, '/'));
    assert(!contains_char(rendered, '\\'));
    assert(!contains_seq(rendered, ".."@)) by {
        if contains_seq(rendered, ".."@) {
            let i = choose|i: int| #[trigger] occurs_at(rendered, ".."@, i);
            assert(rendered.subrange(i, i + 2)[0] == '.');
            assert(rendered.subrange(i, i + 2)[1] == '.');
            if i != p {
                assert(is_portable_char(rendered[i]));
            } else {
                assert(rendered[p + 1] == 't');
            }
        }
    }
    assert(!is_blank(rendered)) by {
        assert(rendered[0] == stem[0]);
        assert(is_portable_char(rendered[0]));
    }
    // The extension is already there.
    assert(rendered.skip(rendered.len() - 4) =~= "."@ + txt);
    assert(with_extension_kept(rendered, txt) == rendered);
    // The name is an accepted filename.
    lemma_ascii_lengths(rendered);
    assert(rendered != seq!['.']) by {
        assert(rendered.len() != 1);
    }
    assert(rendered != seq!['.', '.']) by {
        assert(rendered.len() != 2);
    }
    assert(!has_unsafe_filename_char(rendered));
    assert(rendered.last() == 't');
    lemma_last_piece_whole(rendered);
    assert(rendered.skip(rendered.len() - last_piece_len(rendered)) =~= rendered);
    assert forall|i: int| 0 <= i < p implies #[trigger] rendered[i] != '.' by {
        assert(is_portable_char(rendered[i]));
    }
    lemma_first_piece_at_least(rendered, p);
    lemma_first_piece_at_most(rendered, p);
    let u = device_stem(rendered);
    assert(u.len() == p);
    assert(u[stem.len() as int] == '-');
    assert(!is_device_name(u));
    assert(filename_problem(rendered, "renamed file"@) is None);
    // Where the file goes.
    lemma_accepted_filename_is_component(rendered, "renamed file"@);
    assert(root.names.push(name).drop_last() =~= root.names);
    let d = destination_outcome(root, file, rule)->Ok_0;
    assert(d.names =~= root.names.push(rendered));
    assert(d.names.last() == rendered);
    lemma_last_dot_before(stem + seq!['-'] + suffix, txt);
    assert(rendered =~= (stem + seq!['-'] + suffix) + seq!['.'] + txt);
    assert(rendered.skip(p + 1) =~= txt);
    if !root.is_empty() {
        assert(d.names.take(root.names.len() as int) =~= root.names);
    }
}

/// Law: a size-range criterion holds for a file exactly when the file's
/// size is at least the given minimum and at most the given maximum; a
/// missing bound does not limit it.
pub proof fn law_size_range_bounds_the_size(
    min_bytes: Option<u64>,
    max_bytes: Option<u64>,
    file: FileView,
    now: Timestamp,
)
    ensures
        criterion_holds(CriterionView::SizeRange { min_bytes, max_bytes }, file, now) <==> ((
        min_bytes is None || file.size >= min_bytes->0) && (max_bytes is None || file.size
            <= max_bytes->0)),
{
}

/// Law: a rule that must match all its criteria matches no file larger
/// than the maximum, or smaller than the minimum, of any size range among
/// them.
pub proof fn law_all_rules_respect_size_limits(rule: RuleView, file: FileView, now: Timestamp, i: int)
    requires
        rule_holds(rule, file, now),
        rule.match_all,
        0 <= i < rule.criteria.len(),
        rule.criteria[i] is SizeRange,
    ensures
        rule.criteria[i]->SizeRange_max_bytes matches Some(m) ==> file.size <= m,
        rule.criteria[i]->SizeRange_min_bytes matches Some(n) ==> file.size >= n,
{
    assert(criterion_holds(rule.criteria[i], file, now));
}

/// The placeholder `pat` occurs somewhere in `t`.
pub open spec fn has_placeholder(t: Seq<char>, pat: Seq<char>) -> bool {
    exists|i: int| 0 <= i && i + pat.len() <= t.len() && #[trigger] t.subrange(i, i + pat.len()) == pat
}

/// Law: a rule that `validate_rule` accepts with a rename-template action
/// has a template holding `{name}` or `{ext}`, so no two files get one
/// fixed name from it.
pub proof fn law_accepted_templates_have_a_placeholder(rule: RuleView)
    requires
        rule_problem(rule) is None,
        rule.action is RenameTemplate,
    ensures
        has_placeholder(rule.action->template, "{name}"@) || has_placeholder(
            rule.action->template,
            "{ext}"@,
        ),
{
    let t = rule.action->template;
    assert(criteria_problem(rule.criteria, rule.name) is None);
    assert(action_problem(rule.action) is None);
    assert(template_problem(t) is None);
    if contains_seq(t, "{name}"@) {
        let i = choose|i: int| #[trigger] occurs_at(t, "{name}"@, i);
        assert(t.subrange(i, i + "{name}"@.len()) == "{name}"@);
    } else {
        assert(contains_seq(t, "{ext}"@));
        let i = choose|i: int| #[trigger] occurs_at(t, "{ext}"@, i);
        assert(t.subrange(i, i + "{ext}"@.len()) == "{ext}"@);
    }
}

proof fn lemma_criteria_accepted(cs: Seq<CriterionView>, name: Seq<char>)
    requires
        criteria_problem(cs, name) is None,
    ensures
        forall|i: int| 0 <= i < cs.len() ==> criterion_problem(#[trigger] cs[i], name) is None,
    decreases cs.len(),
{
    if cs.len() > 0 {
        lemma_criteria_accepted(cs.skip(1), name);
        assert forall|i: int| 0 <= i < cs.len() implies criterion_problem(#[trigger] cs[i], name) is None by {
            if i > 0 {
                assert(cs.skip(1)[i - 1] == cs[i]);
            }
        }
    }
}

/// A criterion `validate_rule` accepts: extension and MIME lists hold 1 to
/// 64 values, none blank or longer than 128 characters; an age is at most
/// 365 000 days; a size range has a bound, and its minimum is not above its
/// maximum; a name pattern has 1 to 1 024 characters and compiles.
pub open spec fn criterion_well_formed(c: CriterionView) -> bool {
    match c {
        CriterionView::Extension { values } => 1 <= values.len() <= 64 && forall|i: int|
            0 <= i < values.len() ==> !is_blank(#[trigger] values[i]) && values[i].len() <= 128,
        CriterionView::MimePrefix { values } => 1 <= values.len() <= 64 && forall|i: int|
            0 <= i < values.len() ==> !is_blank(#[trigger] values[i]) && values[i].len() <= 128,
        CriterionView::ModifiedOlderThanDays { days } => days <= 365_000,
        CriterionView::SizeRange { min_bytes, max_bytes } => (min_bytes is Some || max_bytes is Some) && (
        min_bytes is Some && max_bytes is Some ==> min_bytes->0 <= max_bytes->0),
        CriterionView::NameRegex { pattern } => 1 <= pattern.len() <= 1024 && regex_accepts(pattern),
    }
}

/// Law: a rule that `validate_rule` accepts has a non-blank name of at most
/// 128 characters, 1 to 16 criteria, each well formed, and, when it moves
/// files, a non-empty subdirectory that names no parent, root or prefix.
pub proof fn law_accepted_rules_are_well_formed(rule: RuleView)
    requires
        rule_problem(rule) is None,
    ensures
        !is_blank(rule.name),
        rule.name.len() <= 128,
        1 <= rule.criteria.len() <= 16,
        forall|i: int| 0 <= i < rule.criteria.len() ==> criterion_well_formed(#[trigger] rule.criteria[i]),
        rule.action matches ActionView::MoveTo { subdirectory } ==> subdirectory.len() > 0 && !parse_path(
            subdirectory,
        ).escapes(),
{
    lemma_criteria_accepted(rule.criteria, rule.name);
    assert forall|i: int| 0 <= i < rule.criteria.len() implies criterion_well_formed(#[trigger] rule.criteria[i]) by {
        let c = rule.criteria[i];
        assert(criterion_problem(c, rule.name) is None);
        match c {
            CriterionView::Extension { values } => {
                assert forall|k: int| 0 <= k < values.len() implies !is_blank(#[trigger] values[k]) && values[k].len() <= 128 by {
                    if is_blank(values[k]) || values[k].len() > 128 {
                        assert(values_problem(values, 64, "extension"@, rule.name) is Some);
                    }
                }
            },
            CriterionView::MimePrefix { values } => {
                assert forall|k: int| 0 <= k < values.len() implies !is_blank(#[trigger] values[k]) && values[k].len() <= 128 by {
                    if is_blank(values[k]) || values[k].len() > 128 {
                        assert(values_problem(values, 64, "MIME prefix"@, rule.name) is Some);
                    }
                }
            },
            _ => {},
        }
    }
}

/// Law: a disabled rule matches no file, at any time.
pub proof fn law_disabled_rules_match_nothing(rule: RuleView, file: FileView, now: Timestamp)
    requires
        !rule.enabled,
    ensures
        !rule_holds(rule, file, now),
{
}

/// Law: an age criterion never holds for a file without a modification
/// time; once it holds it keeps holding as time goes on, and it holds for
/// every smaller number of days; with 0 days it holds for any file modified
/// before `now`.
pub proof fn law_age_criterion_is_monotone(
    days: u32,
    fewer: u32,
    file: FileView,
    now: Timestamp,
    later: Timestamp,
)
    requires
        fewer <= days,
        now.secs < later.secs || (now.secs == later.secs && now.nanos <= later.nanos),
    ensures
        file.modified_at is None ==> !criterion_holds(CriterionView::ModifiedOlderThanDays { days }, file, now),
        criterion_holds(CriterionView::ModifiedOlderThanDays { days }, file, now) ==> criterion_holds(
            CriterionView::ModifiedOlderThanDays { days },
            file,
            later,
        ),
        criterion_holds(CriterionView::ModifiedOlderThanDays { days }, file, now) ==> criterion_holds(
            CriterionView::ModifiedOlderThanDays { days: fewer },
            file,
            now,
        ),
        file.modified_at matches Some(m) && (m.secs < now.secs || (m.secs == now.secs && m.nanos
            < now.nanos)) ==> criterion_holds(CriterionView::ModifiedOlderThanDays { days: 0 }, file, now),
{
    assert(fewer * 86400 <= days * 86400) by (nonlinear_arith)
        requires
            fewer <= days,
    ;
}

/// Law: an extension criterion never holds for a file without an
/// extension, and holds for a file whose extension is one of its values.
pub proof fn law_extension_criterion(values: Seq<Seq<char>>, file: FileView, now: Timestamp, i: int)
    ensures
        file.extension is None ==> !criterion_holds(CriterionView::Extension { values }, file, now),
        0 <= i < values.len() && !starts_with(values[i], seq!['.']) && file.extension == Some(values[i])
            ==> criterion_holds(CriterionView::Extension { values }, file, now),
{
    if 0 <= i < values.len() && !starts_with(values[i], seq!['.']) && file.extension == Some(values[i]) {
        let v = values[i];
        if v.len() > 0 {
            assert(v.take(1) =~= seq![v[0]]);
            assert(v[0] != '.');
        }
        assert(trim_start_char(v, '.') == v);
        assert(eq_ignore_case(trim_start_char(v, '.'), file.extension->0));
    }
}

} // verus!

//! The data the organizer works on: files, rules, plans, journals and the
//! persisted application state.
use vstd::prelude::*;
use crate::paths::{FsPath, PathView};
use crate::text::{copy_string, str_eq};

verus! {

/// A point in time: seconds since the Unix epoch (UTC) and the
/// sub-second part in nanoseconds (below 1 000 000 000).
#[derive(Clone, Copy, Debug, PartialEq, Eq, Structural)]
pub struct Timestamp {
    pub secs: i64,
    pub nanos: u32,
}

/// Strict chronological order of two timestamps.
pub open spec fn earlier(a: Timestamp, b: Timestamp) -> bool {
    a.secs < b.secs || (a.secs == b.secs && a.nanos < b.nanos)
}

/// `uuid::Uuid::new_v4()` as a number: random, with the version nibble 4
/// and the RFC 4122 variant bits `10`, as the crate's source sets them.
#[verifier::external_body]
pub(crate) fn new_uuid() -> (id: u128)
    ensures
        (id >> 76u128) & 0xFu128 == 4,
        (id >> 62u128) & 0x3u128 == 2,
{
    uuid::Uuid::new_v4().as_u128()
}

/// Whether `a` is strictly before `b`.
pub fn is_earlier(a: Timestamp, b: Timestamp) -> (r: bool)
    ensures
        r == earlier(a, b),
{
    a.secs < b.secs || (a.secs == b.secs && a.nanos < b.nanos)
}

pub open spec fn opt_text(o: Option<String>) -> Option<Seq<char>> {
    match o {
        Some(s) => Some(s@),
        None => None,
    }
}

/// A copy of an optional string.
pub fn copy_opt_text(o: &Option<String>) -> (r: Option<String>)
    ensures
        opt_text(r) == opt_text(*o),
{
    match o {
        Some(s) => Some(copy_string(s)),
        None => None,
    }
}

pub open spec fn texts(v: Seq<String>) -> Seq<Seq<char>> {
    v.map_values(|s: String| s@)
}

/// A copy of a list of strings.
pub fn copy_texts(v: &Vec<String>) -> (r: Vec<String>)
    ensures
        texts(r@) == texts(v@),
{
    let mut r: Vec<String> = Vec::new();
    let mut i: usize = 0;
    while i < v.len()
        invariant
            i <= v.len(),
            texts(r@) == texts(v@).take(i as int),
        decreases v.len() - i,
    {
        let ghost before = r@;
        r.push(copy_string(&v[i]));
        proof {
            assert(texts(r@) =~= texts(before).push(v@[i as int]@));
            assert(texts(v@).take(i + 1) =~= texts(v@).take(i as int).push(v@[i as int]@));
        }
        i += 1;
    }
    assert(texts(v@).take(v.len() as int) =~= texts(v@));
    r
}

/// What the rules know of one scanned file.
#[derive(Clone, Debug, PartialEq, Eq)]
pub struct FileEntry {
    pub path: FsPath,
    pub relative_path: FsPath,
    pub size: u64,
    pub modified_at: Option<Timestamp>,
    pub mime: Option<String>,
    pub extension: Option<String>,
}

pub struct FileView {
    pub path: PathView,
    pub relative_path: PathView,
    pub size: u64,
    pub modified_at: Option<Timestamp>,
    pub mime: Option<Seq<char>>,
    pub extension: Option<Seq<char>>,
}

impl View for FileEntry {
    type V = FileView;

    open spec fn view(&self) -> FileView {
        FileView {
            path: self.path@,
            relative_path: self.relative_path@,
            size: self.size,
            modified_at: self.modified_at,
            mime: opt_text(self.mime),
            extension: opt_text(self.extension),
        }
    }
}

impl FileEntry {
    /// A copy of the entry.
    pub fn duplicate(&self) -> (r: FileEntry)
        ensures
            r@ == self@,
    {
        FileEntry {
            path: self.path.duplicate(),
            relative_path: self.relative_path.duplicate(),
            size: self.size,
            modified_at: self.modified_at,
            mime: copy_opt_text(&self.mime),
            extension: copy_opt_text(&self.extension),
        }
    }
}

/// One condition of a rule.
#[derive(Clone, Debug, PartialEq, Eq)]
pub enum RuleCriterion {
    Extension { values: Vec<String> },
    MimePrefix { values: Vec<String> },
    ModifiedOlderThanDays { days: u32 },
    SizeRange { min_bytes: Option<u64>, max_bytes: Option<u64> },
    NameRegex { pattern: String },
}

pub enum CriterionView {
    Extension { values: Seq<Seq<char>> },
    MimePrefix { values: Seq<Seq<char>> },
    ModifiedOlderThanDays { days: u32 },
    SizeRange { min_bytes: Option<u64>, max_bytes: Option<u64> },
    NameRegex { pattern: Seq<char> },
}

impl View for RuleCriterion {
    type V = CriterionView;

    open spec fn view(&self) -> CriterionView {
        match self {
            RuleCriterion::Extension { values } => CriterionView::Extension { values: texts(values@) },
            RuleCriterion::MimePrefix { values } => CriterionView::MimePrefix { values: texts(values@) },
            RuleCriterion::ModifiedOlderThanDays { days } => CriterionView::ModifiedOlderThanDays {
                days: *days,
            },
            RuleCriterion::SizeRange { min_bytes, max_bytes } => CriterionView::SizeRange {
                min_bytes: *min_bytes,
                max_bytes: *max_bytes,
            },
            RuleCriterion::NameRegex { pattern } => CriterionView::NameRegex { pattern: pattern@ },
        }
    }
}

impl RuleCriterion {
    /// A copy of the criterion.
    pub fn duplicate(&self) -> (r: RuleCriterion)
        ensures
            r@ == self@,
    {
        match self {
            RuleCriterion::Extension { values } => RuleCriterion::Extension {
                values: copy_texts(values),
            },
            RuleCriterion::MimePrefix { values } => RuleCriterion::MimePrefix {
                values: copy_texts(values),
            },
            RuleCriterion::ModifiedOlderThanDays { days } => RuleCriterion::ModifiedOlderThanDays {
                days: *days,
            },
            RuleCriterion::SizeRange { min_bytes, max_bytes } => RuleCriterion::SizeRange {
                min_bytes: *min_bytes,
                max_bytes: *max_bytes,
            },
            RuleCriterion::NameRegex { pattern } => RuleCriterion::NameRegex {
                pattern: copy_string(pattern),
            },
        }
    }
}

/// What a rule does with a matching file.
#[derive(Clone, Debug, PartialEq, Eq)]
pub enum RuleAction {
    MoveTo { subdirectory: String },
    RenamePrefix { prefix: String },
    RenameTemplate { template: String },
}

pub enum ActionView {
    MoveTo { subdirectory: Seq<char> },
    RenamePrefix { prefix: Seq<char> },
    RenameTemplate { template: Seq<char> },
}

impl View for RuleAction {
    type V = ActionView;

    open spec fn view(&self) -> ActionView {
        match self {
            RuleAction::MoveTo { subdirectory } => ActionView::MoveTo { subdirectory: subdirectory@ },
            RuleAction::RenamePrefix { prefix } => ActionView::RenamePrefix { prefix: prefix@ },
            RuleAction::RenameTemplate { template } => ActionView::RenameTemplate {
                template: template@,
            },
        }
    }
}

impl RuleAction {
    /// A copy of the action.
    pub fn duplicate(&self) -> (r: RuleAction)
        ensures
            r@ == self@,
    {
        match self {
            RuleAction::MoveTo { subdirectory } => RuleAction::MoveTo {
                subdirectory: copy_string(subdirectory),
            },
            RuleAction::RenamePrefix { prefix } => RuleAction::RenamePrefix {
                prefix: copy_string(prefix),
            },
            RuleAction::RenameTemplate { template } => RuleAction::RenameTemplate {
                template: copy_string(template),
            },
        }
    }
}

/// A named rule: criteria combined with all/any, and an action.
#[derive(Clone, Debug, PartialEq, Eq)]
pub struct Rule {
    pub id: u128,
    pub name: String,
    pub enabled: bool,
    pub match_all: bool,
    pub criteria: Vec<RuleCriterion>,
    pub action: RuleAction,
}

pub struct RuleView {
    pub id: u128,
    pub name: Seq<char>,
    pub enabled: bool,
    pub match_all: bool,
    pub criteria: Seq<CriterionView>,
    pub action: ActionView,
}

pub open spec fn criteria_view(c: Seq<RuleCriterion>) -> Seq<CriterionView> {
    c.map_values(|x: RuleCriterion| x@)
}

impl View for Rule {
    type V = RuleView;

    open spec fn view(&self) -> RuleView {
        RuleView {
            id: self.id,
            name: self.name@,
            enabled: self.enabled,
            match_all: self.match_all,
            criteria: criteria_view(self.criteria@),
            action: self.action@,
        }
    }
}

pub open spec fn rules_view(r: Seq<Rule>) -> Seq<RuleView> {
    r.map_values(|x: Rule| x@)
}

impl Rule {
    /// A copy of the rule.
    pub fn duplicate(&self) -> (r: Rule)
        ensures
            r@ == self@,
    {
        let mut criteria: Vec<RuleCriterion> = Vec::new();
        let mut i: usize = 0;
        while i < self.criteria.len()
            invariant
                i <= self.criteria.len(),
                criteria_view(criteria@) == criteria_view(self.criteria@).take(i as int),
            decreases self.criteria.len() - i,
        {
            let ghost before = criteria@;
            criteria.push(self.criteria[i].duplicate());
            proof {
                assert(criteria_view(criteria@) =~= criteria_view(before).push(
                    self.criteria@[i as int]@,
                ));
                assert(criteria_view(self.criteria@).take(i + 1) =~= criteria_view(
                    self.criteria@,
                ).take(i as int).push(self.criteria@[i as int]@));
            }
            i += 1;
        }
        assert(criteria_view(self.criteria@).take(self.criteria.len() as int) =~= criteria_view(
            self.criteria@,
        ));
        Rule {
            id: self.id,
            name: copy_string(&self.name),
            enabled: self.enabled,
            match_all: self.match_all,
            criteria,
            action: self.action.duplicate(),
        }
    }
}

fn texts_equal(a: &Vec<String>, b: &Vec<String>) -> (r: bool)
    ensures
        r == (texts(a@) == texts(b@)),
{
    if a.len() != b.len() {
        assert(texts(a@).len() != texts(b@).len());
        return false;
    }
    let mut i: usize = 0;
    while i < a.len()
        invariant
            a.len() == b.len(),
            i <= a.len(),
            forall|j: int| 0 <= j < i ==> a@[j]@ == b@[j]@,
        decreases a.len() - i,
    {
        if !str_eq(a[i].as_str(), b[i].as_str()) {
            assert(texts(a@)[i as int] != texts(b@)[i as int]);
            return false;
        }
        i += 1;
    }
    assert(texts(a@) =~= texts(b@));
    true
}

impl RuleCriterion {
    /// Equal criteria (what the derived `==` of the criterion compares).
    pub fn same_as(&self, other: &RuleCriterion) -> (r: bool)
        ensures
            r == (self@ == other@),
    {
        match (self, other) {
            (RuleCriterion::Extension { values: a }, RuleCriterion::Extension { values: b }) => texts_equal(a, b),
            (RuleCriterion::MimePrefix { values: a }, RuleCriterion::MimePrefix { values: b }) => texts_equal(a, b),
            (
                RuleCriterion::ModifiedOlderThanDays { days: a },
                RuleCriterion::ModifiedOlderThanDays { days: b },
            ) => *a == *b,
            (
                RuleCriterion::SizeRange { min_bytes: a, max_bytes: b },
                RuleCriterion::SizeRange { min_bytes: c, max_bytes: d },
            ) => {
                let first = match (a, c) {
                    (Some(x), Some(y)) => *x == *y,
                    (None, None) => true,
                    _ => false,
                };
                let second = match (b, d) {
                    (Some(x), Some(y)) => *x == *y,
                    (None, None) => true,
                    _ => false,
                };
                first && second
            },
            (RuleCriterion::NameRegex { pattern: a }, RuleCriterion::NameRegex { pattern: b }) => str_eq(
                a.as_str(),
                b.as_str(),
            ),
            _ => false,
        }
    }
}

impl RuleAction {
    /// Equal actions.
    pub fn same_as(&self, other: &RuleAction) -> (r: bool)
        ensures
            r == (self@ == other@),
    {
        match (self, other) {
            (RuleAction::MoveTo { subdirectory: a }, RuleAction::MoveTo { subdirectory: b }) => str_eq(
                a.as_str(),
                b.as_str(),
            ),
            (RuleAction::RenamePrefix { prefix: a }, RuleAction::RenamePrefix { prefix: b }) => str_eq(
                a.as_str(),
                b.as_str(),
            ),
            (RuleAction::RenameTemplate { template: a }, RuleAction::RenameTemplate { template: b }) => str_eq(
                a.as_str(),
                b.as_str(),
            ),
            _ => false,
        }
    }
}

impl Rule {
    /// Equal rules: every field equal.
    pub fn same_as(&self, other: &Rule) -> (r: bool)
        ensures
            r == (self@ == other@),
    {
        if self.id != other.id || self.enabled != other.enabled || self.match_all != other.match_all {
            return false;
        }
        if !str_eq(self.name.as_str(), other.name.as_str()) || !self.action.same_as(&other.action) {
            return false;
        }
        if self.criteria.len() != other.criteria.len() {
            assert(criteria_view(self.criteria@).len() != criteria_view(other.criteria@).len());
            return false;
        }
        let mut i: usize = 0;
        while i < self.criteria.len()
            invariant
                self.criteria.len() == other.criteria.len(),
                i <= self.criteria.len(),
                forall|j: int| 0 <= j < i ==> self.criteria@[j]@ == other.criteria@[j]@,
            decreases self.criteria.len() - i,
        {
            if !self.criteria[i].same_as(&other.criteria[i]) {
                assert(criteria_view(self.criteria@)[i as int] != criteria_view(other.criteria@)[i as int]);
                return false;
            }
            i += 1;
        }
        assert(criteria_view(self.criteria@) =~= criteria_view(other.criteria@));
        true
    }
}

/// Equal rule lists.
pub fn same_rules(a: &Vec<Rule>, b: &Vec<Rule>) -> (r: bool)
    ensures
        r == (rules_view(a@) == rules_view(b@)),
{
    if a.len() != b.len() {
        assert(rules_view(a@).len() != rules_view(b@).len());
        return false;
    }
    let mut i: usize = 0;
    while i < a.len()
        invariant
            a.len() == b.len(),
            i <= a.len(),
            forall|j: int| 0 <= j < i ==> a@[j]@ == b@[j]@,
        decreases a.len() - i,
    {
        if !a[i].same_as(&b[i]) {
            assert(rules_view(a@)[i as int] != rules_view(b@)[i as int]);
            return false;
        }
        i += 1;
    }
    assert(rules_view(a@) =~= rules_view(b@));
    true
}

/// A copy of a list of rules.
pub fn copy_rules(v: &Vec<Rule>) -> (r: Vec<Rule>)
    ensures
        rules_view(r@) == rules_view(v@),
{
    let mut r: Vec<Rule> = Vec::new();
    let mut i: usize = 0;
    while i < v.len()
        invariant
            i <= v.len(),
            rules_view(r@) == rules_view(v@).take(i as int),
        decreases v.len() - i,
    {
        let ghost before = r@;
        r.push(v[i].duplicate());
        proof {
            assert(rules_view(r@) =~= rules_view(before).push(v@[i as int]@));
            assert(rules_view(v@).take(i + 1) =~= rules_view(v@).take(i as int).push(v@[i as int]@));
        }
        i += 1;
    }
    assert(rules_view(v@).take(v.len() as int) =~= rules_view(v@));
    r
}

/// A reusable, named set of rules.
#[derive(Clone, Debug, PartialEq, Eq)]
pub struct Preset {
    pub id: u128,
    pub name: String,
    pub description: String,
    pub rules: Vec<Rule>,
}

pub struct PresetView {
    pub id: u128,
    pub name: Seq<char>,
    pub description: Seq<char>,
    pub rules: Seq<RuleView>,
}

impl View for Preset {
    type V = PresetView;

    open spec fn view(&self) -> PresetView {
        PresetView {
            id: self.id,
            name: self.name@,
            description: self.description@,
            rules: rules_view(self.rules@),
        }
    }
}

pub open spec fn presets_view(p: Seq<Preset>) -> Seq<PresetView> {
    p.map_values(|x: Preset| x@)
}

/// How a folder is scanned.
#[derive(Clone, Copy, Debug, PartialEq, Eq, Structural)]
pub struct ScanOptions {
    pub recursive: bool,
    pub include_hidden: bool,
    pub follow_links: bool,
    pub max_depth: Option<usize>,
}

impl Default for ScanOptions {
    /// Top level only, hidden entries skipped, links not followed, depth 32.
    fn default() -> (r: ScanOptions)
        ensures
            r == (ScanOptions {
                recursive: false,
                include_hidden: false,
                follow_links: false,
                max_depth: Some(32),
            }),
    {
        ScanOptions { recursive: false, include_hidden: false, follow_links: false, max_depth: Some(32) }
    }
}

/// How deep a scan descends: the given depth (32 if none) when recursive,
/// else only the folder itself.
pub open spec fn scan_depth_of(options: ScanOptions) -> usize {
    if options.recursive {
        match options.max_depth {
            Some(d) => d,
            None => 32,
        }
    } else {
        1
    }
}

/// How deep a scan walks: `max_depth` (32 when unset) when recursive, else
/// only the folder's own entries.
pub fn scan_depth(options: &ScanOptions) -> (r: usize)
    ensures
        r == scan_depth_of(*options),
{
    if options.recursive {
        match options.max_depth {
            Some(d) => d,
            None => 32,
        }
    } else {
        1
    }
}

/// One move that a preview proposes.
#[derive(Clone, Debug, PartialEq, Eq)]
pub struct PlannedOperation {
    pub id: u128,
    pub source: FsPath,
    pub destination: FsPath,
    pub rule_id: u128,
    pub rule_name: String,
    pub size: u64,
}

pub struct OperationView {
    pub id: u128,
    pub source: PathView,
    pub destination: PathView,
    pub rule_id: u128,
    pub rule_name: Seq<char>,
    pub size: u64,
}

impl View for PlannedOperation {
    type V = OperationView;

    open spec fn view(&self) -> OperationView {
        OperationView {
            id: self.id,
            source: self.source@,
            destination: self.destination@,
            rule_id: self.rule_id,
            rule_name: self.rule_name@,
            size: self.size,
        }
    }
}

pub open spec fn operations_view(v: Seq<PlannedOperation>) -> Seq<OperationView> {
    v.map_values(|x: PlannedOperation| x@)
}

/// What a dry run proposes, and what it saw.
#[derive(Clone, Debug, PartialEq, Eq)]
pub struct PreviewResult {
    pub operations: Vec<PlannedOperation>,
    pub scanned_files: usize,
    pub ignored_files: usize,
    pub recoverable_errors: Vec<String>,
}

impl PreviewResult {
    /// An empty preview.
    pub fn new() -> (r: PreviewResult)
        ensures
            r.operations@.len() == 0,
            r.scanned_files == 0,
            r.ignored_files == 0,
            r.recoverable_errors@.len() == 0,
    {
        PreviewResult {
            operations: Vec::new(),
            scanned_files: 0,
            ignored_files: 0,
            recoverable_errors: Vec::new(),
        }
    }
}

/// One completed move, as the undo journal records it.
#[derive(Clone, Debug, PartialEq, Eq)]
pub struct JournalEntry {
    pub operation_id: u128,
    pub from: FsPath,
    pub to: FsPath,
}

pub struct JournalEntryView {
    pub operation_id: u128,
    pub from: PathView,
    pub to: PathView,
}

impl View for JournalEntry {
    type V = JournalEntryView;

    open spec fn view(&self) -> JournalEntryView {
        JournalEntryView { operation_id: self.operation_id, from: self.from@, to: self.to@ }
    }
}

pub open spec fn entries_view(v: Seq<JournalEntry>) -> Seq<JournalEntryView> {
    v.map_values(|x: JournalEntry| x@)
}

/// The record of one execution, from which it can be undone.
#[derive(Clone, Debug, PartialEq, Eq)]
pub struct OperationJournal {
    pub id: u128,
    pub created_at: Timestamp,
    pub root: FsPath,
    pub entries: Vec<JournalEntry>,
}

/// What an execution or an undo did.
#[derive(Clone, Debug, PartialEq, Eq)]
pub struct ExecutionReport {
    pub journal: OperationJournal,
    pub completed: usize,
    pub errors: Vec<String>,
}

/// A file that has a duplicate candidate.
#[derive(Clone, Debug, PartialEq, Eq)]
pub struct DuplicateFile {
    pub path: FsPath,
    pub size: u64,
}

/// Files of equal size and equal content hash.
#[derive(Clone, Debug, PartialEq, Eq)]
pub struct DuplicateGroup {
    pub hash: String,
    pub size: u64,
    pub files: Vec<DuplicateFile>,
}

/// A folder that is organized periodically while the app runs.
#[derive(Clone, Debug, PartialEq, Eq)]
pub struct WatchedFolder {
    pub id: u128,
    pub path: String,
    pub preset_id: Option<u128>,
    pub interval_minutes: u32,
    pub enabled: bool,
    pub last_run_at: Option<Timestamp>,
}

pub struct WatchView {
    pub id: u128,
    pub path: Seq<char>,
    pub preset_id: Option<u128>,
    pub interval_minutes: u32,
    pub enabled: bool,
    pub last_run_at: Option<Timestamp>,
}

impl View for WatchedFolder {
    type V = WatchView;

    open spec fn view(&self) -> WatchView {
        WatchView {
            id: self.id,
            path: self.path@,
            preset_id: self.preset_id,
            interval_minutes: self.interval_minutes,
            enabled: self.enabled,
            last_run_at: self.last_run_at,
        }
    }
}

pub open spec fn watches_view(v: Seq<WatchedFolder>) -> Seq<WatchView> {
    v.map_values(|x: WatchedFolder| x@)
}

/// User preferences.
#[derive(Clone, Debug, PartialEq, Eq)]
pub struct AppSettings {
    pub theme: String,
    pub reduced_motion: bool,
    pub confirm_before_apply: bool,
    pub include_hidden: bool,
    pub recursive_scan: bool,
}

impl Default for AppSettings {
    /// System theme, confirmation before applying, everything else off.
    fn default() -> (r: AppSettings)
        ensures
            r.theme@ == "system"@,
            !r.reduced_motion,
            r.confirm_before_apply,
            !r.include_hidden,
            !r.recursive_scan,
    {
        AppSettings {
            theme: crate::text::owned("system"),
            reduced_motion: false,
            confirm_before_apply: true,
            include_hidden: false,
            recursive_scan: false,
        }
    }
}

pub struct SettingsView {
    pub theme: Seq<char>,
    pub reduced_motion: bool,
    pub confirm_before_apply: bool,
    pub include_hidden: bool,
    pub recursive_scan: bool,
}

impl View for AppSettings {
    type V = SettingsView;

    open spec fn view(&self) -> SettingsView {
        SettingsView {
            theme: self.theme@,
            reduced_motion: self.reduced_motion,
            confirm_before_apply: self.confirm_before_apply,
            include_hidden: self.include_hidden,
            recursive_scan: self.recursive_scan,
        }
    }
}

/// Everything the app persists.
#[derive(Clone, Debug, PartialEq, Eq)]
pub struct AppStateData {
    pub schema_version: u32,
    pub settings: AppSettings,
    pub rules: Vec<Rule>,
    pub presets: Vec<Preset>,
    pub watched_folders: Vec<WatchedFolder>,
    pub recent_journal_ids: Vec<u128>,
}


pub struct StateView {
    pub schema_version: u32,
    pub settings: SettingsView,
    pub rules: Seq<RuleView>,
    pub presets: Seq<PresetView>,
    pub watched_folders: Seq<WatchView>,
    pub recent_journal_ids: Seq<u128>,
}

impl View for AppStateData {
    type V = StateView;

    open spec fn view(&self) -> StateView {
        StateView {
            schema_version: self.schema_version,
            settings: self.settings@,
            rules: rules_view(self.rules@),
            presets: presets_view(self.presets@),
            watched_folders: watches_view(self.watched_folders@),
            recent_journal_ids: self.recent_journal_ids@,
        }
    }
}

} // verus!

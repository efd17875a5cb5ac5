//! Planning a preview: the decisions taken for every scanned file.
//!
//! The directory walk and the reading of file metadata happen outside the
//! library; each of their results is handed to a `PreviewPlanner`, which
//! decides what the preview records and which move it proposes.
use vstd::prelude::*;
use crate::error::{ErrorView, Result, SortSmithError, error_text};
use crate::models::{
    FileEntry, FileView, OperationView, PlannedOperation, PreviewResult, Rule, RuleView,
    ScanOptions, Timestamp, new_uuid, operations_view, rules_view, texts,
};
use crate::paths::{FsPath, PathView, extension_of, starts_with_path, strip_prefix_of};
use crate::rules::{
    PreparedRule, destination_for, destination_outcome, rule_holds, rule_problem,
    law_match_without_age_criteria_ignores_time,
};
use crate::safety::{
    collision_outcome, collision_safe_path_with_reserved, law_collision_result_is_free,
};
use crate::text::{chars_of, concat, lower_seq, lower_text, owned, starts_with, string_of};
use crate::containment::{refused_at, resolve_failed, resolves_inside, resolves_to};
use crate::models::opt_text;

verus! {

/// The enabled rules, in order.
pub open spec fn enabled_rules(rules: Seq<RuleView>) -> Seq<RuleView>
    decreases rules.len(),
{
    if rules.len() == 0 {
        Seq::empty()
    } else {
        let prev = enabled_rules(rules.drop_last());
        if rules.last().enabled {
            prev.push(rules.last())
        } else {
            prev
        }
    }
}

/// The problem of the first enabled rule that has one.
pub open spec fn first_enabled_problem(rules: Seq<RuleView>) -> Option<ErrorView>
    decreases rules.len(),
{
    if rules.len() == 0 {
        None
    } else if rules[0].enabled && rule_problem(rules[0]) is Some {
        rule_problem(rules[0])
    } else {
        first_enabled_problem(rules.skip(1))
    }
}

/// Index of the first rule that matches the file at `now`.
pub open spec fn first_match(rules: Seq<RuleView>, file: FileView, now: Timestamp) -> Option<nat>
    decreases rules.len(),
{
    if rules.len() == 0 {
        None
    } else if rule_holds(rules[0], file, now) {
        Some(0)
    } else {
        match first_match(rules.skip(1), file, now) {
            Some(k) => Some(k + 1),
            None => None,
        }
    }
}

proof fn lemma_first_match(rules: Seq<RuleView>, file: FileView, now: Timestamp, i: int)
    requires
        0 <= i <= rules.len(),
        forall|j: int| 0 <= j < i ==> !rule_holds(#[trigger] rules[j], file, now),
    ensures
        i < rules.len() && rule_holds(rules[i], file, now) ==> first_match(rules, file, now) == Some(
            i as nat,
        ),
        i == rules.len() ==> first_match(rules, file, now) is None,
    decreases i,
{
    if i > 0 {
        let rest = rules.skip(1);
        assert forall|j: int| 0 <= j < i - 1 implies !rule_holds(#[trigger] rest[j], file, now) by {
            assert(rest[j] == rules[j + 1]);
        }
        lemma_first_match(rest, file, now, i - 1);
        assert(!rule_holds(rules[0], file, now));
        if i < rules.len() {
            assert(rest[i - 1] == rules[i]);
        }
    } else if rules.len() == 0 {
    }
}

/// Law: without age criteria, the first matching rule of a file does not
/// depend on the time.
pub proof fn law_first_match_ignores_time(
    rules: Seq<RuleView>,
    file: FileView,
    now1: Timestamp,
    now2: Timestamp,
)
    requires
        !has_age_criteria(rules),
    ensures
        first_match(rules, file, now1) == first_match(rules, file, now2),
    decreases rules.len(),
{
    if rules.len() > 0 {
        assert forall|i: int| 0 <= i < rules[0].criteria.len() implies !(#[trigger] rules[0].criteria[i] is ModifiedOlderThanDays) by {
            if rules[0].criteria[i] is ModifiedOlderThanDays {
                assert(has_age_criteria(rules));
            }
        }
        law_match_without_age_criteria_ignores_time(rules[0], file, now1, now2);
        let rest = rules.skip(1);
        if has_age_criteria(rest) {
            let (a, b) = choose|a: int, b: int|
                0 <= a < rest.len() && 0 <= b < rest[a].criteria.len() && (#[trigger] rest[a].criteria[b]) is ModifiedOlderThanDays;
            assert(rest[a] == rules[a + 1]);
            assert(rules[a + 1].criteria[b] is ModifiedOlderThanDays);
        }
        law_first_match_ignores_time(rest, file, now1, now2);
    }
}

/// The first matching rule is one of the rules.
pub proof fn lemma_first_match_bound(rules: Seq<RuleView>, file: FileView, now: Timestamp)
    ensures
        first_match(rules, file, now) matches Some(k) ==> k < rules.len(),
    decreases rules.len(),
{
    if rules.len() > 0 {
        lemma_first_match_bound(rules.skip(1), file, now);
    }
}

/// The hidden-entry test of a scan: the root itself is never hidden; any
/// other entry is hidden when its name starts with `.`.
pub open spec fn hidden_entry(entry: PathView, entry_name: Seq<char>, root: PathView) -> bool {
    entry != root && starts_with(entry_name, seq!['.'])
}

/// Whether a walked entry is hidden.
pub fn is_hidden(entry: &FsPath, entry_name: &str, root: &FsPath) -> (r: bool)
    ensures
        r == hidden_entry(entry@, entry_name@, root@),
{
    if entry.same_as(root) {
        return false;
    }
    let v = chars_of(entry_name);
    let r = v.len() > 0 && v[0] == '.';
    proof {
        if r {
            assert(v@.take(1) =~= seq!['.']);
        }
        if starts_with(v@, seq!['.']) {
            assert(v@.take(1)[0] == '.');
        }
    }
    r
}

/// Which entries a preview walk enters: hidden entries only when asked
/// for, and, when links are followed, no entry that is known to resolve
/// outside the root.
pub open spec fn entry_admitted(options: ScanOptions, hidden: bool, resolves_outside: Option<bool>) -> bool {
    if !options.include_hidden && hidden {
        false
    } else if options.follow_links {
        resolves_outside != Some(true)
    } else {
        true
    }
}

/// Whether a preview walk enters an entry.
pub fn admit_entry(options: &ScanOptions, hidden: bool, resolves_outside: Option<bool>) -> (r: bool)
    ensures
        r == entry_admitted(*options, hidden, resolves_outside),
{
    if !options.include_hidden && hidden {
        return false;
    }
    if options.follow_links {
        return match resolves_outside {
            Some(b) => !b,
            None => true,
        };
    }
    true
}

/// Whether a walked entry is a link that resolves outside the root: `Some(false)`
/// for an entry that is not a link, `None` for a link that cannot be resolved.
pub fn entry_resolves_outside_root<R>(
    is_link: bool,
    path: &FsPath,
    canonical_root: &FsPath,
    resolve: &R,
) -> (r: Option<bool>) where R: Fn(&FsPath) -> std::result::Result<FsPath, String>,
    requires
        forall|p: &FsPath| resolve.requires((p,)),
    ensures
        !is_link ==> r == Some(false),
        is_link && r == Some(false) ==> resolves_inside(*resolve, path@, canonical_root@),
        r == Some(true) ==> exists|q: PathView|
            resolves_to(*resolve, path@, q) && !starts_with_path(q, canonical_root@),
        r is None ==> is_link && exists|m: Seq<char>| resolve_failed(*resolve, path@, m),
{
    if !is_link {
        return Some(false);
    }
    match resolve(path) {
        Ok(resolved) => {
            proof {
                assert(resolve.ensures((path,), Ok(resolved)));
                assert(resolves_to(*resolve, path@, resolved@));
            }
            Some(!resolved.starts_with(canonical_root))
        },
        Err(m) => {
            proof {
                assert(resolve.ensures((path,), Err(m)));
                assert(resolve_failed(*resolve, path@, m@));
            }
            None
        },
    }
}

/// Whether a walked file resolves below the root.
pub fn entry_within_root<R>(path: &FsPath, canonical_root: &FsPath, resolve: &R) -> (r: bool) where
    R: Fn(&FsPath) -> std::result::Result<FsPath, String>,

    requires
        forall|p: &FsPath| resolve.requires((p,)),
    ensures
        r ==> resolves_inside(*resolve, path@, canonical_root@),
        !r ==> refused_at(*resolve, path@, canonical_root@),
{
    match resolve(path) {
        Ok(resolved) => {
            proof {
                assert(resolve.ensures((path,), Ok(resolved)));
                assert(resolves_to(*resolve, path@, resolved@));
            }
            resolved.starts_with(canonical_root)
        },
        Err(m) => {
            proof {
                assert(resolve.ensures((path,), Err(m)));
                assert(resolve_failed(*resolve, path@, m@));
            }
            false
        },
    }
}

/// The message recorded for an entry the walk could not read, naming the
/// kind of the system's error when there is one.
pub open spec fn walk_error_message(kind: Option<Seq<char>>) -> Seq<char> {
    match kind {
        Some(k) => "A folder entry could not be read: "@ + k,
        None => "A folder entry could not be read."@,
    }
}

/// The message recorded for an entry the walk could not read.
pub fn walk_error_text(kind: Option<&str>) -> (r: String)
    ensures
        r@ == walk_error_message(match kind {
            Some(k) => Some(k@),
            None => None,
        }),
{
    match kind {
        Some(k) => concat("A folder entry could not be read: ", k),
        None => owned("A folder entry could not be read."),
    }
}

/// The message recorded for a file reached through a link that resolves
/// outside the root.
pub open spec fn outside_link_message() -> Seq<char> {
    "A symbolic link points outside the selected folder; it was skipped."@
}

/// The operation that a plan records for `file` and `rule`.
pub open spec fn planned_operation_for(
    op: OperationView,
    file: FileView,
    rule: RuleView,
    destination: PathView,
) -> bool {
    &&& op.source == file.path
    &&& op.destination == destination
    &&& op.rule_id == rule.id
    &&& op.rule_name == rule.name
    &&& op.size == file.size
}

/// The MIME type (`type/subtype`) that `mime_guess` gives first for a file
/// extension, if it knows one.
pub uninterp spec fn mime_for_extension(ext: Seq<char>) -> Option<Seq<char>>;

/// The MIME type guessed for a path: `mime_guess` looks only at the
/// extension (`from_path` is `from_ext` of `Path::extension`); no extension
/// or an empty one gives no guess. The extension is the one of the path's
/// model, which splits at `/` only.
pub open spec fn guessed_mime(path: PathView) -> Option<Seq<char>> {
    match extension_of(path) {
        Some(e) => if e.len() == 0 {
            None
        } else {
            mime_for_extension(e)
        },
        None => None,
    }
}

/// `mime_guess::from_ext(ext).first()` as its essence string. The crate's
/// source returns an empty guess for an empty extension.
#[verifier::external_body]
fn mime_of_extension(ext: &str) -> (r: Option<String>)
    ensures
        opt_text(r) == if ext@.len() == 0 {
            None
        } else {
            mime_for_extension(ext@)
        },
{
    mime_guess::from_ext(ext).first().map(|v| v.essence_str().to_string())
}

/// The MIME type guessed from the path's extension.
pub fn guess_mime(path: &FsPath) -> (r: Option<String>)
    ensures
        opt_text(r) == guessed_mime(path@),
{
    match path.extension() {
        Some(e) => mime_of_extension(e.as_str()),
        None => None,
    }
}

/// What the rules know of a file at `path` below `root` with the given
/// size and modification time.
pub open spec fn described_file(
    root: PathView,
    path: PathView,
    size: u64,
    modified_at: Option<Timestamp>,
) -> FileView {
    FileView {
        path,
        relative_path: match strip_prefix_of(path, root) {
            Some(r) => r,
            None => path,
        },
        size,
        modified_at,
        mime: guessed_mime(path),
        extension: match extension_of(path) {
            Some(e) => Some(lower_seq(e)),
            None => None,
        },
    }
}

/// Describes a file from its metadata: its lower-cased extension, its
/// guessed MIME type and its path relative to the root.
pub fn describe_file_from_metadata(
    root: &FsPath,
    path: &FsPath,
    size: u64,
    modified_at: Option<Timestamp>,
) -> (r: FileEntry)
    ensures
        r@ == described_file(root@, path@, size, modified_at),
{
    let extension = match path.extension() {
        Some(e) => {
            let v = chars_of(e.as_str());
            Some(string_of(&lower_text(&v)))
        },
        None => None,
    };
    let relative_path = match path.strip_prefix(root) {
        Some(r) => r,
        None => path.duplicate(),
    };
    FileEntry {
        path: path.duplicate(),
        relative_path,
        size,
        modified_at,
        mime: guess_mime(path),
        extension,
    }
}

/// Whether some criterion of some rule depends on the current time.
pub open spec fn has_age_criteria(rules: Seq<RuleView>) -> bool {
    exists|i: int, j: int|
        0 <= i < rules.len() && 0 <= j < rules[i].criteria.len() && (#[trigger] rules[i].criteria[j]) is ModifiedOlderThanDays
}

/// Plans for one folder: the validated enabled rules, the preview built so
/// far, and the destinations already reserved by it.
pub struct PreviewPlanner<'a> {
    root: FsPath,
    options: ScanOptions,
    prepared: Vec<PreparedRule<'a>>,
    result: PreviewResult,
    reserved: Vec<FsPath>,
}

pub open spec fn paths_view(v: Seq<FsPath>) -> Seq<PathView> {
    v.map_values(|p: FsPath| p@)
}

impl<'a> PreviewPlanner<'a> {
    /// The enabled rules, in order.
    pub closed spec fn rules(&self) -> Seq<RuleView> {
        self.prepared@.map_values(|p: PreparedRule<'a>| p.spec_rule())
    }

    pub closed spec fn operations(&self) -> Seq<OperationView> {
        operations_view(self.result.operations@)
    }

    pub closed spec fn spec_root(&self) -> PathView {
        self.root@
    }

    pub closed spec fn spec_options(&self) -> ScanOptions {
        self.options
    }

    /// The destinations reserved so far.
    pub closed spec fn reserved(&self) -> Seq<FsPath> {
        self.reserved@
    }

    pub closed spec fn scanned(&self) -> usize {
        self.result.scanned_files
    }

    pub closed spec fn ignored(&self) -> usize {
        self.result.ignored_files
    }

    pub closed spec fn errors(&self) -> Seq<Seq<char>> {
        texts(self.result.recoverable_errors@)
    }

    /// The folder being organized.
    pub fn root_path(&self) -> (r: &FsPath)
        ensures
            r@ == self.spec_root(),
    {
        &self.root
    }

    /// How many regular files were scanned so far.
    pub fn scanned_files(&self) -> (r: usize)
        ensures
            r == self.scanned(),
    {
        self.result.scanned_files
    }

    /// How many files were left where they are so far.
    pub fn ignored_files(&self) -> (r: usize)
        ensures
            r == self.ignored(),
    {
        self.result.ignored_files
    }

    /// How many moves are planned so far.
    pub fn planned_count(&self) -> (r: usize)
        ensures
            r == self.operations().len(),
    {
        self.result.operations.len()
    }

    /// Every planned destination is reserved, each file scanned yields at
    /// most one operation or one ignored count, and the rules are prepared.
    pub closed spec fn wf(&self) -> bool {
        &&& forall|i: int| 0 <= i < self.prepared@.len() ==> (#[trigger] self.prepared@[i]).wf()
        &&& paths_view(self.reserved@) == self.operations().map_values(|o: OperationView| o.destination)
        &&& self.result.operations@.len() + self.result.ignored_files <= self.result.scanned_files
    }

    /// What planning `file` at time `now` did, from `old` to `self`, with
    /// result `r`: with no matching rule the file is ignored; with the first
    /// matching rule, its destination error is the result, or the
    /// destination is made collision-free against the disk and the
    /// reserved destinations, and the file is ignored when that is its own
    /// path and planned otherwise.
    pub open spec fn planned_from<F: Fn(&FsPath) -> bool>(
        self,
        old: Self,
        file: FileView,
        now: Timestamp,
        occupied: F,
        r: Result<()>,
    ) -> bool {
        match first_match(old.rules(), file, now) {
            None => r is Ok && self.operations() == old.operations() && self.ignored() == old.ignored() + 1,
            Some(k) => match destination_outcome(old.spec_root(), file, old.rules()[k as int]) {
                Err(e) => r matches Err(x) && x@ == e,
                Ok(desired) => r is Ok && ({
                    &&& collision_outcome(occupied, old.reserved(), desired, Some(file.path))
                        || collision_outcome(occupied, old.reserved(), desired, None)
                    &&& self.operations() == old.operations()
                    &&& self.ignored() == old.ignored() + 1
                } || {
                    let op = self.operations().last();
                    &&& op.destination != file.path
                    &&& collision_outcome(occupied, old.reserved(), desired, Some(op.destination))
                    &&& planned_operation_for(op, file, old.rules()[k as int], op.destination)
                    &&& self.operations() == old.operations().push(op)
                    &&& self.ignored() == old.ignored()
                }),
            },
        }
    }

    /// A well-formed plan has no more operations and ignored files than
    /// files scanned.
    pub proof fn lemma_counts(&self)
        requires
            self.wf(),
        ensures
            self.operations().len() + self.ignored() <= self.scanned(),
    {
    }

    /// Validates the enabled rules (the first problem is returned) and
    /// starts an empty preview.
    pub fn new(root: &FsPath, rules: &'a Vec<Rule>, options: &ScanOptions) -> (r: Result<PreviewPlanner<'a>>)
        ensures
            r is Ok <==> first_enabled_problem(rules_view(rules@)) is None,
            r matches Err(e) ==> first_enabled_problem(rules_view(rules@)) == Some(e@),
            r matches Ok(p) ==> {
                &&& p.wf()
                &&& p.rules() == enabled_rules(rules_view(rules@))
                &&& p.spec_root() == root@
                &&& p.spec_options() == *options
                &&& p.operations().len() == 0
                &&& p.scanned() == 0
                &&& p.ignored() == 0
                &&& p.errors().len() == 0
                &&& p.reserved().len() == 0
            },
    {
        let mut prepared: Vec<PreparedRule<'a>> = Vec::new();
        let ghost rv = rules_view(rules@);
        let mut i: usize = 0;
        assert(rv.skip(0) =~= rv);
        assert(rv.take(0) =~= Seq::<RuleView>::empty());
        while i < rules.len()
            invariant
                rv == rules_view(rules@),
                i <= rules.len(),
                first_enabled_problem(rv) == first_enabled_problem(rv.skip(i as int)),
                prepared@.map_values(|p: PreparedRule<'a>| p.spec_rule()) == enabled_rules(rv.take(i as int)),
                forall|j: int| 0 <= j < prepared@.len() ==> (#[trigger] prepared@[j]).wf(),
            decreases rules.len() - i,
        {
            let rule = &rules[i];
            proof {
                assert(rv[i as int] == rule@);
                assert(rv.skip(i as int)[0] == rule@);
                assert(rv.skip(i as int).skip(1) =~= rv.skip(i + 1));
                assert(rv.take(i + 1).drop_last() =~= rv.take(i as int));
                assert(rv.take(i + 1).last() == rule@);
            }
            if rule.enabled {
                match PreparedRule::new(rule) {
                    Ok(p) => {
                        let ghost before = prepared@;
                        prepared.push(p);
                        proof {
                            assert(prepared@.map_values(|p: PreparedRule<'a>| p.spec_rule()) =~= before.map_values(
                                |p: PreparedRule<'a>| p.spec_rule(),
                            ).push(rule@));
                        }
                    },
                    Err(e) => {
                        return Err(e);
                    },
                }
            }
            i += 1;
        }
        proof {
            assert(rv.take(rules.len() as int) =~= rv);
            assert(rv.skip(rules.len() as int) =~= Seq::<RuleView>::empty());
        }
        let p = PreviewPlanner {
            root: root.duplicate(),
            options: *options,
            prepared,
            result: PreviewResult::new(),
            reserved: Vec::new(),
        };
        proof {
            assert(paths_view(p.reserved@) =~= p.operations().map_values(|o: OperationView| o.destination));
        }
        Ok(p)
    }

    /// Records an entry that the walk could not read.
    pub fn note_walk_error(&mut self, message: String)
        requires
            old(self).wf(),
        ensures
            final(self).wf(),
            final(self).rules() == old(self).rules(),
            final(self).spec_root() == old(self).spec_root(),
            final(self).spec_options() == old(self).spec_options(),
            final(self).operations() == old(self).operations(),
            final(self).reserved() == old(self).reserved(),
            final(self).scanned() == old(self).scanned(),
            final(self).ignored() == old(self).ignored(),
            final(self).errors() == old(self).errors().push(message@),
    {
        let ghost before = self.result.recoverable_errors@;
        self.result.recoverable_errors.push(message);
        assert(texts(self.result.recoverable_errors@) =~= texts(before).push(message@));
    }

    /// Counts a regular file that the walk reached.
    pub fn note_file_seen(&mut self)
        requires
            old(self).wf(),
            old(self).scanned() < usize::MAX,
        ensures
            final(self).wf(),
            final(self).rules() == old(self).rules(),
            final(self).spec_root() == old(self).spec_root(),
            final(self).spec_options() == old(self).spec_options(),
            final(self).operations() == old(self).operations(),
            final(self).reserved() == old(self).reserved(),
            final(self).scanned() == old(self).scanned() + 1,
            final(self).ignored() == old(self).ignored(),
            final(self).errors() == old(self).errors(),
    {
        self.result.scanned_files = self.result.scanned_files + 1;
    }

    /// Skips a file reached through a link that resolves outside the root:
    /// it is ignored, and a message says so.
    pub fn note_outside_link(&mut self)
        requires
            old(self).wf(),
            old(self).operations().len() + old(self).ignored() < old(self).scanned(),
        ensures
            final(self).wf(),
            final(self).rules() == old(self).rules(),
            final(self).spec_root() == old(self).spec_root(),
            final(self).spec_options() == old(self).spec_options(),
            final(self).operations() == old(self).operations(),
            final(self).reserved() == old(self).reserved(),
            final(self).scanned() == old(self).scanned(),
            final(self).ignored() == old(self).ignored() + 1,
            final(self).errors() == old(self).errors().push(
                outside_link_message(),
            ),
    {
        let ghost before = self.result.recoverable_errors@;
        self.result.recoverable_errors.push(
            owned("A symbolic link points outside the selected folder; it was skipped."),
        );
        assert(texts(self.result.recoverable_errors@) =~= texts(before).push(outside_link_message()));
        self.result.ignored_files = self.result.ignored_files + 1;
    }

    /// Plans `file` with the rule at `matched` (if any): the rule's
    /// destination, made collision-free against the disk (`occupied`) and
    /// the destinations already reserved. A file that no rule matches, or
    /// whose destination is its own path, is counted as ignored.
    pub fn plan_matched<F: Fn(&FsPath) -> bool>(
        &mut self,
        file: &FileEntry,
        matched: Option<usize>,
        occupied: &F,
    ) -> (r: Result<()>)
        requires
            old(self).wf(),
            old(self).operations().len() + old(self).ignored() < old(self).scanned(),
            matched matches Some(k) ==> k < old(self).rules().len(),
            forall|p: &FsPath| occupied.requires((p,)),
        ensures
            final(self).rules() == old(self).rules(),
            final(self).spec_root() == old(self).spec_root(),
            final(self).spec_options() == old(self).spec_options(),
            final(self).scanned() == old(self).scanned(),
            final(self).errors() == old(self).errors(),
            r is Ok ==> final(self).wf(),
            match matched {
                None => {
                    &&& r is Ok
                    &&& final(self).operations() == old(self).operations()
                    &&& final(self).reserved() == old(self).reserved()
                    &&& final(self).ignored() == old(self).ignored() + 1
                },
                Some(k) => match destination_outcome(
                    old(self).spec_root(),
                    file@,
                    old(self).rules()[k as int],
                ) {
                    Err(e) => r matches Err(x) && x@ == e && final(self).operations() == old(self).operations(),
                    Ok(desired) => {
                        &&& r is Ok
                        &&& {
                            ||| {
                                &&& collision_outcome(*occupied, old(self).reserved(), desired, Some(file@.path))
                                    || collision_outcome(*occupied, old(self).reserved(), desired, None)
                                &&& final(self).operations() == old(self).operations()
                                &&& final(self).reserved() == old(self).reserved()
                                &&& final(self).ignored() == old(self).ignored() + 1
                            }
                            ||| {
                                let op = final(self).operations().last();
                                &&& op.destination != file@.path
                                &&& collision_outcome(*occupied, old(self).reserved(), desired, Some(op.destination))
                                &&& planned_operation_for(op, file@, old(self).rules()[k as int], op.destination)
                                &&& final(self).operations() == old(self).operations().push(op)
                                &&& paths_view(final(self).reserved()) == paths_view(old(self).reserved()).push(op.destination)
                                &&& final(self).ignored() == old(self).ignored()
                            }
                        }
                    },
                },
            },
    {
        let k = match matched {
            None => {
                self.result.ignored_files = self.result.ignored_files + 1;
                return Ok(());
            },
            Some(k) => k,
        };
        let prepared = &self.prepared[k];
        let rule = prepared.rule();
        proof {
            assert(self.rules()[k as int] == prepared.spec_rule());
        }
        let desired = destination_for(&self.root, file, rule)?;
        let destination = match collision_safe_path_with_reserved(&desired, &self.reserved, occupied) {
            None => {
                self.result.ignored_files = self.result.ignored_files + 1;
                return Ok(());
            },
            Some(d) => d,
        };
        if destination.same_as(&file.path) {
            self.result.ignored_files = self.result.ignored_files + 1;
            return Ok(());
        }
        let op = PlannedOperation {
            id: new_uuid(),
            source: file.path.duplicate(),
            destination: destination.duplicate(),
            rule_id: rule.id,
            rule_name: crate::text::copy_string(&rule.name),
            size: file.size,
        };
        let ghost old_ops = self.result.operations@;
        let ghost old_reserved = self.reserved@;
        self.reserved.push(destination);
        self.result.operations.push(op);
        proof {
            assert(operations_view(self.result.operations@) =~= operations_view(old_ops).push(op@));
            assert(paths_view(self.reserved@) =~= paths_view(old_reserved).push(op@.destination));
            assert(operations_view(self.result.operations@).map_values(|o: OperationView| o.destination)
                =~= operations_view(old_ops).map_values(|o: OperationView| o.destination).push(
                op@.destination,
            ));
        }
        Ok(())
    }

    /// Index of the first enabled rule that matches `file` at `now`.
    pub fn first_match_at(&self, file: &FileEntry, now: Timestamp) -> (r: Option<usize>)
        requires
            self.wf(),
        ensures
            match r {
                Some(k) => first_match(self.rules(), file@, now) == Some(k as nat) && k < self.rules().len(),
                None => first_match(self.rules(), file@, now) is None,
            },
    {
        let mut i: usize = 0;
        let n = self.prepared.len();
        while i < n
            invariant
                self.wf(),
                n == self.rules().len(),
                i <= n,
                forall|j: int| 0 <= j < i ==> !rule_holds(#[trigger] self.rules()[j], file@, now),
            decreases n - i,
        {
            proof {
                assert(self.rules()[i as int] == self.prepared@[i as int].spec_rule());
                assert(self.prepared@[i as int].wf());
            }
            if self.prepared[i].matches_at(file, now) {
                proof {
                    lemma_first_match(self.rules(), file@, now, i as int);
                }
                return Some(i);
            }
            i += 1;
        }
        proof {
            lemma_first_match(self.rules(), file@, now, n as int);
        }
        None
    }

    /// Whether some enabled rule has an age criterion.
    pub fn uses_age_criteria(&self) -> (r: bool)
        ensures
            r == has_age_criteria(self.rules()),
    {
        let mut i: usize = 0;
        let n = self.prepared.len();
        while i < n
            invariant
                n == self.rules().len(),
                i <= n,
                forall|a: int, b: int|
                    0 <= a < i && 0 <= b < self.rules()[a].criteria.len() ==> !((#[trigger] self.rules()[a].criteria[b]) is ModifiedOlderThanDays),
            decreases n - i,
        {
            let rule = self.prepared[i].rule();
            proof {
                assert(self.rules()[i as int] == rule@);
            }
            let mut j: usize = 0;
            while j < rule.criteria.len()
                invariant
                    self.rules()[i as int] == rule@,
                    i < n,
                    n == self.rules().len(),
                    j <= rule.criteria.len(),
                    forall|b: int| 0 <= b < j ==> !((#[trigger] rule@.criteria[b]) is ModifiedOlderThanDays),
                decreases rule.criteria.len() - j,
            {
                proof {
                    assert(rule@.criteria[j as int] == rule.criteria@[j as int]@);
                }
                match &rule.criteria[j] {
                    crate::models::RuleCriterion::ModifiedOlderThanDays { .. } => {
                        proof {
                            assert((self.rules()[i as int].criteria[j as int]) is ModifiedOlderThanDays);
                        }
                        return true;
                    },
                    _ => {},
                }
                j += 1;
            }
            i += 1;
        }
        false
    }

    /// Plans `file` at time `now`: the first matching enabled rule decides.
    pub fn plan_file_at<F: Fn(&FsPath) -> bool>(
        &mut self,
        file: &FileEntry,
        now: Timestamp,
        occupied: &F,
    ) -> (r: Result<()>)
        requires
            old(self).wf(),
            old(self).operations().len() + old(self).ignored() < old(self).scanned(),
            forall|p: &FsPath| occupied.requires((p,)),
        ensures
            final(self).rules() == old(self).rules(),
            final(self).spec_root() == old(self).spec_root(),
            final(self).spec_options() == old(self).spec_options(),
            final(self).scanned() == old(self).scanned(),
            final(self).errors() == old(self).errors(),
            r is Ok ==> final(self).wf(),
            final(self).planned_from(*old(self), file@, now, *occupied, r),
    {
        let mut i: usize = 0;
        let n = self.prepared.len();
        while i < n
            invariant
                *self == *old(self),
                self.wf(),
                self.operations().len() + self.ignored() < self.scanned(),
                forall|p: &FsPath| occupied.requires((p,)),
                n == self.rules().len(),
                i <= n,
                forall|j: int| 0 <= j < i ==> !rule_holds(#[trigger] self.rules()[j], file@, now),
            decreases n - i,
        {
            proof {
                assert(self.rules()[i as int] == self.prepared@[i as int].spec_rule());
                assert(self.prepared@[i as int].wf());
            }
            if self.prepared[i].matches_at(file, now) {
                proof {
                    lemma_first_match(self.rules(), file@, now, i as int);
                }
                return self.plan_matched(file, Some(i), occupied);
            }
            i += 1;
        }
        proof {
            lemma_first_match(self.rules(), file@, now, n as int);
        }
        self.plan_matched(file, None, occupied)
    }

    /// Plans `file` at the time `clock` reads.
    pub fn plan_file<F: Fn(&FsPath) -> bool, C: Fn() -> Timestamp>(
        &mut self,
        file: &FileEntry,
        occupied: &F,
        clock: &C,
    ) -> (r: Result<()>)
        requires
            old(self).wf(),
            old(self).operations().len() + old(self).ignored() < old(self).scanned(),
            forall|p: &FsPath| occupied.requires((p,)),
            clock.requires(()),
        ensures
            final(self).rules() == old(self).rules(),
            final(self).spec_root() == old(self).spec_root(),
            final(self).spec_options() == old(self).spec_options(),
            final(self).scanned() == old(self).scanned(),
            final(self).errors() == old(self).errors(),
            r is Ok ==> final(self).wf(),
            r is Ok ==> final(self).operations() == old(self).operations()
                || (final(self).operations() == old(self).operations().push(final(self).operations().last())
                && final(self).operations().last().source == file@.path),
            r matches Err(e) ==> exists|k: int|
                0 <= k < old(self).rules().len() && destination_outcome(
                    old(self).spec_root(),
                    file@,
                    old(self).rules()[k],
                ) == Err::<PathView, ErrorView>(e@),
            exists|now: Timestamp|
                clock.ensures((), now) && #[trigger] final(self).planned_from(*old(self), file@, now, *occupied, r),
    {
        let now = clock();
        let ghost rules = self.rules();
        let ghost root = self.spec_root();
        let r = self.plan_file_at(file, now, occupied);
        proof {
            lemma_first_match_bound(rules, file@, now);
            assert(self.planned_from(*old(self), file@, now, *occupied, r));
            if let Some(k) = first_match(rules, file@, now) {
                let k = k as int;
                if let Err(e) = destination_outcome(root, file@, rules[k]) {
                    assert(0 <= k < rules.len() && destination_outcome(root, file@, rules[k]) == Err::<PathView, ErrorView>(r->Err_0@));
                }
            }
        }
        r
    }

    /// The decisions so far, with the paths of the files described.
    pub open spec fn plan_state(&self, described: Seq<FileView>) -> PlanState {
        PlanState {
            ops: self.operations(),
            ignored: self.ignored() as nat,
            errors: self.errors(),
            described,
        }
    }

    /// The planned destinations are reserved.
    pub proof fn lemma_reserved(&self)
        requires
            self.wf(),
        ensures
            paths_view(self.reserved()) == destinations(self.operations()),
    {
    }

    /// The preview, once the walk is over.
    pub fn finish(self) -> (r: PreviewResult)
        ensures
            operations_view(r.operations@) == self.operations(),
            r.scanned_files == self.scanned(),
            r.ignored_files == self.ignored(),
            texts(r.recoverable_errors@) == self.errors(),
    {
        self.result
    }
}


/// Law: a destination planned against the destinations reserved before it
/// differs from every one of them.
pub proof fn law_planned_destinations_differ<F: Fn(&FsPath) -> bool>(
    occupied: F,
    reserved: Seq<FsPath>,
    earlier: Seq<OperationView>,
    desired: PathView,
    destination: PathView,
)
    requires
        paths_view(reserved) == earlier.map_values(|o: OperationView| o.destination),
        collision_outcome(occupied, reserved, desired, Some(destination)),
    ensures
        forall|i: int| 0 <= i < earlier.len() ==> (#[trigger] earlier[i]).destination != destination,
{
    law_collision_result_is_free(occupied, reserved, desired, destination);
    assert(paths_view(reserved).len() == reserved.len());
    assert(earlier.map_values(|o: OperationView| o.destination).len() == earlier.len());
    assert forall|i: int| 0 <= i < earlier.len() implies (#[trigger] earlier[i]).destination
        != destination by {
        assert(paths_view(reserved)[i] == earlier[i].destination);
        assert(reserved[i]@ == paths_view(reserved)[i]);
        assert(!((reserved[i])@ == destination));
    }
}


/// What a walk of the root reported, in walk order.
#[derive(Clone, Debug, PartialEq, Eq)]
pub enum WalkItem {
    /// An entry the walk could not read, with the kind of the system's error
    /// when it has one.
    Unreadable { kind: Option<String> },
    /// A regular file, with its size and modification time.
    File { path: FsPath, size: u64, modified_at: Option<Timestamp> },
    /// A regular file whose metadata could not be read: the system's message
    /// and the kind of its error, when it has one.
    FileWithoutMetadata { path: FsPath, message: String, kind: Option<String> },
}

/// How many regular files the walk reported.
pub open spec fn file_count(items: Seq<WalkItem>) -> nat
    decreases items.len(),
{
    if items.len() == 0 {
        0
    } else {
        file_count(items.drop_last()) + if items.last() is Unreadable {
            0nat
        } else {
            1nat
        }
    }
}

/// The item is the file `p`.
pub open spec fn is_file_at(item: WalkItem, p: PathView) -> bool {
    match item {
        WalkItem::File { path, .. } => path@ == p,
        WalkItem::FileWithoutMetadata { path, .. } => path@ == p,
        WalkItem::Unreadable { .. } => false,
    }
}

/// One of the first `n` items is the file `p`.
pub open spec fn walked_before(items: Seq<WalkItem>, n: int, p: PathView) -> bool {
    exists|j: int| 0 <= j < n && is_file_at(#[trigger] items[j], p)
}

/// The item is a file with readable metadata that `rule` gives the
/// destination error `e`.
pub open spec fn file_gets_error(root: PathView, rule: RuleView, item: WalkItem, e: ErrorView) -> bool {
    item matches WalkItem::File { path, size, modified_at } && destination_outcome(
        root,
        described_file(root, path@, size, modified_at),
        rule,
    ) == Err::<PathView, ErrorView>(e)
}

/// Some file the walk reported, with readable metadata, gets the error `e`
/// from some enabled rule's destination.
pub open spec fn destination_error_of(
    root: PathView,
    rules: Seq<RuleView>,
    items: Seq<WalkItem>,
    e: ErrorView,
) -> bool {
    exists|j: int, k: int|
        0 <= j < items.len() && 0 <= k < rules.len() && #[trigger] file_gets_error(root, rules[k], items[j], e)
}

pub proof fn lemma_file_count_step(items: Seq<WalkItem>, i: int)
    requires
        0 <= i < items.len(),
    ensures
        file_count(items.take(i + 1)) == file_count(items.take(i)) + if items[i] is Unreadable {
            0nat
        } else {
            1nat
        },
        file_count(items.take(i)) <= i,
    decreases i,
{
    assert(items.take(i + 1).drop_last() =~= items.take(i));
    if i > 0 {
        lemma_file_count_step(items, i - 1);
    } else {
        assert(items.take(0).len() == 0);
    }
}

/// What a preview has decided after part of the walk: the planned moves,
/// how many files it left where they are, its messages, and the files it
/// described and matched, in walk order.
pub struct PlanState {
    pub ops: Seq<OperationView>,
    pub ignored: nat,
    pub errors: Seq<Seq<char>>,
    pub described: Seq<FileView>,
}

/// Nothing decided yet.
pub open spec fn empty_plan() -> PlanState {
    PlanState { ops: Seq::empty(), ignored: 0, errors: Seq::empty(), described: Seq::empty() }
}

/// The preview `res` records the moves, the ignored count and the messages
/// of `s`.
pub open spec fn shows(res: PreviewResult, s: PlanState) -> bool {
    &&& operations_view(res.operations@) == s.ops
    &&& res.ignored_files == s.ignored
    &&& texts(res.recoverable_errors@) == s.errors
}

/// The destinations of `ops`, in order.
pub open spec fn destinations(ops: Seq<OperationView>) -> Seq<PathView> {
    ops.map_values(|o: OperationView| o.destination)
}

/// The collision search for `desired`, against the disk as `occupied`
/// reports it and the destinations of the moves `ops` planned before,
/// gave `d` (nothing when every alternative was blocked).
pub open spec fn searched_from<F: Fn(&FsPath) -> bool>(
    occupied: F,
    ops: Seq<OperationView>,
    desired: PathView,
    d: Option<PathView>,
) -> bool {
    exists|rs: Seq<FsPath>| paths_view(rs) == destinations(ops) && #[trigger] collision_outcome(occupied, rs, desired, d)
}

/// Planning the described `file` at time `now` took the plan from `s` to
/// `t`: the first matching rule decides; with none the file is ignored;
/// otherwise the rule's destination is made collision-free, and the file is
/// ignored when that is its own path or no free destination was found, and
/// moved there otherwise.
pub open spec fn file_planned<F: Fn(&FsPath) -> bool>(
    rules: Seq<RuleView>,
    root: PathView,
    occupied: F,
    s: PlanState,
    file: FileView,
    now: Timestamp,
    t: PlanState,
) -> bool {
    &&& t.errors == s.errors
    &&& t.described == s.described.push(file)
    &&& match first_match(rules, file, now) {
        None => t.ops == s.ops && t.ignored == s.ignored + 1,
        Some(k) => match destination_outcome(root, file, rules[k as int]) {
            Err(_) => false,
            Ok(desired) => {
                ||| {
                    &&& searched_from(occupied, s.ops, desired, Some(file.path))
                        || searched_from(occupied, s.ops, desired, None)
                    &&& t.ops == s.ops
                    &&& t.ignored == s.ignored + 1
                }
                ||| {
                    let op = t.ops.last();
                    &&& t.ops == s.ops.push(op)
                    &&& t.ignored == s.ignored
                    &&& op.destination != file.path
                    &&& searched_from(occupied, s.ops, desired, Some(op.destination))
                    &&& planned_operation_for(op, file, rules[k as int], op.destination)
                }
            },
        },
    }
}

/// A file skipped because it resolves outside the root.
pub open spec fn skipped(s: PlanState) -> PlanState {
    PlanState { ignored: s.ignored + 1, errors: s.errors.push(outside_link_message()), ..s }
}

/// The kind of a walk error, as text.
pub open spec fn kind_view(kind: Option<String>) -> Option<Seq<char>> {
    match kind {
        Some(k) => Some(k@),
        None => None,
    }
}

/// The message for a file whose metadata could not be read: the preview
/// names the path and the system's message; the cached preview, like a walk
/// error, only the kind of the error.
pub open spec fn metadata_message(cached: bool, path: PathView, message: Seq<char>, kind: Option<String>) -> Seq<char> {
    if cached {
        walk_error_message(kind_view(kind))
    } else {
        error_text(ErrorView::Io { path, message })
    }
}

/// One item of the walk took the plan from `s` to `t`. With links
/// followed, a file that `resolve` places outside the canonical root
/// `croot` is skipped.
pub open spec fn walk_step<F: Fn(&FsPath) -> bool, R: Fn(&FsPath) -> std::result::Result<FsPath, String>, C: Fn() -> Timestamp>(
    rules: Seq<RuleView>,
    root: PathView,
    croot: PathView,
    follow_links: bool,
    occupied: F,
    resolve: R,
    clock: C,
    cached: bool,
    s: PlanState,
    item: WalkItem,
    t: PlanState,
) -> bool {
    match item {
        WalkItem::Unreadable { kind } => t == PlanState {
            errors: s.errors.push(walk_error_message(kind_view(kind))),
            ..s
        },
        WalkItem::FileWithoutMetadata { path, message, kind } => {
            ||| follow_links && refused_at(resolve, path@, croot) && t == skipped(s)
            ||| (!follow_links || resolves_inside(resolve, path@, croot)) && t == PlanState {
                errors: s.errors.push(metadata_message(cached, path@, message@, kind)),
                ..s
            }
        },
        WalkItem::File { path, size, modified_at } => {
            ||| follow_links && refused_at(resolve, path@, croot) && t == skipped(s)
            ||| (!follow_links || resolves_inside(resolve, path@, croot)) && exists|now: Timestamp|
                clock.ensures((), now) && #[trigger] file_planned(rules, root, occupied, s, described_file(root, path@, size, modified_at), now, t)
        },
    }
}

/// `states` follows the walk `items` from the empty plan, one step per item.
pub open spec fn preview_run<F: Fn(&FsPath) -> bool, R: Fn(&FsPath) -> std::result::Result<FsPath, String>, C: Fn() -> Timestamp>(
    rules: Seq<RuleView>,
    root: PathView,
    croot: PathView,
    follow_links: bool,
    occupied: F,
    resolve: R,
    clock: C,
    cached: bool,
    items: Seq<WalkItem>,
    states: Seq<PlanState>,
) -> bool {
    &&& states.len() == items.len() + 1
    &&& states[0] == empty_plan()
    &&& forall|i: int| 0 <= i < items.len() ==> #[trigger] walk_step(
        rules,
        root,
        croot,
        follow_links,
        occupied,
        resolve,
        clock,
        cached,
        states[i],
        items[i],
        states[i + 1],
    )
}

/// The plan `last` is where a preview of `root` ends, with the enabled
/// `rules` and links followed or not, over the walk `items`: the root
/// resolved to some canonical root, and every item was taken in turn.
pub open spec fn previewed<F: Fn(&FsPath) -> bool, R: Fn(&FsPath) -> std::result::Result<FsPath, String>, C: Fn() -> Timestamp>(
    rules: Seq<RuleView>,
    root: PathView,
    follow_links: bool,
    occupied: F,
    resolve: R,
    clock: C,
    cached: bool,
    items: Seq<WalkItem>,
    last: PlanState,
) -> bool {
    exists|croot: PathView, states: Seq<PlanState>|
        resolves_to(resolve, root, croot) && #[trigger] preview_run(
            rules,
            root,
            croot,
            follow_links,
            occupied,
            resolve,
            clock,
            cached,
            items,
            states,
        ) && states.last() == last
}

fn kind_text(kind: &Option<String>) -> (r: Option<&str>)
    ensures
        match r {
            Some(k) => kind matches Some(s) && k@ == s@,
            None => kind is None,
        },
{
    match kind {
        Some(k) => Some(k.as_str()),
        None => None,
    }
}

/// A dry run over what the walk reported: the enabled rules are validated
/// first (the first problem is the error); the root is resolved; each file
/// is counted, skipped with a message when links are followed and it
/// resolves outside the root, described from its metadata, and planned with
/// the first matching rule, collision-free against the disk and the
/// destinations planned before it. Unreadable entries become messages.
pub fn preview_organization<F, R, C>(
    root: &FsPath,
    rules: &Vec<Rule>,
    options: &ScanOptions,
    items: &Vec<WalkItem>,
    occupied: &F,
    resolve: &R,
    clock: &C,
) -> (r: Result<PreviewResult>) where
    F: Fn(&FsPath) -> bool,
    R: Fn(&FsPath) -> std::result::Result<FsPath, String>,
    C: Fn() -> Timestamp,

    requires
        forall|p: &FsPath| occupied.requires((p,)),
        forall|p: &FsPath| resolve.requires((p,)),
        clock.requires(()),
    ensures
        first_enabled_problem(rules_view(rules@)) matches Some(e) ==> (r matches Err(x) && x@ == e),
        r matches Ok(res) ==> {
            &&& res.scanned_files == file_count(items@)
            &&& res.operations.len() + res.ignored_files <= res.scanned_files
            &&& forall|k: int|
                0 <= k < res.operations.len() ==> walked_before(
                    items@,
                    items.len() as int,
                    (#[trigger] operations_view(res.operations@)[k]).source,
                )
            &&& crate::preview_laws::well_planned(*occupied, operations_view(res.operations@))
            &&& crate::preview_laws::moves_from_walk(
                enabled_rules(rules_view(rules@)),
                root@,
                *clock,
                items@,
                items.len() as int,
                operations_view(res.operations@),
            )
            &&& crate::preview_laws::no_metadata_failures(items@) ==> res.operations.len()
                + res.ignored_files == res.scanned_files
            &&& exists|last: PlanState|
                #[trigger] previewed(
                    enabled_rules(rules_view(rules@)),
                    root@,
                    options.follow_links,
                    *occupied,
                    *resolve,
                    *clock,
                    false,
                    items@,
                    last,
                ) && shows(res, last)
        },
        r matches Err(e) ==> first_enabled_problem(rules_view(rules@)) == Some(e@) || (
        e@ matches ErrorView::Io { path, message } && path == root@ && resolve_failed(
            *resolve,
            path,
            message,
        )) || destination_error_of(root@, enabled_rules(rules_view(rules@)), items@, e@),
{
    let mut planner = PreviewPlanner::new(root, rules, options)?;
    let canonical_root = match resolve(root) {
        Err(message) => {
            proof {
                assert(resolve.ensures((root,), Err(message)));
                assert(resolve_failed(*resolve, root@, message@));
            }
            return Err(SortSmithError::Io { path: root.duplicate(), message });
        },
        Ok(c) => {
            proof {
                assert(resolve.ensures((root,), Ok(c)));
                assert(resolves_to(*resolve, root@, c@));
            }
            c
        },
    };
    let ghost enabled = enabled_rules(rules_view(rules@));
    let ghost croot = canonical_root@;
    let ghost follow = options.follow_links;
    let ghost mut described: Seq<FileView> = Seq::empty();
    let ghost mut states: Seq<PlanState> = seq![empty_plan()];
    proof {
        assert(planner.operations() =~= Seq::<OperationView>::empty());
        assert(planner.errors() =~= Seq::<Seq<char>>::empty());
        assert(planner.plan_state(described) == empty_plan());
    }
    let mut i: usize = 0;
    while i < items.len()
        invariant
            i <= items.len(),
            forall|p: &FsPath| occupied.requires((p,)),
            forall|p: &FsPath| resolve.requires((p,)),
            clock.requires(()),
            first_enabled_problem(rules_view(rules@)) is None,
            planner.wf(),
            planner.rules() == enabled,
            enabled == enabled_rules(rules_view(rules@)),
            planner.spec_root() == root@,
            planner.spec_options() == *options,
            planner.scanned() == file_count(items@.take(i as int)),
            croot == canonical_root@,
            follow == options.follow_links,
            resolves_to(*resolve, root@, croot),
            states.len() == i + 1,
            states[0] == empty_plan(),
            states[i as int] == planner.plan_state(described),
            forall|j: int| 0 <= j < i ==> #[trigger] walk_step(
                enabled,
                root@,
                croot,
                follow,
                *occupied,
                *resolve,
                *clock,
                false,
                states[j],
                items@[j],
                states[j + 1],
            ),
            forall|k: int|
                0 <= k < planner.operations().len() ==> walked_before(
                    items@,
                    i as int,
                    #[trigger] planner.operations()[k].source,
                ),
        decreases items.len() - i,
    {
        proof {
            lemma_file_count_step(items@, i as int);
        }
        let ghost s = states[i as int];
        match &items[i] {
            WalkItem::Unreadable { kind } => {
                planner.note_walk_error(walk_error_text(kind_text(kind)));
            },
            WalkItem::FileWithoutMetadata { path, message, .. } => {
                planner.note_file_seen();
                if options.follow_links && !entry_within_root(path, &canonical_root, resolve) {
                    planner.note_outside_link();
                } else {
                    let e = SortSmithError::Io {
                        path: path.duplicate(),
                        message: crate::text::copy_string(message),
                    };
                    planner.note_walk_error(e.to_text());
                }
            },
            WalkItem::File { path, size, modified_at } => {
                planner.note_file_seen();
                if options.follow_links && !entry_within_root(path, &canonical_root, resolve) {
                    planner.note_outside_link();
                } else {
                    let file = describe_file_from_metadata(root, path, *size, *modified_at);
                    let ghost before = planner.operations();
                    let ghost p0 = planner;
                    proof {
                        p0.lemma_reserved();
                    }
                    let planned = planner.plan_file(&file, occupied, clock);
                    match planned {
                        Ok(()) => {},
                        Err(e) => {
                            proof {
                                let k = choose|k: int|
                                    0 <= k < enabled.len() && destination_outcome(
                                        root@,
                                        file@,
                                        enabled[k],
                                    ) == Err::<PathView, ErrorView>(e@);
                                assert(file_gets_error(root@, enabled[k], items@[i as int], e@));
                            }
                            return Err(e);
                        },
                    }
                    proof {
                        described = described.push(file@);
                        let t = planner.plan_state(described);
                        let now = choose|now: Timestamp|
                            clock.ensures((), now) && #[trigger] planner.planned_from(p0, file@, now, *occupied, planned);
                        assert(file_planned(enabled, root@, *occupied, s, file@, now, t));
                        assert forall|k: int| 0 <= k < planner.operations().len() implies walked_before(
                            items@,
                            i + 1,
                            #[trigger] planner.operations()[k].source,
                        ) by {
                            if k < before.len() {
                                assert(planner.operations()[k] == before[k]);
                                let j = choose|j: int| 0 <= j < i && is_file_at(#[trigger] items@[j], before[k].source);
                            } else {
                                assert(is_file_at(items@[i as int], planner.operations()[k].source));
                            }
                        }
                    }
                }
            },
        }
        proof {
            let t = planner.plan_state(described);
            assert(walk_step(enabled, root@, croot, follow, *occupied, *resolve, *clock, false, s, items@[i as int], t));
            let old_states = states;
            states = states.push(t);
            assert forall|j: int| 0 <= j < i + 1 implies #[trigger] walk_step(
                enabled,
                root@,
                croot,
                follow,
                *occupied,
                *resolve,
                *clock,
                false,
                states[j],
                items@[j],
                states[j + 1],
            ) by {
                if j < i {
                    assert(states[j] == old_states[j] && states[j + 1] == old_states[j + 1]);
                }
            }
            assert forall|k: int| 0 <= k < planner.operations().len() implies walked_before(
                items@,
                i + 1,
                #[trigger] planner.operations()[k].source,
            ) by {
                if walked_before(items@, i as int, planner.operations()[k].source) {
                    let j = choose|j: int| 0 <= j < i && is_file_at(#[trigger] items@[j], planner.operations()[k].source);
                    assert(0 <= j < i + 1);
                }
            }
        }
        i += 1;
    }
    assert(items@.take(items.len() as int) =~= items@);
    let ghost last = planner.plan_state(described);
    let res = planner.finish();
    proof {
        assert(preview_run(enabled, root@, croot, follow, *occupied, *resolve, *clock, false, items@, states));
        assert(previewed(enabled, root@, follow, *occupied, *resolve, *clock, false, items@, last));
        crate::preview_laws::law_previewed_moves_are_well_planned(
            enabled,
            root@,
            follow,
            *occupied,
            *resolve,
            *clock,
            false,
            items@,
            last,
        );
        crate::preview_laws::law_moves_follow_first_matching_rule(
            enabled,
            root@,
            follow,
            *occupied,
            *resolve,
            *clock,
            false,
            items@,
            last,
        );
        crate::preview_laws::law_every_scanned_file_is_decided(
            enabled,
            root@,
            follow,
            *occupied,
            *resolve,
            *clock,
            false,
            items@,
            last,
        );
        assert(shows(res, last));
    }
    Ok(res)
}

} // verus!

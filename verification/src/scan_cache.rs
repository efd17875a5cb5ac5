//! An in-memory cache for repeated previews of the same folder with the same
//! rules and options: a file whose size and modification time are unchanged
//! keeps its description and its matched rule. Collision handling and
//! destinations are always computed anew, and rules with an age criterion
//! are matched again on every preview.
use vstd::prelude::*;
use crate::engine::{
    PreviewPlanner, WalkItem, described_file, describe_file_from_metadata, enabled_rules,
    entry_within_root, file_count, first_enabled_problem, first_match, is_file_at,
    law_first_match_ignores_time, lemma_first_match_bound, paths_view, walk_error_text,
    walked_before, has_age_criteria, PlanState, empty_plan, previewed, preview_run,
    shows, walk_step, file_planned,
};
use crate::containment::resolves_to;
use crate::containment::resolve_failed;
use crate::error::{ErrorView, Result, SortSmithError};
use crate::models::{
    FileEntry, FileView, PreviewResult, Rule, RuleView, ScanOptions, Timestamp, copy_rules,
    operations_view, rules_view, same_rules,
};
use crate::paths::{FsPath, PathView};

verus! {

/// What one preview did with the cache.
#[derive(Clone, Copy, Debug, PartialEq, Eq, Structural)]
pub struct ScanCacheStats {
    pub reused_files: usize,
    pub rescanned_files: usize,
    pub revalidated_time_sensitive_files: usize,
    pub cached_entries: usize,
}

pub open spec fn zero_stats() -> ScanCacheStats {
    ScanCacheStats {
        reused_files: 0,
        rescanned_files: 0,
        revalidated_time_sensitive_files: 0,
        cached_entries: 0,
    }
}

impl Default for ScanCacheStats {
    /// All counts zero.
    fn default() -> (r: ScanCacheStats)
        ensures
            r == zero_stats(),
    {
        ScanCacheStats {
            reused_files: 0,
            rescanned_files: 0,
            revalidated_time_sensitive_files: 0,
            cached_entries: 0,
        }
    }
}

/// The root, the complete ordered rule set and the options a cache was
/// filled for.
struct ScanCacheScope {
    root: FsPath,
    rules: Vec<Rule>,
    options: ScanOptions,
}

pub struct ScopeView {
    pub root: PathView,
    pub rules: Seq<RuleView>,
    pub options: ScanOptions,
}

struct CachedFile {
    path: FsPath,
    size: u64,
    modified_at: Option<Timestamp>,
    file: FileEntry,
    matched_rule_index: Option<usize>,
}

pub struct CachedView {
    pub path: PathView,
    pub size: u64,
    pub modified_at: Option<Timestamp>,
    pub file: FileView,
    pub matched: Option<usize>,
}

pub open spec fn as_nat(o: Option<usize>) -> Option<nat> {
    match o {
        Some(k) => Some(k as nat),
        None => None,
    }
}

/// A cache entry agrees with what a preview of its scope computes for the
/// same file: the same description, and the first matching rule at some time.
pub open spec fn entry_fits(scope: ScopeView, e: CachedView) -> bool {
    &&& e.file == described_file(scope.root, e.path, e.size, e.modified_at)
    &&& exists|t: Timestamp| as_nat(e.matched) == #[trigger] first_match(enabled_rules(scope.rules), e.file, t)
}

/// Descriptions and matched rules of previously scanned files.
pub struct ScanCache {
    scope: Option<ScanCacheScope>,
    entries: Vec<CachedFile>,
    stats: ScanCacheStats,
}

impl Default for ScanCache {
    /// An empty cache.
    fn default() -> (r: ScanCache)
        ensures
            r.wf(),
            r.scope() is None,
            r.entries().len() == 0,
            r.spec_stats() == zero_stats(),
    {
        ScanCache::new()
    }
}

impl ScanCache {
    pub closed spec fn scope(&self) -> Option<ScopeView> {
        match self.scope {
            Some(s) => Some(ScopeView { root: s.root@, rules: rules_view(s.rules@), options: s.options }),
            None => None,
        }
    }

    pub closed spec fn entries(&self) -> Seq<CachedView> {
        self.entries@.map_values(
            |c: CachedFile|
                CachedView {
                    path: c.path@,
                    size: c.size,
                    modified_at: c.modified_at,
                    file: c.file@,
                    matched: c.matched_rule_index,
                },
        )
    }

    pub closed spec fn spec_stats(&self) -> ScanCacheStats {
        self.stats
    }

    /// Every entry fits the scope, and no path is cached twice.
    pub open spec fn wf(&self) -> bool {
        &&& (self.scope() is None ==> self.entries().len() == 0)
        &&& forall|i: int| 0 <= i < self.entries().len() ==> entry_fits(self.scope()->0, #[trigger] self.entries()[i])
        &&& forall|i: int, j: int|
            0 <= i < self.entries().len() && 0 <= j < self.entries().len() && i != j ==> (#[trigger] self.entries()[i]).path
                != (#[trigger] self.entries()[j]).path
    }

    /// An empty cache.
    pub fn new() -> (r: ScanCache)
        ensures
            r.wf(),
            r.scope() is None,
            r.entries().len() == 0,
            r.spec_stats() == zero_stats(),
    {
        let r = ScanCache { scope: None, entries: Vec::new(), stats: ScanCacheStats::default() };
        assert(r.entries() =~= Seq::<CachedView>::empty());
        r
    }

    /// Forgets everything, so that the next preview rescans every file.
    pub fn clear(&mut self)
        ensures
            final(self).wf(),
            final(self).scope() is None,
            final(self).entries().len() == 0,
            final(self).spec_stats() == zero_stats(),
    {
        self.scope = None;
        self.entries = Vec::new();
        self.stats = ScanCacheStats::default();
        assert(self.entries() =~= Seq::<CachedView>::empty());
    }

    /// What the last preview did with the cache.
    pub fn stats(&self) -> (r: ScanCacheStats)
        ensures
            r == self.spec_stats(),
    {
        self.stats
    }

    /// Starts a preview of `root` with `rules` and `options`: a different
    /// scope empties the cache; the counts start from zero.
    pub fn prepare_scope(&mut self, root: &FsPath, rules: &Vec<Rule>, options: &ScanOptions)
        requires
            old(self).wf(),
        ensures
            final(self).wf(),
            final(self).scope() == Some(ScopeView { root: root@, rules: rules_view(rules@), options: *options }),
            old(self).scope() == final(self).scope() ==> final(self).entries() == old(self).entries(),
            old(self).scope() != final(self).scope() ==> final(self).entries().len() == 0,
            final(self).spec_stats() == zero_stats(),
    {
        let same = match &self.scope {
            Some(s) => s.root.same_as(root) && same_rules(&s.rules, rules) && s.options == *options,
            None => false,
        };
        if !same {
            self.entries = Vec::new();
            self.scope = Some(ScanCacheScope { root: root.duplicate(), rules: copy_rules(rules), options: *options });
            assert(self.entries() =~= Seq::<CachedView>::empty());
        }
        self.stats = ScanCacheStats::default();
    }

    /// Position of the entry for `path`, if any.
    fn position(&self, path: &FsPath) -> (r: Option<usize>)
        ensures
            match r {
                Some(i) => i < self.entries().len() && self.entries()[i as int].path == path@,
                None => forall|i: int| 0 <= i < self.entries().len() ==> (#[trigger] self.entries()[i]).path != path@,
            },
    {
        let mut i: usize = 0;
        while i < self.entries.len()
            invariant
                i <= self.entries.len(),
                forall|j: int| 0 <= j < i ==> (#[trigger] self.entries()[j]).path != path@,
            decreases self.entries.len() - i,
        {
            if self.entries[i].path.same_as(path) {
                return Some(i);
            }
            i += 1;
        }
        None
    }
}

/// The cache holds an entry for `path` with this size and modification time.
pub open spec fn reusable_entry(entries: Seq<CachedView>, path: PathView, size: u64, modified_at: Option<Timestamp>) -> bool {
    exists|j: int|
        0 <= j < entries.len() && (#[trigger] entries[j]).path == path && entries[j].size == size
            && entries[j].modified_at == modified_at
}

/// After a rescan of `path`, the cache holds one entry for it, with this
/// size and modification time, and keeps every other entry.
pub open spec fn entries_after_rescan(
    before: Seq<CachedView>,
    after: Seq<CachedView>,
    path: PathView,
    size: u64,
    modified_at: Option<Timestamp>,
) -> bool {
    &&& reusable_entry(after, path, size, modified_at)
    &&& forall|e: CachedView| e.path != path ==> (after.contains(e) <==> before.contains(e))
}

proof fn lemma_rescan_update(before: Seq<CachedView>, i: int, view: CachedView)
    requires
        0 <= i < before.len(),
        before[i].path == view.path,
    ensures
        entries_after_rescan(before, before.update(i, view), view.path, view.size, view.modified_at),
{
    let after = before.update(i, view);
    assert(after[i] == view);
    assert forall|e: CachedView| e.path != view.path implies (after.contains(e) <==> before.contains(e)) by {
        if after.contains(e) {
            let k = choose|k: int| 0 <= k < after.len() && after[k] == e;
            assert(k != i);
            assert(before[k] == e);
        }
        if before.contains(e) {
            let k = choose|k: int| 0 <= k < before.len() && before[k] == e;
            assert(k != i);
            assert(after[k] == e);
        }
    }
}

proof fn lemma_rescan_push(before: Seq<CachedView>, view: CachedView)
    requires
        forall|k: int| 0 <= k < before.len() ==> (#[trigger] before[k]).path != view.path,
    ensures
        entries_after_rescan(before, before.push(view), view.path, view.size, view.modified_at),
{
    let after = before.push(view);
    assert(after[before.len() as int] == view);
    assert forall|e: CachedView| e.path != view.path implies (after.contains(e) <==> before.contains(e)) by {
        if after.contains(e) {
            let k = choose|k: int| 0 <= k < after.len() && after[k] == e;
            assert(k != before.len());
            assert(before[k] == e);
        }
        if before.contains(e) {
            let k = choose|k: int| 0 <= k < before.len() && before[k] == e;
            assert(after[k] == e);
        }
    }
}

/// Some described file has the path `p`.
pub open spec fn described_has(d: Seq<FileView>, p: PathView) -> bool {
    exists|k: int| 0 <= k < d.len() && (#[trigger] d[k]).path == p
}

/// No two described files share a path.
pub open spec fn distinct_files(d: Seq<FileView>) -> bool {
    forall|a: int, b: int| 0 <= a < b < d.len() ==> (#[trigger] d[a]).path != (#[trigger] d[b]).path
}

/// How many of the described files `start` holds an entry for, with the
/// same size and modification time.
pub open spec fn reuse_count(start: Seq<CachedView>, d: Seq<FileView>) -> nat
    decreases d.len(),
{
    if d.len() == 0 {
        0
    } else {
        reuse_count(start, d.drop_last()) + if reusable_entry(
            start,
            d.last().path,
            d.last().size,
            d.last().modified_at,
        ) {
            1nat
        } else {
            0nat
        }
    }
}

/// The entries a cached preview starts from: those of the cache when it was
/// filled for the same root, rules and options, else none.
pub open spec fn start_entries(cache: ScanCache, scope: ScopeView) -> Seq<CachedView> {
    if cache.scope() == Some(scope) {
        cache.entries()
    } else {
        Seq::empty()
    }
}

/// What a cached preview that described the files `described` did with a
/// cache that started from `start`, ending with `after` and `stats`: each
/// described file was reused or rescanned; reused files were matched again
/// when some rule has an age criterion; and, when no path was described
/// twice, exactly the files with an unchanged entry in `start` were reused
/// and every described file has an up-to-date entry afterwards.
pub open spec fn cache_counts(
    stats: ScanCacheStats,
    start: Seq<CachedView>,
    after: Seq<CachedView>,
    age: bool,
    described: Seq<FileView>,
) -> bool {
    &&& stats.reused_files + stats.rescanned_files == described.len()
    &&& stats.revalidated_time_sensitive_files == if age {
        stats.reused_files
    } else {
        0
    }
    &&& stats.cached_entries == after.len()
    &&& distinct_files(described) ==> {
        &&& stats.reused_files == reuse_count(start, described)
        &&& forall|k: int|
            0 <= k < described.len() ==> reusable_entry(
                after,
                (#[trigger] described[k]).path,
                described[k].size,
                described[k].modified_at,
            )
    }
}

/// Entries of paths not yet described are as they were at the start.
pub open spec fn untouched_since(start: Seq<CachedView>, cur: Seq<CachedView>, described: Seq<FileView>) -> bool {
    forall|p: PathView, sz: u64, mt: Option<Timestamp>|
        #![trigger reusable_entry(cur, p, sz, mt)]
        #![trigger reusable_entry(start, p, sz, mt)]
        !described_has(described, p) ==> (reusable_entry(cur, p, sz, mt) <==> reusable_entry(start, p, sz, mt))
}

/// With distinct paths so far, the reuse count is exact and every
/// described file has an up-to-date entry.
pub open spec fn reuse_tracked(start: Seq<CachedView>, cur: Seq<CachedView>, described: Seq<FileView>, reused: nat) -> bool {
    distinct_files(described) ==> {
        &&& reused == reuse_count(start, described)
        &&& forall|k: int|
            0 <= k < described.len() ==> reusable_entry(
                cur,
                (#[trigger] described[k]).path,
                described[k].size,
                described[k].modified_at,
            )
    }
}

proof fn lemma_rescan_keeps_others(
    before: Seq<CachedView>,
    after: Seq<CachedView>,
    path: PathView,
    size: u64,
    modified_at: Option<Timestamp>,
    p: PathView,
    sz: u64,
    mt: Option<Timestamp>,
)
    requires
        entries_after_rescan(before, after, path, size, modified_at),
        p != path,
    ensures
        reusable_entry(after, p, sz, mt) <==> reusable_entry(before, p, sz, mt),
{
    if reusable_entry(after, p, sz, mt) {
        let j = choose|j: int| 0 <= j < after.len() && (#[trigger] after[j]).path == p && after[j].size == sz && after[j].modified_at == mt;
        let e = after[j];
        assert(after.contains(e));
        assert(before.contains(e));
        let k = choose|k: int| 0 <= k < before.len() && before[k] == e;
        assert(before[k].path == p);
    }
    if reusable_entry(before, p, sz, mt) {
        let j = choose|j: int| 0 <= j < before.len() && (#[trigger] before[j]).path == p && before[j].size == sz && before[j].modified_at == mt;
        let e = before[j];
        assert(before.contains(e));
        assert(after.contains(e));
        let k = choose|k: int| 0 <= k < after.len() && after[k] == e;
        assert(after[k].path == p);
    }
}

/// One described file keeps the cache bookkeeping exact.
proof fn lemma_cache_step(
    start: Seq<CachedView>,
    before: Seq<CachedView>,
    after: Seq<CachedView>,
    described: Seq<FileView>,
    f: FileView,
    reused0: nat,
    reused1: nat,
)
    requires
        untouched_since(start, before, described),
        reuse_tracked(start, before, described, reused0),
        reusable_entry(before, f.path, f.size, f.modified_at) ==> reused1 == reused0 + 1 && after == before,
        !reusable_entry(before, f.path, f.size, f.modified_at) ==> reused1 == reused0
            && entries_after_rescan(before, after, f.path, f.size, f.modified_at),
    ensures
        untouched_since(start, after, described.push(f)),
        reuse_tracked(start, after, described.push(f), reused1),
{
    let d2 = described.push(f);
    let hit = reusable_entry(before, f.path, f.size, f.modified_at);
    assert forall|p: PathView, sz: u64, mt: Option<Timestamp>|
        !described_has(d2, p) implies (reusable_entry(after, p, sz, mt) <==> reusable_entry(start, p, sz, mt)) by {
        assert(d2[described.len() as int] == f);
        assert(p != f.path);
        if described_has(described, p) {
            let k = choose|k: int| 0 <= k < described.len() && (#[trigger] described[k]).path == p;
            assert(d2[k] == described[k]);
        }
        if !hit {
            lemma_rescan_keeps_others(before, after, f.path, f.size, f.modified_at, p, sz, mt);
        }
    }
    if distinct_files(d2) {
        assert(d2.drop_last() =~= described);
        assert forall|a: int, b: int| 0 <= a < b < described.len() implies (#[trigger] described[a]).path
            != (#[trigger] described[b]).path by {
            assert(d2[a] == described[a] && d2[b] == described[b]);
        }
        assert(!described_has(described, f.path)) by {
            if described_has(described, f.path) {
                let k = choose|k: int| 0 <= k < described.len() && (#[trigger] described[k]).path == f.path;
                assert(d2[k] == described[k]);
                assert(d2[described.len() as int] == f);
            }
        }
        assert(reusable_entry(before, f.path, f.size, f.modified_at) <==> reusable_entry(start, f.path, f.size, f.modified_at));
        assert forall|k: int| 0 <= k < d2.len() implies reusable_entry(
            after,
            (#[trigger] d2[k]).path,
            d2[k].size,
            d2[k].modified_at,
        ) by {
            if k < described.len() {
                assert(d2[k] == described[k]);
                assert(reusable_entry(before, described[k].path, described[k].size, described[k].modified_at));
                if !hit {
                    assert(described[k].path != f.path) by {
                        assert(d2[described.len() as int] == f);
                    }
                    lemma_rescan_keeps_others(before, after, f.path, f.size, f.modified_at, described[k].path, described[k].size, described[k].modified_at);
                }
            } else {
                assert(d2[k] == f);
            }
        }
    }
}

/// Plans one file of a cached preview: an unchanged file keeps its cached
/// description and (without age criteria) its cached matched rule; any
/// other file is described and matched anew and cached. The plan is then
/// made exactly as an uncached preview makes it at time `now`.
pub fn plan_cached_file<'a, F: Fn(&FsPath) -> bool>(
    cache: &mut ScanCache,
    planner: &mut PreviewPlanner<'a>,
    seen: &mut Vec<FsPath>,
    path: &FsPath,
    size: u64,
    modified_at: Option<Timestamp>,
    now: Timestamp,
    occupied: &F,
) -> (r: Result<()>)
    requires
        old(cache).wf(),
        old(planner).wf(),
        old(cache).scope() matches Some(s) && s.root == old(planner).spec_root() && enabled_rules(s.rules)
            == old(planner).rules(),
        old(planner).operations().len() + old(planner).ignored() < old(planner).scanned(),
        old(cache).spec_stats().reused_files < usize::MAX,
        old(cache).spec_stats().rescanned_files < usize::MAX,
        old(cache).spec_stats().revalidated_time_sensitive_files < usize::MAX,
        forall|p: &FsPath| occupied.requires((p,)),
    ensures
        final(cache).wf(),
        final(cache).scope() == old(cache).scope(),
        paths_view(final(seen)@) == paths_view(old(seen)@).push(path@),
        final(planner).rules() == old(planner).rules(),
        final(planner).spec_root() == old(planner).spec_root(),
        final(planner).spec_options() == old(planner).spec_options(),
        final(planner).scanned() == old(planner).scanned(),
        final(planner).errors() == old(planner).errors(),
        final(cache).spec_stats().reused_files + final(cache).spec_stats().rescanned_files
            == old(cache).spec_stats().reused_files + old(cache).spec_stats().rescanned_files + 1,
        final(cache).spec_stats().reused_files >= old(cache).spec_stats().reused_files,
        final(cache).spec_stats().rescanned_files >= old(cache).spec_stats().rescanned_files,
        final(cache).spec_stats().revalidated_time_sensitive_files
            <= old(cache).spec_stats().revalidated_time_sensitive_files + 1,
        final(cache).spec_stats().cached_entries == old(cache).spec_stats().cached_entries,
        r is Ok ==> final(planner).wf(),
        final(planner).planned_from(
            *old(planner),
            described_file(old(planner).spec_root(), path@, size, modified_at),
            now,
            *occupied,
            r,
        ),
        reusable_entry(old(cache).entries(), path@, size, modified_at) ==> {
            &&& final(cache).spec_stats().reused_files == old(cache).spec_stats().reused_files + 1
            &&& final(cache).spec_stats().revalidated_time_sensitive_files
                == old(cache).spec_stats().revalidated_time_sensitive_files + if has_age_criteria(
                old(planner).rules(),
            ) {
                1nat
            } else {
                0nat
            }
            &&& final(cache).entries() == old(cache).entries()
        },
        !reusable_entry(old(cache).entries(), path@, size, modified_at) ==> {
            &&& final(cache).spec_stats().rescanned_files == old(cache).spec_stats().rescanned_files + 1
            &&& final(cache).spec_stats().revalidated_time_sensitive_files
                == old(cache).spec_stats().revalidated_time_sensitive_files
            &&& entries_after_rescan(old(cache).entries(), final(cache).entries(), path@, size, modified_at)
        },
{
    let ghost scope = cache.scope()->0;
    let ghost expected = described_file(planner.spec_root(), path@, size, modified_at);
    let ghost before_seen = seen@;
    seen.push(path.duplicate());
    assert(paths_view(seen@) =~= paths_view(before_seen).push(path@));
    let position = cache.position(path);
    let reusable = match position {
        Some(i) => cache.entries[i].size == size && cache.entries[i].modified_at == modified_at,
        None => false,
    };
    let age = planner.uses_age_criteria();
    let file: FileEntry;
    let matched: Option<usize>;
    if reusable {
        let i = position.unwrap();
        cache.stats.reused_files = cache.stats.reused_files + 1;
        file = cache.entries[i].file.duplicate();
        proof {
            let e = cache.entries()[i as int];
            assert(entry_fits(scope, e));
            assert(e.file == expected);
        }
        if age {
            cache.stats.revalidated_time_sensitive_files = cache.stats.revalidated_time_sensitive_files + 1;
            matched = planner.first_match_at(&file, now);
        } else {
            matched = cache.entries[i].matched_rule_index;
            proof {
                let e = cache.entries()[i as int];
                let t = choose|t: Timestamp| as_nat(e.matched) == #[trigger] first_match(enabled_rules(scope.rules), e.file, t);
                law_first_match_ignores_time(planner.rules(), file@, t, now);
                lemma_first_match_bound(planner.rules(), file@, now);
            }
        }
    } else {
        cache.stats.rescanned_files = cache.stats.rescanned_files + 1;
        file = describe_file_from_metadata(planner.root_path(), path, size, modified_at);
        matched = planner.first_match_at(&file, now);
        let entry = CachedFile {
            path: path.duplicate(),
            size,
            modified_at,
            file: file.duplicate(),
            matched_rule_index: matched,
        };
        let ghost before = cache.entries();
        let ghost view = CachedView { path: path@, size, modified_at, file: file@, matched };
        proof {
            assert(as_nat(matched) == first_match(enabled_rules(scope.rules), file@, now));
            assert(entry_fits(scope, view));
        }
        match position {
            Some(i) => {
                cache.entries.set(i, entry);
                proof {
                    assert(cache.entries() =~= before.update(i as int, view));
                    lemma_rescan_update(before, i as int, view);
                }
            },
            None => {
                cache.entries.push(entry);
                proof {
                    assert(cache.entries() =~= before.push(view));
                    lemma_rescan_push(before, view);
                }
            },
        }
    }
    proof {
        assert(file@ == expected);
    }
    planner.plan_matched(&file, matched, occupied)
}

/// Ends a cached preview: entries of files that the walk did not reach are
/// dropped, and the number of cached entries is recorded.
pub fn finish_cached_scan(cache: &mut ScanCache, seen: &Vec<FsPath>)
    requires
        old(cache).wf(),
    ensures
        final(cache).wf(),
        final(cache).scope() == old(cache).scope(),
        final(cache).entries() == old(cache).entries().filter(|e: CachedView| paths_view(seen@).contains(e.path)),
        final(cache).spec_stats() == (ScanCacheStats { cached_entries: final(cache).entries().len() as usize, ..old(cache).spec_stats() }),
{
    let ghost before = cache.entries();
    let ghost keep = |e: CachedView| paths_view(seen@).contains(e.path);
    let mut old_entries: Vec<CachedFile> = Vec::new();
    std::mem::swap(&mut old_entries, &mut cache.entries);
    let ghost scope = cache.scope()->0;
    let mut kept: Vec<CachedFile> = Vec::new();
    let mut i: usize = 0;
    while i < old_entries.len()
        invariant
            i <= old_entries.len(),
            keep == (|e: CachedView| paths_view(seen@).contains(e.path)),
            before == old_entries@.map_values(
                |c: CachedFile|
                    CachedView {
                        path: c.path@,
                        size: c.size,
                        modified_at: c.modified_at,
                        file: c.file@,
                        matched: c.matched_rule_index,
                    },
            ),
            kept@.map_values(
                |c: CachedFile|
                    CachedView {
                        path: c.path@,
                        size: c.size,
                        modified_at: c.modified_at,
                        file: c.file@,
                        matched: c.matched_rule_index,
                    },
            ) == before.take(i as int).filter(keep),
            forall|k: int| #![trigger kept@[k]] 0 <= k < kept@.len() ==> exists|j: int| 0 <= j < i && #[trigger] before[j] == (CachedView {
                path: kept@[k].path@,
                size: kept@[k].size,
                modified_at: kept@[k].modified_at,
                file: kept@[k].file@,
                matched: kept@[k].matched_rule_index,
            }),
            forall|a: int| 0 <= a < before.len() ==> entry_fits(scope, #[trigger] before[a]),
            forall|a: int, b: int|
                0 <= a < before.len() && 0 <= b < before.len() && a != b ==> (#[trigger] before[a]).path != (#[trigger] before[b]).path,
            forall|a: int, b: int|
                0 <= a < kept@.len() && 0 <= b < kept@.len() && a != b ==> (#[trigger] kept@[a]).path@ != (#[trigger] kept@[b]).path@,
        decreases old_entries.len() - i,
    {
        let mut found = false;
        let mut j: usize = 0;
        while j < seen.len()
            invariant
                j <= seen.len(),
                i < old_entries.len(),
                !found ==> forall|k: int| 0 <= k < j ==> (#[trigger] seen@[k])@ != old_entries@[i as int].path@,
                found ==> paths_view(seen@).contains(old_entries@[i as int].path@),
            decreases seen.len() - j,
        {
            if !found && seen[j].same_as(&old_entries[i].path) {
                found = true;
                assert(paths_view(seen@)[j as int] == old_entries@[i as int].path@);
            }
            j += 1;
        }
        proof {
            if !found {
                assert forall|k: int| 0 <= k < paths_view(seen@).len() implies paths_view(seen@)[k] != old_entries@[i as int].path@ by {
                    assert(paths_view(seen@)[k] == seen@[k]@);
                }
                assert(!paths_view(seen@).contains(old_entries@[i as int].path@));
            }
            let t = before.take(i as int);
            let x = before[i as int];
            assert(before.take(i + 1) =~= t.push(x));
            t.lemma_filter_push(x, keep);
            assert(x.path == old_entries@[i as int].path@);
            if found {
                assert(paths_view(seen@).contains(x.path));
                assert(keep(x));
            } else {
                assert(!paths_view(seen@).contains(x.path));
                assert(!keep(x));
            }
        }
        if found {
            let e = &old_entries[i];
            let copy = CachedFile {
                path: e.path.duplicate(),
                size: e.size,
                modified_at: e.modified_at,
                file: e.file.duplicate(),
                matched_rule_index: e.matched_rule_index,
            };
            let ghost prev = kept@;
            kept.push(copy);
            proof {
                assert(kept@.map_values(
                    |c: CachedFile|
                        CachedView {
                            path: c.path@,
                            size: c.size,
                            modified_at: c.modified_at,
                            file: c.file@,
                            matched: c.matched_rule_index,
                        },
                ) =~= prev.map_values(
                    |c: CachedFile|
                        CachedView {
                            path: c.path@,
                            size: c.size,
                            modified_at: c.modified_at,
                            file: c.file@,
                            matched: c.matched_rule_index,
                        },
                ).push(before[i as int]));
                assert(before[i as int].path == copy.path@);
                assert forall|a: int, b: int|
                    0 <= a < kept@.len() && 0 <= b < kept@.len() && a != b implies (#[trigger] kept@[a]).path@ != (#[trigger] kept@[b]).path@ by {
                    if a < prev.len() && b < prev.len() {
                        assert(kept@[a] == prev[a] && kept@[b] == prev[b]);
                    } else if a < prev.len() {
                        assert(kept@[a] == prev[a]);
                        let j = choose|j: int| 0 <= j < i && #[trigger] before[j] == (CachedView {
                            path: prev[a].path@,
                            size: prev[a].size,
                            modified_at: prev[a].modified_at,
                            file: prev[a].file@,
                            matched: prev[a].matched_rule_index,
                        });
                        assert(before[j].path != before[i as int].path);
                    } else if b < prev.len() {
                        assert(kept@[b] == prev[b]);
                        let j = choose|j: int| 0 <= j < i && #[trigger] before[j] == (CachedView {
                            path: prev[b].path@,
                            size: prev[b].size,
                            modified_at: prev[b].modified_at,
                            file: prev[b].file@,
                            matched: prev[b].matched_rule_index,
                        });
                        assert(before[j].path != before[i as int].path);
                    }
                }
                assert forall|k: int| #![trigger kept@[k]] 0 <= k < kept@.len() implies exists|j: int| 0 <= j < i + 1 && #[trigger] before[j] == (CachedView {
                    path: kept@[k].path@,
                    size: kept@[k].size,
                    modified_at: kept@[k].modified_at,
                    file: kept@[k].file@,
                    matched: kept@[k].matched_rule_index,
                }) by {
                    if k < prev.len() {
                        assert(kept@[k] == prev[k]);
                    } else {
                        assert(before[i as int] == (CachedView {
                            path: kept@[k].path@,
                            size: kept@[k].size,
                            modified_at: kept@[k].modified_at,
                            file: kept@[k].file@,
                            matched: kept@[k].matched_rule_index,
                        }));
                    }
                }
            }
        }
        i += 1;
    }
    proof {
        assert(before.take(old_entries.len() as int) =~= before);
    }
    cache.entries = kept;
    cache.stats.cached_entries = cache.entries.len();
    proof {
        let after = cache.entries();
        assert forall|a: int| 0 <= a < after.len() implies entry_fits(scope, #[trigger] after[a]) by {
            let j = choose|j: int| 0 <= j < old_entries.len() && #[trigger] before[j] == (CachedView {
                path: kept@[a].path@,
                size: kept@[a].size,
                modified_at: kept@[a].modified_at,
                file: kept@[a].file@,
                matched: kept@[a].matched_rule_index,
            });
            assert(entry_fits(scope, before[j]));
        }
        assert forall|a: int, b: int|
            0 <= a < after.len() && 0 <= b < after.len() && a != b implies (#[trigger] after[a]).path != (#[trigger] after[b]).path by {
            assert(kept@[a].path@ != kept@[b].path@);
        }
    }
}


fn kind_of(kind: &Option<String>) -> (r: Option<&str>)
    ensures
        match r {
            Some(k) => kind matches Some(s) && k@ == s@,
            None => kind is None,
        },
{
    match kind {
        Some(k) => Some(k.as_str()),
        None => None,
    }
}

proof fn lemma_count_step(items: Seq<WalkItem>, i: int)
    requires
        0 <= i < items.len(),
    ensures
        file_count(items.take(i + 1)) == file_count(items.take(i)) + if items[i] is Unreadable {
            0nat
        } else {
            1nat
        },
        file_count(items.take(i)) <= i,
    decreases i,
{
    assert(items.take(i + 1).drop_last() =~= items.take(i));
    if i > 0 {
        lemma_count_step(items, i - 1);
    } else {
        assert(items.take(0).len() == 0);
    }
}

/// A dry run over what the walk reported, with the cache: as the uncached
/// preview does, except that a file whose size and modification time are
/// unchanged since the last preview of the same scope keeps its cached
/// description (and, without age criteria, its matched rule), an
/// unreadable file's metadata becomes a walk message, and the cache ends up
/// holding exactly the files this walk reached.
pub fn preview_organization_cached<F, R, C>(
    root: &FsPath,
    rules: &Vec<Rule>,
    options: &ScanOptions,
    items: &Vec<WalkItem>,
    cache: &mut ScanCache,
    occupied: &F,
    resolve: &R,
    clock: &C,
) -> (r: Result<PreviewResult>) where
    F: Fn(&FsPath) -> bool,
    R: Fn(&FsPath) -> std::result::Result<FsPath, String>,
    C: Fn() -> Timestamp,

    requires
        old(cache).wf(),
        forall|p: &FsPath| occupied.requires((p,)),
        forall|p: &FsPath| resolve.requires((p,)),
        clock.requires(()),
    ensures
        final(cache).wf(),
        first_enabled_problem(rules_view(rules@)) matches Some(e) ==> (r matches Err(x) && x@ == e),
        first_enabled_problem(rules_view(rules@)) is None ==> final(cache).scope() == Some(
            ScopeView { root: root@, rules: rules_view(rules@), options: *options },
        ),
        r matches Ok(res) ==> {
            &&& res.scanned_files == file_count(items@)
            &&& res.operations.len() + res.ignored_files <= res.scanned_files
            &&& forall|k: int|
                0 <= k < res.operations.len() ==> walked_before(
                    items@,
                    items.len() as int,
                    (#[trigger] operations_view(res.operations@)[k]).source,
                )
            &&& crate::preview_laws::well_planned(*occupied, operations_view(res.operations@))
            &&& crate::preview_laws::moves_from_walk(
                enabled_rules(rules_view(rules@)),
                root@,
                *clock,
                items@,
                items.len() as int,
                operations_view(res.operations@),
            )
            &&& crate::preview_laws::no_metadata_failures(items@) ==> res.operations.len()
                + res.ignored_files == res.scanned_files
            &&& forall|k: int|
                0 <= k < final(cache).entries().len() ==> walked_before(
                    items@,
                    items.len() as int,
                    (#[trigger] final(cache).entries()[k]).path,
                )
            &&& exists|last: PlanState|
                #[trigger] previewed(
                    enabled_rules(rules_view(rules@)),
                    root@,
                    options.follow_links,
                    *occupied,
                    *resolve,
                    *clock,
                    true,
                    items@,
                    last,
                ) && shows(res, last) && cache_counts(
                    final(cache).spec_stats(),
                    start_entries(
                        *old(cache),
                        ScopeView { root: root@, rules: rules_view(rules@), options: *options },
                    ),
                    final(cache).entries(),
                    has_age_criteria(enabled_rules(rules_view(rules@))),
                    last.described,
                )
        },
        r matches Err(e) ==> first_enabled_problem(rules_view(rules@)) == Some(e@) || (
        e@ matches ErrorView::Io { path, message } && path == root@ && resolve_failed(
            *resolve,
            path,
            message,
        )) || crate::engine::destination_error_of(
            root@,
            enabled_rules(rules_view(rules@)),
            items@,
            e@,
        ),
{
    let ghost scope = ScopeView { root: root@, rules: rules_view(rules@), options: *options };
    let ghost start = start_entries(*cache, scope);
    let mut planner = PreviewPlanner::new(root, rules, options)?;
    cache.prepare_scope(root, rules, options);
    proof {
        if cache.entries().len() == 0 {
            assert(cache.entries() =~= Seq::<CachedView>::empty());
        }
        assert(cache.entries() == start);
    }
    let canonical_root = match resolve(root) {
        Err(message) => {
            proof {
                assert(resolve.ensures((root,), Err(message)));
                assert(resolve_failed(*resolve, root@, message@));
            }
            return Err(SortSmithError::Io { path: root.duplicate(), message });
        },
        Ok(c) => {
            proof {
                assert(resolve.ensures((root,), Ok(c)));
                assert(resolves_to(*resolve, root@, c@));
            }
            c
        },
    };
    let ghost enabled = enabled_rules(rules_view(rules@));
    let ghost age = has_age_criteria(enabled);
    let ghost croot = canonical_root@;
    let ghost follow = options.follow_links;
    let ghost mut described: Seq<FileView> = Seq::empty();
    let ghost mut states: Seq<PlanState> = seq![empty_plan()];
    proof {
        assert(planner.operations() =~= Seq::<crate::models::OperationView>::empty());
        assert(planner.errors() =~= Seq::<Seq<char>>::empty());
        assert(planner.plan_state(described) == empty_plan());
        assert(reuse_count(start, described) == 0);
    }
    let mut seen: Vec<FsPath> = Vec::new();
    proof {
        assert(paths_view(seen@) =~= described.map_values(|f: FileView| f.path));
    }
    let mut i: usize = 0;
    while i < items.len()
        invariant
            i <= items.len(),
            forall|p: &FsPath| occupied.requires((p,)),
            forall|p: &FsPath| resolve.requires((p,)),
            clock.requires(()),
            first_enabled_problem(rules_view(rules@)) is None,
            cache.wf(),
            cache.scope() == Some(scope),
            scope == (ScopeView { root: root@, rules: rules_view(rules@), options: *options }),
            scope.root == root@ && enabled_rules(scope.rules) == enabled,
            planner.wf(),
            planner.rules() == enabled,
            enabled == enabled_rules(rules_view(rules@)),
            age == has_age_criteria(enabled),
            planner.spec_root() == root@,
            planner.spec_options() == *options,
            planner.scanned() == file_count(items@.take(i as int)),
            croot == canonical_root@,
            follow == options.follow_links,
            resolves_to(*resolve, root@, croot),
            states.len() == i + 1,
            states[0] == empty_plan(),
            states[i as int] == planner.plan_state(described),
            forall|j: int| 0 <= j < i ==> #[trigger] walk_step(
                enabled,
                root@,
                croot,
                follow,
                *occupied,
                *resolve,
                *clock,
                true,
                states[j],
                items@[j],
                states[j + 1],
            ),
            described.len() <= i,
            paths_view(seen@) == described.map_values(|f: FileView| f.path),
            cache.spec_stats().reused_files + cache.spec_stats().rescanned_files == described.len(),
            cache.spec_stats().revalidated_time_sensitive_files == if age {
                cache.spec_stats().reused_files
            } else {
                0
            },
            untouched_since(start, cache.entries(), described),
            reuse_tracked(start, cache.entries(), described, cache.spec_stats().reused_files as nat),
            forall|k: int|
                0 <= k < planner.operations().len() ==> walked_before(
                    items@,
                    i as int,
                    #[trigger] planner.operations()[k].source,
                ),
            forall|k: int|
                0 <= k < seen.len() ==> walked_before(items@, i as int, (#[trigger] seen@[k])@),
        decreases items.len() - i,
    {
        proof {
            lemma_count_step(items@, i as int);
            planner.lemma_counts();
        }
        let ghost s = states[i as int];
        match &items[i] {
            WalkItem::Unreadable { kind } => {
                planner.note_walk_error(walk_error_text(kind_of(kind)));
            },
            WalkItem::FileWithoutMetadata { path, kind, .. } => {
                planner.note_file_seen();
                if options.follow_links && !entry_within_root(path, &canonical_root, resolve) {
                    planner.note_outside_link();
                } else {
                    planner.note_walk_error(walk_error_text(kind_of(kind)));
                }
            },
            WalkItem::File { path, size, modified_at } => {
                planner.note_file_seen();
                if options.follow_links && !entry_within_root(path, &canonical_root, resolve) {
                    planner.note_outside_link();
                } else {
                    let ghost before = planner.operations();
                    let ghost before_seen = seen@;
                    let ghost p0 = planner;
                    let ghost c0 = cache.entries();
                    let ghost reused0 = cache.spec_stats().reused_files as nat;
                    let now = clock();
                    proof {
                        p0.lemma_reserved();
                    }
                    let planned = plan_cached_file(
                        cache,
                        &mut planner,
                        &mut seen,
                        path,
                        *size,
                        *modified_at,
                        now,
                        occupied,
                    );
                    let ghost file = described_file(root@, path@, *size, *modified_at);
                    match planned {
                        Ok(()) => {},
                        Err(e) => {
                            proof {
                                lemma_first_match_bound(enabled, file, now);
                                let k = first_match(enabled, file, now)->0 as int;
                                assert(crate::engine::file_gets_error(root@, enabled[k], items@[i as int], e@));
                            }
                            return Err(e);
                        },
                    }
                    proof {
                        lemma_cache_step(
                            start,
                            c0,
                            cache.entries(),
                            described,
                            file,
                            reused0,
                            cache.spec_stats().reused_files as nat,
                        );
                        let ghost d0 = described;
                        described = described.push(file);
                        assert(described.map_values(|f: FileView| f.path) =~= d0.map_values(|f: FileView| f.path).push(path@));
                        let t = planner.plan_state(described);
                        assert(file_planned(enabled, root@, *occupied, s, file, now, t));
                        assert forall|k: int| 0 <= k < planner.operations().len() implies walked_before(
                            items@,
                            i + 1,
                            #[trigger] planner.operations()[k].source,
                        ) by {
                            if k < before.len() {
                                assert(planner.operations()[k] == before[k]);
                                let j = choose|j: int| 0 <= j < i && is_file_at(#[trigger] items@[j], before[k].source);
                            } else {
                                assert(is_file_at(items@[i as int], planner.operations()[k].source));
                            }
                        }
                        assert forall|k: int| 0 <= k < seen.len() implies walked_before(
                            items@,
                            i + 1,
                            (#[trigger] seen@[k])@,
                        ) by {
                            assert(paths_view(seen@)[k] == seen@[k]@);
                            if k < before_seen.len() {
                                assert(paths_view(before_seen)[k] == before_seen[k]@);
                                let j = choose|j: int| 0 <= j < i && is_file_at(#[trigger] items@[j], before_seen[k]@);
                            } else {
                                assert(paths_view(seen@).len() == seen@.len());
                                assert(paths_view(before_seen).len() == before_seen.len());
                                assert(k == before_seen.len());
                                assert(paths_view(seen@)[k] == path@);
                                assert(is_file_at(items@[i as int], seen@[k]@));
                            }
                        }
                    }
                }
            },
        }
        proof {
            let t = planner.plan_state(described);
            assert(walk_step(enabled, root@, croot, follow, *occupied, *resolve, *clock, true, s, items@[i as int], t));
            let old_states = states;
            states = states.push(t);
            assert forall|j: int| 0 <= j < i + 1 implies #[trigger] walk_step(
                enabled,
                root@,
                croot,
                follow,
                *occupied,
                *resolve,
                *clock,
                true,
                states[j],
                items@[j],
                states[j + 1],
            ) by {
                if j < i {
                    assert(states[j] == old_states[j] && states[j + 1] == old_states[j + 1]);
                }
            }
            assert forall|k: int| 0 <= k < planner.operations().len() implies walked_before(
                items@,
                i + 1,
                #[trigger] planner.operations()[k].source,
            ) by {
                if walked_before(items@, i as int, planner.operations()[k].source) {
                    let j = choose|j: int| 0 <= j < i && is_file_at(#[trigger] items@[j], planner.operations()[k].source);
                    assert(0 <= j < i + 1);
                }
            }
            assert forall|k: int| 0 <= k < seen.len() implies walked_before(
                items@,
                i + 1,
                (#[trigger] seen@[k])@,
            ) by {
                if walked_before(items@, i as int, seen@[k]@) {
                    let j = choose|j: int| 0 <= j < i && is_file_at(#[trigger] items@[j], seen@[k]@);
                    assert(0 <= j < i + 1);
                }
            }
        }
        i += 1;
    }
    assert(items@.take(items.len() as int) =~= items@);
    let ghost before_finish = cache.entries();
    finish_cached_scan(cache, &seen);
    proof {
        planner.lemma_counts();
        assert(cache.entries().len() == cache.entries@.len());
        assert(cache.entries@.len() == cache.entries.len());
        assert(cache.spec_stats().cached_entries == cache.entries().len());
        let kept = cache.entries();
        assert forall|k: int| 0 <= k < kept.len() implies walked_before(
            items@,
            items.len() as int,
            (#[trigger] kept[k]).path,
        ) by {
            let e = kept[k];
            assert(kept.contains(e));
            assert(paths_view(seen@).contains(e.path));
            let m = choose|m: int| 0 <= m < paths_view(seen@).len() && paths_view(seen@)[m] == e.path;
            assert(paths_view(seen@)[m] == seen@[m]@);
        }
        let keep = |e: CachedView| paths_view(seen@).contains(e.path);
        if distinct_files(described) {
            assert forall|k: int| 0 <= k < described.len() implies reusable_entry(
                kept,
                (#[trigger] described[k]).path,
                described[k].size,
                described[k].modified_at,
            ) by {
                let f = described[k];
                let j = choose|j: int| 0 <= j < before_finish.len() && (#[trigger] before_finish[j]).path == f.path
                    && before_finish[j].size == f.size && before_finish[j].modified_at == f.modified_at;
                assert(described.map_values(|f: FileView| f.path)[k] == f.path);
                assert(paths_view(seen@).contains(f.path));
                assert(keep(before_finish[j]));
                before_finish.lemma_filter_contains(keep, j);
                assert(kept.contains(before_finish[j]));
                let m = choose|m: int| 0 <= m < kept.len() && kept[m] == before_finish[j];
                assert(kept[m].path == f.path);
            }
        }
    }
    let ghost last = planner.plan_state(described);
    let res = planner.finish();
    proof {
        assert(preview_run(enabled, root@, croot, follow, *occupied, *resolve, *clock, true, items@, states));
        assert(previewed(enabled, root@, follow, *occupied, *resolve, *clock, true, items@, last));
        crate::preview_laws::law_previewed_moves_are_well_planned(
            enabled,
            root@,
            follow,
            *occupied,
            *resolve,
            *clock,
            true,
            items@,
            last,
        );
        crate::preview_laws::law_moves_follow_first_matching_rule(
            enabled,
            root@,
            follow,
            *occupied,
            *resolve,
            *clock,
            true,
            items@,
            last,
        );
        crate::preview_laws::law_every_scanned_file_is_decided(
            enabled,
            root@,
            follow,
            *occupied,
            *resolve,
            *clock,
            true,
            items@,
            last,
        );
        assert(shows(res, last));
        assert(cache_counts(cache.spec_stats(), start, cache.entries(), age, last.described));
    }
    Ok(res)
}

/// Law: a cache with no scope (new or cleared), or filled for another root,
/// rule list or options, gives a cached preview no entry to reuse: with
/// distinct paths, every described file is rescanned.
pub proof fn law_cleared_cache_reuses_nothing(cache: ScanCache, scope: ScopeView, described: Seq<FileView>)
    requires
        cache.scope() != Some(scope),
    ensures
        reuse_count(start_entries(cache, scope), described) == 0,
    decreases described.len(),
{
    if described.len() > 0 {
        law_cleared_cache_reuses_nothing(cache, scope, described.drop_last());
    }
}

/// Law: when the cache holds an unchanged entry for every described file,
/// every one of them is reused.
pub proof fn law_unchanged_files_are_all_reused(start: Seq<CachedView>, described: Seq<FileView>)
    requires
        forall|k: int|
            0 <= k < described.len() ==> reusable_entry(
                start,
                (#[trigger] described[k]).path,
                described[k].size,
                described[k].modified_at,
            ),
    ensures
        reuse_count(start, described) == described.len(),
    decreases described.len(),
{
    if described.len() > 0 {
        let init = described.drop_last();
        assert forall|k: int| 0 <= k < init.len() implies reusable_entry(
            start,
            (#[trigger] init[k]).path,
            init[k].size,
            init[k].modified_at,
        ) by {
            assert(init[k] == described[k]);
        }
        law_unchanged_files_are_all_reused(start, init);
        assert(described.last() == described[described.len() - 1]);
    }
}

} // verus!

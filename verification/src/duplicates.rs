//! Duplicate candidates: files of equal size are hashed, and files of equal
//! size and equal content hash are grouped. Nothing is deleted.
use vstd::prelude::*;
use crate::models::{DuplicateFile, DuplicateGroup};
use crate::paths::{FsPath, PathView};
use crate::text::{chars_of, copy_string};

verus! {

/// A scanned file: its path and size.
pub struct SizedFile {
    pub path: FsPath,
    pub size: u64,
}

/// A file with the hash of its content.
pub struct HashedFile {
    pub path: FsPath,
    pub size: u64,
    pub hash: String,
}

/// The BLAKE3 hash of `data`, as lower-case hexadecimal text.
pub uninterp spec fn blake3_hex(data: Seq<u8>) -> Seq<char>;

/// `blake3::hash(data).to_hex()`: the BLAKE3 hash of the content, as 64
/// lower-case hexadecimal digits (a 32-byte hash, two digits per byte).
#[verifier::external_body]
pub(crate) fn content_hash(data: &[u8]) -> (r: String)
    ensures
        r@ == blake3_hex(data@),
        r@.len() == 64,
{
    blake3::hash(data).to_hex().to_string()
}

/// A scanned file with the hash of its content.
pub fn hash_file(file: &SizedFile, content: &[u8]) -> (r: HashedFile)
    ensures
        r.path@ == file.path@,
        r.size == file.size,
        r.hash@ == blake3_hex(content@),
{
    HashedFile { path: file.path.duplicate(), size: file.size, hash: content_hash(content) }
}

pub open spec fn sized_view(v: Seq<SizedFile>) -> Seq<(PathView, u64)> {
    v.map_values(|f: SizedFile| (f.path@, f.size))
}

pub open spec fn hashed_view(v: Seq<HashedFile>) -> Seq<(PathView, u64, Seq<char>)> {
    v.map_values(|f: HashedFile| (f.path@, f.size, f.hash@))
}

/// How many files have `size`.
pub open spec fn size_count(files: Seq<(PathView, u64)>, size: u64) -> nat
    decreases files.len(),
{
    if files.len() == 0 {
        0
    } else {
        size_count(files.drop_last(), size) + if files.last().1 == size {
            1nat
        } else {
            0nat
        }
    }
}

/// The files of `part` whose size is shared by two files of `all`, in order.
pub open spec fn shared_size_files(all: Seq<(PathView, u64)>, part: Seq<(PathView, u64)>) -> Seq<(PathView, u64)>
    decreases part.len(),
{
    if part.len() == 0 {
        Seq::empty()
    } else {
        let prev = shared_size_files(all, part.drop_last());
        if size_count(all, part.last().1) >= 2 {
            prev.push(part.last())
        } else {
            prev
        }
    }
}

/// The files whose size another file shares, in scan order: the only files
/// worth hashing.
pub open spec fn size_candidates_of(files: Seq<(PathView, u64)>) -> Seq<(PathView, u64)> {
    shared_size_files(files, files)
}

fn count_size(files: &Vec<SizedFile>, size: u64) -> (n: usize)
    ensures
        n as nat == size_count(sized_view(files@), size),
{
    let ghost all = sized_view(files@);
    let mut n: usize = 0;
    let mut i: usize = 0;
    while i < files.len()
        invariant
            all == sized_view(files@),
            i <= files.len(),
            n as nat == size_count(all.take(i as int), size),
            n <= i,
        decreases files.len() - i,
    {
        proof {
            assert(all.take(i + 1).drop_last() =~= all.take(i as int));
        }
        if files[i].size == size {
            n += 1;
        }
        i += 1;
    }
    assert(all.take(files.len() as int) =~= all);
    n
}

/// The files that share their size with another file, in scan order.
pub fn size_candidates(files: &Vec<SizedFile>) -> (r: Vec<SizedFile>)
    ensures
        sized_view(r@) == size_candidates_of(sized_view(files@)),
{
    let ghost all = sized_view(files@);
    let mut r: Vec<SizedFile> = Vec::new();
    let mut i: usize = 0;
    while i < files.len()
        invariant
            all == sized_view(files@),
            i <= files.len(),
            sized_view(r@) == shared_size_files(all, all.take(i as int)),
        decreases files.len() - i,
    {
        proof {
            assert(all.take(i + 1).drop_last() =~= all.take(i as int));
        }
        let n = count_size(files, files[i].size);
        if n >= 2 {
            let ghost before = r@;
            r.push(SizedFile { path: files[i].path.duplicate(), size: files[i].size });
            proof {
                assert(sized_view(r@) =~= sized_view(before).push(all[i as int]));
            }
        }
        i += 1;
    }
    assert(all.take(files.len() as int) =~= all);
    r
}

/// Two different scanned files have this size.
pub open spec fn size_shared(files: Seq<(PathView, u64)>, size: u64) -> bool {
    exists|j: int, k: int|
        0 <= j < files.len() && 0 <= k < files.len() && j != k && #[trigger] files[j].1 == size
            && #[trigger] files[k].1 == size
}

proof fn lemma_count_one(all: Seq<(PathView, u64)>, j: int)
    requires
        0 <= j < all.len(),
    ensures
        size_count(all, all[j].1) >= 1,
    decreases all.len(),
{
    if j < all.len() - 1 {
        assert(all.drop_last()[j] == all[j]);
        lemma_count_one(all.drop_last(), j);
    }
}

proof fn lemma_count_two(all: Seq<(PathView, u64)>, j: int, k: int)
    requires
        0 <= j < k < all.len(),
        all[j].1 == all[k].1,
    ensures
        size_count(all, all[j].1) >= 2,
    decreases all.len(),
{
    let init = all.drop_last();
    assert(init[j] == all[j]);
    if k == all.len() - 1 {
        lemma_count_one(init, j);
    } else {
        assert(init[k] == all[k]);
        lemma_count_two(init, j, k);
    }
}

proof fn lemma_count_witness(all: Seq<(PathView, u64)>, size: u64)
    requires
        size_count(all, size) >= 2,
    ensures
        size_shared(all, size),
    decreases all.len(),
{
    let init = all.drop_last();
    if all.last().1 != size {
        lemma_count_witness(init, size);
        let (j, k) = choose|j: int, k: int|
            0 <= j < init.len() && 0 <= k < init.len() && j != k && #[trigger] init[j].1 == size
                && #[trigger] init[k].1 == size;
        assert(all[j] == init[j] && all[k] == init[k]);
    } else {
        assert(size_count(init, size) >= 1);
        let j = lemma_count_index(init, size);
        assert(all[j] == init[j]);
        assert(all[all.len() - 1] == all.last());
        assert(all[j].1 == size && all[all.len() - 1].1 == size);
    }
}

proof fn lemma_count_index(all: Seq<(PathView, u64)>, size: u64) -> (j: int)
    requires
        size_count(all, size) >= 1,
    ensures
        0 <= j < all.len(),
        all[j].1 == size,
    decreases all.len(),
{
    if all.last().1 == size {
        all.len() - 1
    } else {
        let j = lemma_count_index(all.drop_last(), size);
        assert(all.drop_last()[j] == all[j]);
        j
    }
}

proof fn lemma_shared_files(all: Seq<(PathView, u64)>, part: Seq<(PathView, u64)>)
    ensures
        forall|j: int|
            0 <= j < part.len() && size_count(all, (#[trigger] part[j]).1) >= 2 ==> shared_size_files(
                all,
                part,
            ).contains(part[j]),
        forall|x: (PathView, u64)|
            #[trigger] shared_size_files(all, part).contains(x) ==> part.contains(x) && size_count(
                all,
                x.1,
            ) >= 2,
    decreases part.len(),
{
    if part.len() > 0 {
        let init = part.drop_last();
        lemma_shared_files(all, init);
        let prev = shared_size_files(all, init);
        let cur = shared_size_files(all, part);
        assert forall|j: int|
            0 <= j < part.len() && size_count(all, (#[trigger] part[j]).1) >= 2 implies cur.contains(part[j]) by {
            if j < init.len() {
                assert(init[j] == part[j]);
                assert(prev.contains(part[j]));
                let m = choose|m: int| 0 <= m < prev.len() && prev[m] == part[j];
                if cur != prev {
                    assert(cur == prev.push(part.last()));
                    assert(cur[m] == prev[m]);
                }
            } else {
                assert(cur == prev.push(part.last()));
                assert(cur[prev.len() as int] == part[j]);
            }
        }
        assert forall|x: (PathView, u64)| #[trigger] cur.contains(x) implies part.contains(x) && size_count(
            all,
            x.1,
        ) >= 2 by {
            let m = choose|m: int| 0 <= m < cur.len() && cur[m] == x;
            if m < prev.len() {
                assert(cur[m] == prev[m]);
                assert(prev.contains(x));
                let q = choose|q: int| 0 <= q < init.len() && init[q] == x;
                assert(part[q] == init[q]);
            } else {
                assert(part[part.len() - 1] == part.last());
            }
        }
    }
}

/// Law: a scanned file is a size candidate exactly when another scanned
/// file has the same size: every file of a shared size (two copies, three
/// or more) is hashed, and no file of a size no other file has.
pub proof fn law_size_candidates_are_the_shared_sizes(files: Seq<(PathView, u64)>)
    ensures
        forall|j: int, k: int|
            0 <= j < files.len() && 0 <= k < files.len() && j != k && (#[trigger] files[j]).1 == (
            #[trigger] files[k]).1 ==> size_candidates_of(files).contains(files[j]),
        forall|x: (PathView, u64)|
            #[trigger] size_candidates_of(files).contains(x) ==> files.contains(x) && size_shared(files, x.1),
{
    lemma_shared_files(files, files);
    assert forall|j: int, k: int|
        0 <= j < files.len() && 0 <= k < files.len() && j != k && (#[trigger] files[j]).1 == (
        #[trigger] files[k]).1 implies size_candidates_of(files).contains(files[j]) by {
        if j < k {
            lemma_count_two(files, j, k);
        } else {
            lemma_count_two(files, k, j);
        }
    }
    assert forall|x: (PathView, u64)| #[trigger] size_candidates_of(files).contains(x) implies files.contains(x)
        && size_shared(files, x.1) by {
        lemma_count_witness(files, x.1);
    }
}

/// Lexicographic order of texts, by character.
pub open spec fn text_less(a: Seq<char>, b: Seq<char>) -> bool
    decreases a.len(),
{
    if a.len() == 0 {
        b.len() > 0
    } else if b.len() == 0 {
        false
    } else if a[0] != b[0] {
        a[0] < b[0]
    } else {
        text_less(a.skip(1), b.skip(1))
    }
}

/// No text is before itself.
pub proof fn lemma_text_less_irreflexive(a: Seq<char>)
    ensures
        !text_less(a, a),
    decreases a.len(),
{
    if a.len() > 0 {
        lemma_text_less_irreflexive(a.skip(1));
    }
}

/// The order of texts is transitive.
pub proof fn lemma_text_less_transitive(a: Seq<char>, b: Seq<char>, c: Seq<char>)
    requires
        text_less(a, b),
        text_less(b, c),
    ensures
        text_less(a, c),
    decreases a.len(),
{
    if a.len() > 0 && b.len() > 0 && c.len() > 0 && a[0] == b[0] && b[0] == c[0] {
        lemma_text_less_transitive(a.skip(1), b.skip(1), c.skip(1));
    }
}

/// Of two different texts, one is before the other.
pub proof fn lemma_text_less_total(a: Seq<char>, b: Seq<char>)
    ensures
        a == b || text_less(a, b) || text_less(b, a),
    decreases a.len(),
{
    if a.len() > 0 && b.len() > 0 && a[0] == b[0] {
        lemma_text_less_total(a.skip(1), b.skip(1));
        if a.skip(1) == b.skip(1) {
            assert(a =~= seq![a[0]] + a.skip(1));
            assert(b =~= seq![b[0]] + b.skip(1));
        }
    } else if a.len() == 0 && b.len() == 0 {
        assert(a =~= b);
    } else if a.len() > 0 && b.len() > 0 {
        if a[0] < b[0] {
            assert(text_less(a, b));
        } else {
            assert(text_less(b, a));
        }
    }
}

fn text_less_exec(a: &Vec<char>, b: &Vec<char>) -> (r: bool)
    ensures
        r == text_less(a@, b@),
{
    let mut i: usize = 0;
    assert(a@.skip(0) =~= a@);
    assert(b@.skip(0) =~= b@);
    while i < a.len() && i < b.len() && a[i] == b[i]
        invariant
            i <= a.len(),
            i <= b.len(),
            text_less(a@, b@) == text_less(a@.skip(i as int), b@.skip(i as int)),
        decreases a.len() - i,
    {
        assert(a@.skip(i as int).skip(1) =~= a@.skip(i + 1));
        assert(b@.skip(i as int).skip(1) =~= b@.skip(i + 1));
        i += 1;
    }
    if i == a.len() {
        i < b.len()
    } else if i == b.len() {
        false
    } else {
        a[i] < b[i]
    }
}

/// The order of duplicate groups: larger files first, then by hash.
pub open spec fn group_before(a: (u64, Seq<char>), b: (u64, Seq<char>)) -> bool {
    a.0 > b.0 || (a.0 == b.0 && text_less(a.1, b.1))
}

pub struct GroupView {
    pub hash: Seq<char>,
    pub size: u64,
    pub files: Seq<(PathView, u64)>,
}

pub open spec fn group_view(g: DuplicateGroup) -> GroupView {
    GroupView {
        hash: g.hash@,
        size: g.size,
        files: g.files@.map_values(|f: DuplicateFile| (f.path@, f.size)),
    }
}

pub open spec fn groups_view(v: Seq<DuplicateGroup>) -> Seq<GroupView> {
    v.map_values(|g: DuplicateGroup| group_view(g))
}

/// The hashed files with the key `(size, hash)`, as duplicate files.
pub open spec fn members(hashed: Seq<(PathView, u64, Seq<char>)>, size: u64, hash: Seq<char>) -> Seq<(PathView, u64)>
    decreases hashed.len(),
{
    if hashed.len() == 0 {
        Seq::empty()
    } else {
        let prev = members(hashed.drop_last(), size, hash);
        let f = hashed.last();
        if f.1 == size && f.2 == hash {
            prev.push((f.0, f.1))
        } else {
            prev
        }
    }
}

/// The duplicate groups of hashed files: one group for every `(size, hash)`
/// that at least two files share, with those files in scan order; larger
/// sizes first, equal sizes by hash.
pub open spec fn duplicate_groups_of(hashed: Seq<(PathView, u64, Seq<char>)>, groups: Seq<GroupView>) -> bool {
    &&& forall|i: int| 0 <= i < groups.len() ==> (#[trigger] groups[i]).files == members(hashed, groups[i].size, groups[i].hash)
    &&& forall|i: int| 0 <= i < groups.len() ==> (#[trigger] groups[i]).files.len() >= 2
    &&& forall|k: int|
        0 <= k < hashed.len() && members(hashed, #[trigger] hashed[k].1, hashed[k].2).len() >= 2 ==> exists|i: int|
            0 <= i < groups.len() && groups[i].size == hashed[k].1 && groups[i].hash == hashed[k].2
    &&& forall|i: int, j: int|
        0 <= i < j < groups.len() ==> group_before((#[trigger] groups[i].size, groups[i].hash), (#[trigger] groups[j].size, groups[j].hash))
}


proof fn lemma_group_order(a: (u64, Seq<char>), b: (u64, Seq<char>), c: (u64, Seq<char>))
    ensures
        !group_before(a, a),
        a != b ==> group_before(a, b) || group_before(b, a),
        group_before(a, b) && group_before(b, c) ==> group_before(a, c),
{
    lemma_text_less_irreflexive(a.1);
    lemma_text_less_total(a.1, b.1);
    if group_before(a, b) && group_before(b, c) && a.0 == b.0 && b.0 == c.0 {
        lemma_text_less_transitive(a.1, b.1, c.1);
    }
}

pub open spec fn key_of(f: (PathView, u64, Seq<char>)) -> (u64, Seq<char>) {
    (f.1, f.2)
}

pub open spec fn group_key(g: GroupView) -> (u64, Seq<char>) {
    (g.size, g.hash)
}

fn same_key(a: &HashedFile, b: &HashedFile) -> (r: bool)
    ensures
        r == ((a.size, a.hash@) == (b.size, b.hash@)),
{
    a.size == b.size && crate::text::str_eq(a.hash.as_str(), b.hash.as_str())
}

fn group_members(hashed: &Vec<HashedFile>, size: u64, hash: &String) -> (r: Vec<DuplicateFile>)
    ensures
        r@.map_values(|f: DuplicateFile| (f.path@, f.size)) == members(hashed_view(hashed@), size, hash@),
{
    let ghost all = hashed_view(hashed@);
    let mut r: Vec<DuplicateFile> = Vec::new();
    let mut k: usize = 0;
    while k < hashed.len()
        invariant
            all == hashed_view(hashed@),
            k <= hashed.len(),
            r@.map_values(|f: DuplicateFile| (f.path@, f.size)) == members(all.take(k as int), size, hash@),
        decreases hashed.len() - k,
    {
        proof {
            assert(all.take(k + 1).drop_last() =~= all.take(k as int));
        }
        if hashed[k].size == size && crate::text::str_eq(hashed[k].hash.as_str(), hash.as_str()) {
            let ghost before = r@;
            r.push(DuplicateFile { path: hashed[k].path.duplicate(), size: hashed[k].size });
            proof {
                assert(r@.map_values(|f: DuplicateFile| (f.path@, f.size)) =~= before.map_values(
                    |f: DuplicateFile| (f.path@, f.size),
                ).push((hashed@[k as int].path@, hashed@[k as int].size)));
            }
        }
        k += 1;
    }
    assert(all.take(hashed.len() as int) =~= all);
    r
}

proof fn lemma_members_same_key(h: Seq<(PathView, u64, Seq<char>)>, a: int, b: int)
    requires
        0 <= a < h.len(),
        0 <= b < h.len(),
        key_of(h[a]) == key_of(h[b]),
    ensures
        members(h, h[a].1, h[a].2) == members(h, h[b].1, h[b].2),
{
}

pub open spec fn sorted_groups(g: Seq<GroupView>) -> bool {
    forall|a: int, b: int| 0 <= a < b < g.len() ==> group_before(group_key(#[trigger] g[a]), group_key(#[trigger] g[b]))
}

fn goes_before(a: &DuplicateGroup, b: &DuplicateGroup) -> (r: bool)
    ensures
        r == group_before(group_key(group_view(*a)), group_key(group_view(*b))),
{
    a.size > b.size || (a.size == b.size && text_less_exec(&chars_of(a.hash.as_str()), &chars_of(b.hash.as_str())))
}

/// Inserts a group with a new key at its place in a sorted list.
fn insert_group(groups: &mut Vec<DuplicateGroup>, group: DuplicateGroup) -> (p: usize)
    requires
        sorted_groups(groups_view(old(groups)@)),
        forall|q: int| 0 <= q < old(groups)@.len() ==> group_key(#[trigger] groups_view(old(groups)@)[q]) != group_key(group_view(group)),
    ensures
        p <= old(groups)@.len(),
        groups_view(final(groups)@) == groups_view(old(groups)@).insert(p as int, group_view(group)),
        sorted_groups(groups_view(final(groups)@)),
{
    let ghost new_key = group_key(group_view(group));
    let ghost old_groups = groups_view(groups@);
    let mut p: usize = 0;
    loop
        invariant
            p <= groups@.len(),
            groups_view(groups@) == old_groups,
            new_key == group_key(group_view(group)),
            forall|q: int| 0 <= q < p ==> !group_before(new_key, group_key(#[trigger] old_groups[q])),
        ensures
            p <= groups@.len(),
            groups_view(groups@) == old_groups,
            forall|q: int| 0 <= q < p ==> !group_before(new_key, group_key(#[trigger] old_groups[q])),
            p < groups@.len() ==> group_before(new_key, group_key(old_groups[p as int])),
        decreases groups@.len() - p,
    {
        if p == groups.len() {
            break;
        }
        if goes_before(&group, &groups[p]) {
            assert(old_groups[p as int] == group_view(groups@[p as int]));
            break;
        }
        assert(old_groups[p as int] == group_view(groups@[p as int]));
        p += 1;
    }
    groups.insert(p, group);
    proof {
        let ng = groups_view(groups@);
        assert(ng =~= old_groups.insert(p as int, group_view(group)));
        assert forall|a: int, b: int| 0 <= a < b < ng.len() implies group_before(
            group_key(#[trigger] ng[a]),
            group_key(#[trigger] ng[b]),
        ) by {
            if b < p {
                assert(ng[a] == old_groups[a] && ng[b] == old_groups[b]);
            } else if b == p {
                assert(ng[a] == old_groups[a]);
                lemma_group_order(group_key(old_groups[a]), new_key, new_key);
                lemma_group_order(new_key, group_key(old_groups[a]), new_key);
            } else if a == p {
                assert(ng[b] == old_groups[b - 1]);
                if b - 1 > p {
                    lemma_group_order(new_key, group_key(old_groups[p as int]), group_key(old_groups[b - 1]));
                }
            } else if a < p {
                assert(ng[a] == old_groups[a] && ng[b] == old_groups[b - 1]);
            } else {
                assert(ng[a] == old_groups[a - 1] && ng[b] == old_groups[b - 1]);
            }
        }
    }
    p
}

pub open spec fn groups_inv(all: Seq<(PathView, u64, Seq<char>)>, g: Seq<GroupView>, i: int) -> bool {
    &&& forall|x: int| 0 <= x < g.len() ==> (#[trigger] g[x]).files == members(all, g[x].size, g[x].hash) && g[x].files.len() >= 2
    &&& forall|x: int| 0 <= x < g.len() ==> exists|k: int| 0 <= k < i && key_of(all[k]) == group_key(#[trigger] g[x])
    &&& forall|k: int|
        0 <= k < i && members(all, #[trigger] all[k].1, all[k].2).len() >= 2 ==> exists|x: int|
            0 <= x < g.len() && #[trigger] group_key(g[x]) == key_of(all[k])
    &&& sorted_groups(g)
}

#[verifier::rlimit(30)]
fn absorb(groups: &mut Vec<DuplicateGroup>, hashed: &Vec<HashedFile>, i: usize)
    requires
        i < hashed.len(),
        groups_inv(hashed_view(hashed@), groups_view(old(groups)@), i as int),
    ensures
        groups_inv(hashed_view(hashed@), groups_view(final(groups)@), i + 1),
{
    let ghost all = hashed_view(hashed@);
    let ghost old_groups = groups_view(groups@);
    let mut seen = false;
    let mut j: usize = 0;
    while j < i
        invariant
            i < hashed.len(),
            j <= i,
            all == hashed_view(hashed@),
            !seen ==> forall|q: int| 0 <= q < j ==> key_of(#[trigger] all[q]) != key_of(all[i as int]),
            seen ==> exists|q: int| 0 <= q < i && key_of(#[trigger] all[q]) == key_of(all[i as int]),
        decreases i - j,
    {
        if !seen && same_key(&hashed[j], &hashed[i]) {
            seen = true;
            assert(key_of(all[j as int]) == key_of(all[i as int]));
        }
        j += 1;
    }
    if seen {
        proof {
            let q = choose|q: int| 0 <= q < i && key_of(#[trigger] all[q]) == key_of(all[i as int]);
            lemma_members_same_key(all, q, i as int);
            assert forall|x: int| 0 <= x < old_groups.len() implies exists|k: int|
                0 <= k < i + 1 && key_of(all[k]) == group_key(#[trigger] old_groups[x]) by {
                let k = choose|k: int| 0 <= k < i && key_of(all[k]) == group_key(old_groups[x]);
            }
            assert forall|k: int|
                0 <= k < i + 1 && members(all, #[trigger] all[k].1, all[k].2).len() >= 2 implies exists|x: int|
                    0 <= x < old_groups.len() && #[trigger] group_key(old_groups[x]) == key_of(all[k]) by {
                if k == i {
                    assert(members(all, all[q].1, all[q].2).len() >= 2);
                    let x = choose|x: int| 0 <= x < old_groups.len() && #[trigger] group_key(old_groups[x]) == key_of(all[q]);
                }
            }
        }
        return;
    }
    let files = group_members(hashed, hashed[i].size, &hashed[i].hash);
    if files.len() < 2 {
        proof {
            assert forall|x: int| 0 <= x < old_groups.len() implies exists|k: int|
                0 <= k < i + 1 && key_of(all[k]) == group_key(#[trigger] old_groups[x]) by {
                let k = choose|k: int| 0 <= k < i && key_of(all[k]) == group_key(old_groups[x]);
            }
            assert forall|k: int|
                0 <= k < i + 1 && members(all, #[trigger] all[k].1, all[k].2).len() >= 2 implies exists|x: int|
                    0 <= x < old_groups.len() && #[trigger] group_key(old_groups[x]) == key_of(all[k]) by {
                if k == i {
                    assert(members(all, all[k].1, all[k].2).len() < 2);
                }
            }
        }
        return;
    }
    let ghost new_key = key_of(all[i as int]);
    let group = DuplicateGroup { hash: copy_string(&hashed[i].hash), size: hashed[i].size, files };
    assert(group_key(group_view(group)) == new_key);
    proof {
        assert forall|q: int| 0 <= q < old_groups.len() implies group_key(#[trigger] old_groups[q]) != new_key by {
            let k = choose|k: int| 0 <= k < i && key_of(all[k]) == group_key(old_groups[q]);
            if group_key(old_groups[q]) == new_key {
                assert(key_of(all[k]) == key_of(all[i as int]));
            }
        }
    }
    let p = insert_group(groups, group);
    proof {
        let ng = groups_view(groups@);
        assert forall|x: int| 0 <= x < ng.len() implies exists|k: int| 0 <= k < i + 1 && key_of(all[k]) == group_key(
            #[trigger] ng[x],
        ) by {
            if x < p {
                assert(ng[x] == old_groups[x]);
                let k = choose|k: int| 0 <= k < i && key_of(all[k]) == group_key(old_groups[x]);
            } else if x == p {
                assert(key_of(all[i as int]) == group_key(ng[x]));
            } else {
                assert(ng[x] == old_groups[x - 1]);
                let k = choose|k: int| 0 <= k < i && key_of(all[k]) == group_key(old_groups[x - 1]);
            }
        }
        assert forall|x: int| 0 <= x < ng.len() implies (#[trigger] ng[x]).files == members(
            all,
            ng[x].size,
            ng[x].hash,
        ) && ng[x].files.len() >= 2 by {
            if x < p {
                assert(ng[x] == old_groups[x]);
            } else if x > p {
                assert(ng[x] == old_groups[x - 1]);
            }
        }
        assert forall|k: int|
            0 <= k < i + 1 && members(all, #[trigger] all[k].1, all[k].2).len() >= 2 implies exists|x: int|
                0 <= x < ng.len() && #[trigger] group_key(ng[x]) == key_of(all[k]) by {
            if k == i {
                assert(group_key(ng[p as int]) == key_of(all[k]));
            } else {
                let x = choose|x: int| 0 <= x < old_groups.len() && #[trigger] group_key(old_groups[x]) == key_of(all[k]);
                if x < p {
                    assert(ng[x] == old_groups[x]);
                } else {
                    assert(ng[x + 1] == old_groups[x]);
                }
            }
        }
    }
}

/// Groups hashed files into duplicate groups: every `(size, hash)` shared by
/// at least two files, with its files in scan order, larger sizes first and
/// equal sizes ordered by hash.
pub fn group_duplicates(hashed: &Vec<HashedFile>) -> (r: Vec<DuplicateGroup>)
    ensures
        duplicate_groups_of(hashed_view(hashed@), groups_view(r@)),
{
    let ghost all = hashed_view(hashed@);
    let mut groups: Vec<DuplicateGroup> = Vec::new();
    let mut i: usize = 0;
    assert(groups_view(groups@) =~= Seq::<GroupView>::empty());
    while i < hashed.len()
        invariant
            all == hashed_view(hashed@),
            i <= hashed.len(),
            groups_inv(all, groups_view(groups@), i as int),
        decreases hashed.len() - i,
    {
        absorb(&mut groups, hashed, i);
        i += 1;
    }
    proof {
        let g = groups_view(groups@);
        assert forall|k: int|
            0 <= k < all.len() && members(all, #[trigger] all[k].1, all[k].2).len() >= 2 implies exists|x: int|
                0 <= x < g.len() && g[x].size == all[k].1 && g[x].hash == all[k].2 by {
            let x = choose|x: int| 0 <= x < g.len() && #[trigger] group_key(g[x]) == key_of(all[k]);
        }
        assert forall|a: int, b: int| 0 <= a < b < g.len() implies group_before(
            (#[trigger] g[a].size, g[a].hash),
            (#[trigger] g[b].size, g[b].hash),
        ) by {
            assert(group_before(group_key(g[a]), group_key(g[b])));
        }
    }
    groups
}

proof fn lemma_members_has(hashed: Seq<(PathView, u64, Seq<char>)>, j: int)
    requires
        0 <= j < hashed.len(),
    ensures
        members(hashed, hashed[j].1, hashed[j].2).contains((hashed[j].0, hashed[j].1)),
        members(hashed, hashed[j].1, hashed[j].2).len() >= 1,
    decreases hashed.len(),
{
    let init = hashed.drop_last();
    let prev = members(init, hashed[j].1, hashed[j].2);
    let cur = members(hashed, hashed[j].1, hashed[j].2);
    if j < hashed.len() - 1 {
        assert(init[j] == hashed[j]);
        lemma_members_has(init, j);
        let m = choose|m: int| 0 <= m < prev.len() && prev[m] == (hashed[j].0, hashed[j].1);
        if cur != prev {
            assert(cur[m] == prev[m]);
        }
    } else {
        assert(hashed.last() == hashed[j]);
        assert(cur[prev.len() as int] == (hashed[j].0, hashed[j].1));
    }
}

proof fn lemma_members_two(hashed: Seq<(PathView, u64, Seq<char>)>, j: int, k: int)
    requires
        0 <= j < k < hashed.len(),
        hashed[j].1 == hashed[k].1,
        hashed[j].2 == hashed[k].2,
    ensures
        members(hashed, hashed[j].1, hashed[j].2).len() >= 2,
    decreases hashed.len(),
{
    let init = hashed.drop_last();
    assert(init[j] == hashed[j]);
    if k == hashed.len() - 1 {
        lemma_members_has(init, j);
    } else {
        assert(init[k] == hashed[k]);
        lemma_members_two(init, j, k);
    }
}

proof fn lemma_members_origin(hashed: Seq<(PathView, u64, Seq<char>)>, size: u64, hash: Seq<char>)
    ensures
        forall|x: (PathView, u64)|
            #[trigger] members(hashed, size, hash).contains(x) ==> x.1 == size && exists|k: int|
                0 <= k < hashed.len() && hashed[k] == (x.0, size, hash),
    decreases hashed.len(),
{
    if hashed.len() > 0 {
        let init = hashed.drop_last();
        lemma_members_origin(init, size, hash);
        let prev = members(init, size, hash);
        let cur = members(hashed, size, hash);
        assert forall|x: (PathView, u64)| #[trigger] cur.contains(x) implies x.1 == size && exists|k: int|
            0 <= k < hashed.len() && hashed[k] == (x.0, size, hash) by {
            let m = choose|m: int| 0 <= m < cur.len() && cur[m] == x;
            if m < prev.len() {
                assert(cur[m] == prev[m]);
                assert(prev.contains(x));
                let k = choose|k: int| 0 <= k < init.len() && init[k] == (x.0, size, hash);
                assert(hashed[k] == init[k]);
            } else {
                let k = hashed.len() - 1;
                assert(hashed[k] == hashed.last());
            }
        }
    }
}

/// Law: of the duplicate groups of hashed files, any two different files
/// of equal size and content hash are in one group together, however many
/// copies there are; and every file of a group is a hashed file with the
/// group's size and hash.
pub proof fn law_duplicate_groups_gather_equal_files(
    hashed: Seq<(PathView, u64, Seq<char>)>,
    groups: Seq<GroupView>,
)
    requires
        duplicate_groups_of(hashed, groups),
    ensures
        forall|j: int, k: int|
            0 <= j < hashed.len() && 0 <= k < hashed.len() && j != k && (#[trigger] hashed[j]).1 == (
            #[trigger] hashed[k]).1 && hashed[j].2 == hashed[k].2 ==> exists|i: int|
                0 <= i < groups.len() && groups[i].size == hashed[j].1 && groups[i].hash == hashed[j].2
                    && (#[trigger] groups[i].files).contains((hashed[j].0, hashed[j].1)) && groups[i].files.contains(
                    (hashed[k].0, hashed[k].1),
                ),
        forall|i: int, x: (PathView, u64)|
            0 <= i < groups.len() && #[trigger] groups[i].files.contains(x) ==> x.1 == groups[i].size
                && exists|k: int| 0 <= k < hashed.len() && hashed[k] == (x.0, groups[i].size, groups[i].hash),
{
    assert forall|j: int, k: int|
        0 <= j < hashed.len() && 0 <= k < hashed.len() && j != k && (#[trigger] hashed[j]).1 == (
        #[trigger] hashed[k]).1 && hashed[j].2 == hashed[k].2 implies exists|i: int|
            0 <= i < groups.len() && groups[i].size == hashed[j].1 && groups[i].hash == hashed[j].2
                && (#[trigger] groups[i].files).contains((hashed[j].0, hashed[j].1)) && groups[i].files.contains(
                (hashed[k].0, hashed[k].1),
            ) by {
        if j < k {
            lemma_members_two(hashed, j, k);
        } else {
            lemma_members_two(hashed, k, j);
        }
        assert(members(hashed, hashed[j].1, hashed[j].2).len() >= 2);
        let i = choose|i: int|
            0 <= i < groups.len() && groups[i].size == hashed[j].1 && groups[i].hash == hashed[j].2;
        assert(groups[i].files == members(hashed, groups[i].size, groups[i].hash));
        lemma_members_has(hashed, j);
        lemma_members_has(hashed, k);
    }
    assert forall|i: int, x: (PathView, u64)|
        0 <= i < groups.len() && #[trigger] groups[i].files.contains(x) implies x.1 == groups[i].size
            && exists|k: int| 0 <= k < hashed.len() && hashed[k] == (x.0, groups[i].size, groups[i].hash) by {
        assert(groups[i].files == members(hashed, groups[i].size, groups[i].hash));
        lemma_members_origin(hashed, groups[i].size, groups[i].hash);
    }
}

} // verus!

//! Filesystem paths as the library reasons about them.
//!
//! A path is held by its components, the way `std::path::Path` compares
//! paths: whether it starts at the root (`/`), whether it starts with the
//! current directory (`.`), and its remaining names. Separators are `/`;
//! empty names and `.` names after the first are not components, exactly as
//! `Path::components` skips them. Two paths are equal when their components
//! are equal, which is what `PathBuf == PathBuf` decides.
use vstd::prelude::*;
use crate::text::{chars_of, contains_char, copy_string, push_char, push_str, str_eq, string_of};

verus! {

/// A path held by its components.
#[derive(Clone, Debug, PartialEq, Eq)]
pub struct FsPath {
    pub rooted: bool,
    pub current: bool,
    pub names: Vec<String>,
}

/// The mathematical model of a path.
pub struct PathView {
    pub rooted: bool,
    pub current: bool,
    pub names: Seq<Seq<char>>,
}

impl View for FsPath {
    type V = PathView;

    open spec fn view(&self) -> PathView {
        PathView { rooted: self.rooted, current: self.current, names: names_view(self.names@) }
    }
}

pub open spec fn names_view(names: Seq<String>) -> Seq<Seq<char>> {
    names.map_values(|s: String| s@)
}

/// A single `Normal` or `ParentDir` component: not empty, no separator, not `.`.
pub open spec fn is_component_name(n: Seq<char>) -> bool {
    &&& n.len() > 0
    &&& !contains_char(n, '/')
    &&& n != seq!['.']
}

pub open spec fn is_parent_name(n: Seq<char>) -> bool {
    n == seq!['.', '.']
}

impl PathView {
    pub open spec fn wf(self) -> bool {
        &&& !(self.rooted && self.current)
        &&& forall|i: int| 0 <= i < self.names.len() ==> is_component_name(#[trigger] self.names[i])
    }

    /// The path with no components at all (`""`).
    pub open spec fn is_empty(self) -> bool {
        !self.rooted && !self.current && self.names.len() == 0
    }

    /// Some component is `..`, the root or a prefix.
    pub open spec fn escapes(self) -> bool {
        self.rooted || exists|i: int| 0 <= i < self.names.len() && is_parent_name(#[trigger] self.names[i])
    }
}

pub open spec fn empty_path() -> PathView {
    PathView { rooted: false, current: false, names: Seq::empty() }
}

/// The `/`-separated pieces of `s`, empty pieces included.
pub open spec fn split_slash(s: Seq<char>) -> Seq<Seq<char>>
    decreases s.len(),
{
    if s.len() == 0 {
        seq![Seq::<char>::empty()]
    } else {
        let prev = split_slash(s.drop_last());
        if s.last() == '/' {
            prev.push(Seq::<char>::empty())
        } else {
            prev.update(prev.len() - 1, prev.last().push(s.last()))
        }
    }
}

/// A piece that becomes a component (after the leading `.`, which is handled apart).
pub open spec fn kept_piece(p: Seq<char>) -> bool {
    p.len() > 0 && p != seq!['.']
}

pub open spec fn keep_pieces(pieces: Seq<Seq<char>>) -> Seq<Seq<char>>
    decreases pieces.len(),
{
    if pieces.len() == 0 {
        Seq::empty()
    } else {
        let prev = keep_pieces(pieces.drop_last());
        if kept_piece(pieces.last()) {
            prev.push(pieces.last())
        } else {
            prev
        }
    }
}

/// How `Path::new(s)` splits into components.
pub open spec fn parse_path(s: Seq<char>) -> PathView {
    PathView {
        rooted: s.len() > 0 && s[0] == '/',
        current: s.len() > 0 && s[0] == '.' && (s.len() == 1 || s[1] == '/'),
        names: keep_pieces(split_slash(s)),
    }
}

pub open spec fn join_names(names: Seq<Seq<char>>) -> Seq<char>
    decreases names.len(),
{
    if names.len() == 0 {
        Seq::empty()
    } else if names.len() == 1 {
        names[0]
    } else {
        join_names(names.drop_last()) + seq!['/'] + names.last()
    }
}

/// The text of a path, with single `/` separators.
pub open spec fn render_path(p: PathView) -> Seq<char> {
    if p.rooted {
        seq!['/'] + join_names(p.names)
    } else if p.current {
        if p.names.len() == 0 {
            seq!['.']
        } else {
            seq!['.', '/'] + join_names(p.names)
        }
    } else {
        join_names(p.names)
    }
}

/// `Path::join` / `PathBuf::push`.
pub open spec fn join_path(base: PathView, rel: PathView) -> PathView {
    if rel.rooted {
        rel
    } else {
        PathView {
            rooted: base.rooted,
            current: if base.is_empty() { rel.current } else { base.current },
            names: base.names + rel.names,
        }
    }
}

/// `Path::file_name`.
pub open spec fn file_name_of(p: PathView) -> Option<Seq<char>> {
    if p.names.len() > 0 && !is_parent_name(p.names.last()) {
        Some(p.names.last())
    } else {
        None
    }
}

/// `Path::parent`.
pub open spec fn parent_of(p: PathView) -> Option<PathView> {
    if p.names.len() > 0 {
        Some(PathView { names: p.names.drop_last(), ..p })
    } else if p.current {
        Some(empty_path())
    } else {
        None
    }
}

/// `Path::with_file_name`.
pub open spec fn with_file_name_of(p: PathView, name: Seq<char>) -> PathView {
    let base = if file_name_of(p) is Some { parent_of(p).unwrap() } else { p };
    join_path(base, parse_path(name))
}

/// `Path::strip_prefix`: what is left of `p` after the components of `base`.
pub open spec fn strip_prefix_of(p: PathView, base: PathView) -> Option<PathView> {
    if base.is_empty() {
        Some(p)
    } else if p.rooted == base.rooted && p.current == base.current && base.names.len()
        <= p.names.len() && p.names.take(base.names.len() as int) == base.names {
        Some(PathView { rooted: false, current: false, names: p.names.skip(base.names.len() as int) })
    } else {
        None
    }
}

/// `Path::starts_with`.
pub open spec fn starts_with_path(p: PathView, base: PathView) -> bool {
    strip_prefix_of(p, base) is Some
}

/// Position of the last `.` in a file name, if any.
pub open spec fn last_dot(name: Seq<char>) -> Option<int>
    decreases name.len(),
{
    if name.len() == 0 {
        None
    } else if name.last() == '.' {
        Some(name.len() - 1)
    } else {
        last_dot(name.drop_last())
    }
}

/// `(file_stem, extension)` of a file name, as `Path` splits it.
pub open spec fn stem_and_extension(name: Seq<char>) -> (Seq<char>, Option<Seq<char>>) {
    if name == seq!['.', '.'] {
        (name, None)
    } else {
        match last_dot(name) {
            Some(i) => if i == 0 {
                (name, None)
            } else {
                (name.take(i), Some(name.skip(i + 1)))
            },
            None => (name, None),
        }
    }
}

/// `Path::file_stem`.
pub open spec fn file_stem_of(p: PathView) -> Option<Seq<char>> {
    match file_name_of(p) {
        Some(n) => Some(stem_and_extension(n).0),
        None => None,
    }
}

/// `Path::extension`.
pub open spec fn extension_of(p: PathView) -> Option<Seq<char>> {
    match file_name_of(p) {
        Some(n) => stem_and_extension(n).1,
        None => None,
    }
}

/// Splitting at `/` gives at least one piece.
pub proof fn lemma_split_nonempty(s: Seq<char>)
    ensures
        split_slash(s).len() >= 1,
    decreases s.len(),
{
    if s.len() > 0 {
        lemma_split_nonempty(s.drop_last());
    }
}

proof fn lemma_keep_push(pieces: Seq<Seq<char>>, p: Seq<char>)
    ensures
        keep_pieces(pieces.push(p)) == if kept_piece(p) {
            keep_pieces(pieces).push(p)
        } else {
            keep_pieces(pieces)
        },
{
    assert(pieces.push(p).drop_last() =~= pieces);
}

proof fn lemma_keep_wf(pieces: Seq<Seq<char>>)
    requires
        forall|i: int| 0 <= i < pieces.len() ==> !contains_char(#[trigger] pieces[i], '/'),
    ensures
        forall|i: int|
            0 <= i < keep_pieces(pieces).len() ==> is_component_name(#[trigger] keep_pieces(pieces)[i]),
    decreases pieces.len(),
{
    if pieces.len() > 0 {
        let init = pieces.drop_last();
        assert forall|i: int| 0 <= i < init.len() implies !contains_char(#[trigger] init[i], '/') by {
            assert(init[i] == pieces[i]);
        }
        lemma_keep_wf(init);
        assert(!contains_char(pieces[pieces.len() - 1], '/'));
        let prev = keep_pieces(init);
        let k = keep_pieces(pieces);
        assert forall|i: int| 0 <= i < k.len() implies is_component_name(#[trigger] k[i]) by {
            if i < prev.len() {
                assert(k[i] == prev[i]);
            } else {
                assert(k[i] == pieces.last());
            }
        }
    }
}

proof fn lemma_split_no_slash(s: Seq<char>)
    ensures
        forall|i: int| 0 <= i < split_slash(s).len() ==> !contains_char(#[trigger] split_slash(s)[i], '/'),
    decreases s.len(),
{
    lemma_split_nonempty(s);
    if s.len() > 0 {
        lemma_split_no_slash(s.drop_last());
        lemma_split_nonempty(s.drop_last());
        let prev = split_slash(s.drop_last());
        if s.last() != '/' {
            assert forall|i: int| 0 <= i < split_slash(s).len() implies !contains_char(
                #[trigger] split_slash(s)[i],
                '/',
            ) by {
                if i == prev.len() - 1 {
                    let q = prev.last().push(s.last());
                    assert(!contains_char(prev[i], '/'));
                    if contains_char(q, '/') {
                        let k = choose|k: int| 0 <= k < q.len() && q[k] == '/';
                        assert(prev[i][k] == '/');
                    }
                }
            }
        }
    }
}

/// A character absent from a text is absent from each of its pieces.
pub proof fn lemma_split_avoids(s: Seq<char>, c: char)
    requires
        !contains_char(s, c),
    ensures
        forall|i: int| 0 <= i < split_slash(s).len() ==> !contains_char(#[trigger] split_slash(s)[i], c),
    decreases s.len(),
{
    lemma_split_nonempty(s);
    if s.len() > 0 {
        let init = s.drop_last();
        if contains_char(init, c) {
            let k = choose|k: int| 0 <= k < init.len() && init[k] == c;
            assert(s[k] == c);
        }
        lemma_split_avoids(init, c);
        lemma_split_nonempty(init);
        let prev = split_slash(init);
        assert(s.last() != c) by {
            assert(s[s.len() - 1] == s.last());
        }
        if s.last() != '/' {
            assert forall|i: int| 0 <= i < split_slash(s).len() implies !contains_char(
                #[trigger] split_slash(s)[i],
                c,
            ) by {
                if i == prev.len() - 1 {
                    let q = prev.last().push(s.last());
                    assert(!contains_char(prev[i], c));
                    if contains_char(q, c) {
                        let k = choose|k: int| 0 <= k < q.len() && q[k] == c;
                        assert(prev[i][k] == c);
                    }
                }
            }
        } else {
            assert forall|i: int| 0 <= i < split_slash(s).len() implies !contains_char(
                #[trigger] split_slash(s)[i],
                c,
            ) by {
                if i < prev.len() {
                    assert(split_slash(s)[i] == prev[i]);
                }
            }
        }
    }
}

/// Each kept piece is one of the pieces.
pub proof fn lemma_keep_avoids(pieces: Seq<Seq<char>>, c: char)
    requires
        forall|i: int| 0 <= i < pieces.len() ==> !contains_char(#[trigger] pieces[i], c),
    ensures
        forall|i: int| 0 <= i < keep_pieces(pieces).len() ==> !contains_char(#[trigger] keep_pieces(pieces)[i], c),
    decreases pieces.len(),
{
    if pieces.len() > 0 {
        let init = pieces.drop_last();
        assert forall|i: int| 0 <= i < init.len() implies !contains_char(#[trigger] init[i], c) by {
            assert(init[i] == pieces[i]);
        }
        lemma_keep_avoids(init, c);
        assert(!contains_char(pieces[pieces.len() - 1], c));
        let prev = keep_pieces(init);
        let k = keep_pieces(pieces);
        assert forall|i: int| 0 <= i < k.len() implies !contains_char(#[trigger] k[i], c) by {
            if i < prev.len() {
                assert(k[i] == prev[i]);
            } else {
                assert(k[i] == pieces.last());
            }
        }
    }
}

/// A text that does not start with `/` has a non-empty first piece.
pub proof fn lemma_first_piece_nonempty(s: Seq<char>)
    requires
        s.len() > 0,
        s[0] != '/',
    ensures
        split_slash(s).len() >= 1,
        split_slash(s)[0].len() > 0,
    decreases s.len(),
{
    lemma_split_nonempty(s);
    let init = s.drop_last();
    lemma_split_nonempty(init);
    if s.len() == 1 {
        assert(init.len() == 0);
        assert(s.last() == s[0]);
    } else {
        assert(init[0] == s[0]);
        lemma_first_piece_nonempty(init);
    }
}

/// Some piece is kept, so some component remains.
pub proof fn lemma_keep_nonempty(pieces: Seq<Seq<char>>, i: int)
    requires
        0 <= i < pieces.len(),
        kept_piece(pieces[i]),
    ensures
        keep_pieces(pieces).len() > 0,
    decreases pieces.len(),
{
    if !kept_piece(pieces.last()) {
        assert(i != pieces.len() - 1);
        assert(pieces.drop_last()[i] == pieces[i]);
        lemma_keep_nonempty(pieces.drop_last(), i);
    }
}

/// The parse of any text is well formed.
pub proof fn lemma_parse_wf(s: Seq<char>)
    ensures
        parse_path(s).wf(),
{
    lemma_split_no_slash(s);
    lemma_keep_wf(split_slash(s));
}

impl FsPath {
    /// The empty path.
    pub fn empty() -> (r: FsPath)
        ensures
            r@ == empty_path(),
    {
        let r = FsPath { rooted: false, current: false, names: Vec::new() };
        assert(r@.names =~= Seq::<Seq<char>>::empty());
        r
    }

    /// `Path::new(text)`.
    pub fn parse(text: &str) -> (r: FsPath)
        ensures
            r@ == parse_path(text@),
            r@.wf(),
    {
        let v = chars_of(text);
        let n = v.len();
        let rooted = n > 0 && v[0] == '/';
        let current = n > 0 && v[0] == '.' && (n == 1 || v[1] == '/');
        let mut names: Vec<String> = Vec::new();
        let mut piece: Vec<char> = Vec::new();
        let mut i: usize = 0;
        proof {
            assert(v@.take(0) =~= Seq::<char>::empty());
            assert(names_view(names@) =~= Seq::<Seq<char>>::empty());
        }
        while i < n
            invariant
                n == v.len(),
                v@ == text@,
                i <= n,
                split_slash(v@.take(i as int)).len() >= 1,
                names_view(names@) == keep_pieces(split_slash(v@.take(i as int)).drop_last()),
                piece@ == split_slash(v@.take(i as int)).last(),
            decreases n - i,
        {
            let c = v[i];
            let ghost before = v@.take(i as int);
            let ghost after = v@.take(i + 1);
            proof {
                assert(after.drop_last() =~= before);
                assert(after.last() == c);
                lemma_split_nonempty(before);
                lemma_split_nonempty(after);
            }
            if c == '/' {
                proof {
                    assert(split_slash(after) == split_slash(before).push(Seq::<char>::empty()));
                    assert(split_slash(after).drop_last() =~= split_slash(before));
                    assert(split_slash(before) =~= split_slash(before).drop_last().push(
                        split_slash(before).last(),
                    ));
                    lemma_keep_push(split_slash(before).drop_last(), split_slash(before).last());
                }
                let keep = piece.len() > 0 && !(piece.len() == 1 && piece[0] == '.');
                proof {
                    if piece@ == seq!['.'] {
                        assert(piece@.len() == 1 && piece@[0] == '.');
                    }
                    if piece@.len() == 1 && piece@[0] == '.' {
                        assert(piece@ =~= seq!['.']);
                    }
                }
                if keep {
                    let s = string_of(&piece);
                    let ghost old_names = names@;
                    names.push(s);
                    proof {
                        assert(names_view(names@) =~= names_view(old_names).push(piece@));
                    }
                }
                piece = Vec::new();
            } else {
                proof {
                    let prev = split_slash(before);
                    assert(split_slash(after) == prev.update(prev.len() - 1, prev.last().push(c)));
                    assert(split_slash(after).drop_last() =~= prev.drop_last());
                }
                piece.push(c);
            }
            i += 1;
        }
        proof {
            assert(v@.take(n as int) =~= v@);
            let sp = split_slash(v@);
            assert(sp =~= sp.drop_last().push(sp.last()));
            lemma_keep_push(sp.drop_last(), sp.last());
        }
        let keep = piece.len() > 0 && !(piece.len() == 1 && piece[0] == '.');
        proof {
            if piece@ == seq!['.'] {
                assert(piece@.len() == 1 && piece@[0] == '.');
            }
            if piece@.len() == 1 && piece@[0] == '.' {
                assert(piece@ =~= seq!['.']);
            }
        }
        if keep {
            let s = string_of(&piece);
            let ghost old_names = names@;
            names.push(s);
            proof {
                assert(names_view(names@) =~= names_view(old_names).push(piece@));
            }
        }
        let r = FsPath { rooted, current, names };
        proof {
            lemma_parse_wf(text@);
        }
        r
    }
}


/// Copies of the names, in order.
pub fn copy_names(names: &Vec<String>, from: usize) -> (r: Vec<String>)
    requires
        from <= names.len(),
    ensures
        names_view(r@) == names_view(names@).skip(from as int),
{
    let mut r: Vec<String> = Vec::new();
    let mut i: usize = from;
    while i < names.len()
        invariant
            from <= i <= names.len(),
            names_view(r@) == names_view(names@).subrange(from as int, i as int),
        decreases names.len() - i,
    {
        let ghost before = r@;
        r.push(copy_string(&names[i]));
        proof {
            assert(names_view(r@) =~= names_view(before).push(names@[i as int]@));
            assert(names_view(names@).subrange(from as int, i + 1) =~= names_view(names@).subrange(
                from as int,
                i as int,
            ).push(names@[i as int]@));
        }
        i += 1;
    }
    assert(names_view(names@).subrange(from as int, names.len() as int) =~= names_view(
        names@,
    ).skip(from as int));
    r
}

/// Whether the first `count` names of `a` equal the names of `b`.
fn names_prefix(a: &Vec<String>, b: &Vec<String>) -> (r: bool)
    requires
        b.len() <= a.len(),
    ensures
        r == (names_view(a@).take(b.len() as int) == names_view(b@)),
{
    let mut i: usize = 0;
    while i < b.len()
        invariant
            b.len() <= a.len(),
            i <= b.len(),
            forall|j: int| 0 <= j < i ==> a@[j]@ == b@[j]@,
        decreases b.len() - i,
    {
        if !str_eq(a[i].as_str(), b[i].as_str()) {
            proof {
                assert(names_view(a@).take(b.len() as int)[i as int] != names_view(b@)[i as int]);
            }
            return false;
        }
        i += 1;
    }
    assert(names_view(a@).take(b.len() as int) =~= names_view(b@));
    true
}

/// Whether two name lists are equal.
fn names_equal(a: &Vec<String>, b: &Vec<String>) -> (r: bool)
    ensures
        r == (names_view(a@) == names_view(b@)),
{
    if a.len() != b.len() {
        proof {
            assert(names_view(a@).len() != names_view(b@).len());
        }
        return false;
    }
    let r = names_prefix(a, b);
    assert(names_view(a@).take(b.len() as int) =~= names_view(a@));
    r
}

/// Joining one more name appends `/` and the name.
pub proof fn lemma_join_names_append(names: Seq<Seq<char>>, n: Seq<char>)
    ensures
        join_names(names.push(n)) == if names.len() == 0 {
            n
        } else {
            join_names(names) + seq!['/'] + n
        },
{
    assert(names.push(n).drop_last() =~= names);
}

impl FsPath {
    /// A copy of the path.
    pub fn duplicate(&self) -> (r: FsPath)
        ensures
            r@ == self@,
    {
        let names = copy_names(&self.names, 0);
        assert(names_view(self.names@).skip(0) =~= names_view(self.names@));
        FsPath { rooted: self.rooted, current: self.current, names }
    }

    /// `PathBuf == PathBuf`: equal components.
    pub fn same_as(&self, other: &FsPath) -> (r: bool)
        ensures
            r == (self@ == other@),
    {
        self.rooted == other.rooted && self.current == other.current && names_equal(
            &self.names,
            &other.names,
        )
    }

    /// `Path::is_absolute`.
    pub fn is_absolute(&self) -> (r: bool)
        ensures
            r == self@.rooted,
    {
        self.rooted
    }

    /// Whether the path has no components at all.
    pub fn is_empty(&self) -> (r: bool)
        ensures
            r == self@.is_empty(),
    {
        !self.rooted && !self.current && self.names.len() == 0
    }

    /// The text of the path, with single `/` separators.
    pub fn to_text(&self) -> (r: String)
        ensures
            r@ == render_path(self@),
    {
        let mut body = String::new();
        let mut i: usize = 0;
        while i < self.names.len()
            invariant
                i <= self.names.len(),
                body@ == join_names(names_view(self.names@).take(i as int)),
            decreases self.names.len() - i,
        {
            let ghost prev = names_view(self.names@).take(i as int);
            proof {
                assert(names_view(self.names@).take(i + 1) =~= prev.push(self.names@[i as int]@));
                lemma_join_names_append(prev, self.names@[i as int]@);
            }
            if i > 0 {
                push_char(&mut body, '/');
            }
            push_str(&mut body, self.names[i].as_str());
            i += 1;
        }
        assert(names_view(self.names@).take(self.names.len() as int) =~= names_view(self.names@));
        if self.rooted {
            let mut r = String::new();
            push_char(&mut r, '/');
            push_str(&mut r, body.as_str());
            assert(r@ =~= seq!['/'] + body@);
            r
        } else if self.current {
            let mut r = String::new();
            push_char(&mut r, '.');
            if self.names.len() > 0 {
                push_char(&mut r, '/');
                push_str(&mut r, body.as_str());
                assert(r@ =~= seq!['.', '/'] + body@);
            } else {
                assert(r@ =~= seq!['.']);
            }
            r
        } else {
            body
        }
    }

    /// `Path::join`.
    pub fn join(&self, rel: &FsPath) -> (r: FsPath)
        ensures
            r@ == join_path(self@, rel@),
    {
        if rel.rooted {
            return rel.duplicate();
        }
        let mut names = copy_names(&self.names, 0);
        let tail = copy_names(&rel.names, 0);
        let ghost head_view = names_view(names@);
        let mut i: usize = 0;
        while i < tail.len()
            invariant
                i <= tail.len(),
                names_view(names@) == head_view + names_view(tail@).take(i as int),
            decreases tail.len() - i,
        {
            let ghost before = names@;
            names.push(copy_string(&tail[i]));
            proof {
                assert(names_view(names@) =~= names_view(before).push(tail@[i as int]@));
                assert(names_view(tail@).take(i + 1) =~= names_view(tail@).take(i as int).push(
                    tail@[i as int]@,
                ));
            }
            i += 1;
        }
        proof {
            assert(names_view(tail@).take(tail.len() as int) =~= names_view(tail@));
            assert(names_view(self.names@).skip(0) =~= names_view(self.names@));
            assert(names_view(rel.names@).skip(0) =~= names_view(rel.names@));
        }
        let current = if self.is_empty() {
            rel.current
        } else {
            self.current
        };
        FsPath { rooted: self.rooted, current, names }
    }

    /// `Path::join` with a path given as text.
    pub fn join_text(&self, rel: &str) -> (r: FsPath)
        ensures
            r@ == join_path(self@, parse_path(rel@)),
    {
        let p = FsPath::parse(rel);
        self.join(&p)
    }

    /// `Path::file_name`.
    pub fn file_name(&self) -> (r: Option<String>)
        ensures
            r matches Some(n) ==> file_name_of(self@) == Some(n@),
            r is None ==> file_name_of(self@) is None,
    {
        let n = self.names.len();
        if n == 0 {
            return None;
        }
        let last = &self.names[n - 1];
        let v = chars_of(last.as_str());
        if v.len() == 2 && v[0] == '.' && v[1] == '.' {
            proof {
                assert(v@ =~= seq!['.', '.']);
            }
            None
        } else {
            proof {
                if v@ == seq!['.', '.'] {
                    assert(v@.len() == 2 && v@[0] == '.' && v@[1] == '.');
                }
            }
            Some(copy_string(last))
        }
    }

    /// `Path::parent`.
    pub fn parent(&self) -> (r: Option<FsPath>)
        ensures
            r matches Some(p) ==> parent_of(self@) == Some(p@),
            r is None ==> parent_of(self@) is None,
    {
        let n = self.names.len();
        if n > 0 {
            let mut names = copy_names(&self.names, 0);
            names.pop();
            proof {
                assert(names_view(self.names@).skip(0) =~= names_view(self.names@));
                assert(names_view(names@) =~= names_view(self.names@).drop_last());
            }
            Some(FsPath { rooted: self.rooted, current: self.current, names })
        } else if self.current {
            Some(FsPath::empty())
        } else {
            None
        }
    }

    /// `Path::with_file_name`.
    pub fn with_file_name(&self, name: &str) -> (r: FsPath)
        ensures
            r@ == with_file_name_of(self@, name@),
    {
        let has_name = self.file_name().is_some();
        let base = if has_name {
            match self.parent() {
                Some(p) => p,
                None => self.duplicate(),
            }
        } else {
            self.duplicate()
        };
        base.join_text(name)
    }

    /// `Path::strip_prefix`.
    pub fn strip_prefix(&self, base: &FsPath) -> (r: Option<FsPath>)
        ensures
            r matches Some(p) ==> strip_prefix_of(self@, base@) == Some(p@),
            r is None ==> strip_prefix_of(self@, base@) is None,
    {
        if base.is_empty() {
            return Some(self.duplicate());
        }
        if self.rooted == base.rooted && self.current == base.current && base.names.len()
            <= self.names.len() && names_prefix(&self.names, &base.names) {
            let names = copy_names(&self.names, base.names.len());
            Some(FsPath { rooted: false, current: false, names })
        } else {
            None
        }
    }

    /// `Path::starts_with`.
    pub fn starts_with(&self, base: &FsPath) -> (r: bool)
        ensures
            r == starts_with_path(self@, base@),
    {
        self.strip_prefix(base).is_some()
    }

    /// Some component is `..`, the root or a prefix.
    pub fn escapes(&self) -> (r: bool)
        ensures
            r == self@.escapes(),
    {
        if self.rooted {
            return true;
        }
        let mut i: usize = 0;
        while i < self.names.len()
            invariant
                i <= self.names.len(),
                forall|j: int| 0 <= j < i ==> !is_parent_name(#[trigger] names_view(self.names@)[j]),
            decreases self.names.len() - i,
        {
            let v = chars_of(self.names[i].as_str());
            if v.len() == 2 && v[0] == '.' && v[1] == '.' {
                proof {
                    assert(v@ =~= seq!['.', '.']);
                    assert(is_parent_name(names_view(self.names@)[i as int]));
                    assert(is_parent_name(self@.names[i as int]));
                    assert(0 <= i < self@.names.len());
                }
                return true;
            }
            proof {
                if v@ == seq!['.', '.'] {
                    assert(v@.len() == 2 && v@[0] == '.' && v@[1] == '.');
                }
            }
            i += 1;
        }
        false
    }
}


fn find_last_dot(v: &Vec<char>) -> (r: Option<usize>)
    ensures
        match r {
            Some(i) => last_dot(v@) == Some(i as int) && i < v.len(),
            None => last_dot(v@) is None,
        },
{
    let mut j: usize = v.len();
    assert(v@.take(j as int) =~= v@);
    while j > 0
        invariant
            j <= v.len(),
            last_dot(v@) == last_dot(v@.take(j as int)),
        decreases j,
    {
        let ghost t = v@.take(j as int);
        assert(t.drop_last() =~= v@.take(j - 1));
        if v[j - 1] == '.' {
            return Some(j - 1);
        }
        j -= 1;
    }
    None
}

/// `(file_stem, extension)` of a file name.
pub fn split_file_name(name: &str) -> (r: (String, Option<String>))
    ensures
        r.0@ == stem_and_extension(name@).0,
        r.1 matches Some(e) ==> stem_and_extension(name@).1 == Some(e@),
        r.1 is None ==> stem_and_extension(name@).1 is None,
{
    let v = chars_of(name);
    if v.len() == 2 && v[0] == '.' && v[1] == '.' {
        assert(v@ =~= seq!['.', '.']);
        return (string_of(&v), None);
    }
    proof {
        if v@ == seq!['.', '.'] {
            assert(v@.len() == 2 && v@[0] == '.' && v@[1] == '.');
        }
    }
    match find_last_dot(&v) {
        Some(i) => {
            if i == 0 {
                (string_of(&v), None)
            } else {
                let mut stem: Vec<char> = Vec::new();
                let mut k: usize = 0;
                while k < i
                    invariant
                        i < v.len(),
                        k <= i,
                        stem@ == v@.take(k as int),
                    decreases i - k,
                {
                    stem.push(v[k]);
                    k += 1;
                    assert(stem@ =~= v@.take(k as int));
                }
                let mut ext: Vec<char> = Vec::new();
                let mut m: usize = i + 1;
                while m < v.len()
                    invariant
                        i < v.len(),
                        i + 1 <= m <= v.len(),
                        ext@ == v@.subrange(i + 1, m as int),
                    decreases v.len() - m,
                {
                    ext.push(v[m]);
                    m += 1;
                    assert(ext@ =~= v@.subrange(i + 1, m as int));
                }
                assert(v@.subrange(i + 1, v.len() as int) =~= v@.skip(i + 1));
                (string_of(&stem), Some(string_of(&ext)))
            }
        },
        None => (string_of(&v), None),
    }
}

impl FsPath {
    /// `Path::file_stem`.
    pub fn file_stem(&self) -> (r: Option<String>)
        ensures
            r matches Some(n) ==> file_stem_of(self@) == Some(n@),
            r is None ==> file_stem_of(self@) is None,
    {
        match self.file_name() {
            Some(n) => Some(split_file_name(n.as_str()).0),
            None => None,
        }
    }

    /// `Path::extension`.
    pub fn extension(&self) -> (r: Option<String>)
        ensures
            r matches Some(n) ==> extension_of(self@) == Some(n@),
            r is None ==> extension_of(self@) is None,
    {
        match self.file_name() {
            Some(n) => split_file_name(n.as_str()).1,
            None => None,
        }
    }
}


/// Text without a separator splits into one piece.
pub proof fn lemma_split_without_slash(s: Seq<char>)
    requires
        !contains_char(s, '/'),
    ensures
        split_slash(s) == seq![s],
    decreases s.len(),
{
    if s.len() > 0 {
        let init = s.drop_last();
        if contains_char(init, '/') {
            let k = choose|k: int| 0 <= k < init.len() && init[k] == '/';
            assert(s[k] == '/');
        }
        lemma_split_without_slash(init);
        assert(s.last() != '/') by {
            assert(s[s.len() - 1] == s.last());
        }
        assert(init.push(s.last()) =~= s);
    } else {
        assert(s =~= Seq::<char>::empty());
    }
}

/// A single name parses to a path of that one component.
pub proof fn lemma_parse_single_name(n: Seq<char>)
    requires
        is_component_name(n),
    ensures
        parse_path(n) == (PathView { rooted: false, current: false, names: seq![n] }),
{
    lemma_split_without_slash(n);
    assert(n[0] != '/') by {
        assert(!contains_char(n, '/'));
    }
    if n.len() > 1 {
        assert(n[1] != '/');
    } else {
        if n[0] == '.' {
            assert(n =~= seq!['.']);
        }
    }
    let pieces = seq![n];
    assert(pieces.drop_last() =~= Seq::<Seq<char>>::empty());
    assert(keep_pieces(Seq::<Seq<char>>::empty()) == Seq::<Seq<char>>::empty());
    assert(pieces.last() == n);
    assert(kept_piece(n));
    assert(Seq::<Seq<char>>::empty().push(n) =~= seq![n]);
    assert(keep_pieces(pieces) == seq![n]);
}

/// Joining a relative path keeps the base as a prefix, and what is left
/// after the base is the relative part's names.
pub proof fn lemma_join_below(base: PathView, rel: PathView)
    requires
        !rel.rooted,
        !base.is_empty(),
    ensures
        strip_prefix_of(join_path(base, rel), base) == Some(
            PathView { rooted: false, current: false, names: rel.names },
        ),
        starts_with_path(join_path(base, rel), base),
{
    let j = join_path(base, rel);
    assert(j.names.take(base.names.len() as int) =~= base.names);
    assert(j.names.skip(base.names.len() as int) =~= rel.names);
}

/// Joining a relative path with names to any base gives a path below the
/// base and different from it.
pub proof fn lemma_join_strictly_below(base: PathView, rel: PathView)
    requires
        !rel.rooted,
        rel.names.len() > 0,
    ensures
        starts_with_path(join_path(base, rel), base),
        join_path(base, rel) != base,
{
    let j = join_path(base, rel);
    assert(j.names.len() == base.names.len() + rel.names.len());
    if !base.is_empty() {
        lemma_join_below(base, rel);
    }
}


proof fn lemma_split_dot_dot(s: Seq<char>)
    requires
        s.len() >= 2,
        s[0] == '.',
        s[1] == '.',
        s.len() == 2 || s[2] == '/',
    ensures
        split_slash(s).len() >= 1,
        split_slash(s)[0] == seq!['.', '.'],
        s.len() >= 3 ==> split_slash(s).len() >= 2,
    decreases s.len(),
{
    lemma_split_nonempty(s);
    if s.len() == 2 {
        let one = s.drop_last();
        assert(one.drop_last() =~= Seq::<char>::empty());
        let e = Seq::<char>::empty();
        assert(split_slash(e) == seq![e]);
        assert(one.last() == '.');
        let prev = split_slash(one.drop_last());
        assert(prev == seq![e]);
        assert(split_slash(one) == prev.update(0, e.push('.')));
        assert(e.push('.') =~= seq!['.']);
        assert(split_slash(one) =~= seq![seq!['.']]);
        assert(seq!['.'].push('.') =~= seq!['.', '.']);
    } else if s.len() == 3 {
        let two = s.drop_last();
        lemma_split_dot_dot(two);
        lemma_split_without_slash(two);
        assert(split_slash(s) == split_slash(two).push(Seq::<char>::empty()));
    } else {
        let init = s.drop_last();
        lemma_split_dot_dot(init);
        lemma_split_nonempty(init);
    }
}

proof fn lemma_keep_first(pieces: Seq<Seq<char>>)
    requires
        pieces.len() >= 1,
        kept_piece(pieces[0]),
    ensures
        keep_pieces(pieces).len() >= 1,
        keep_pieces(pieces)[0] == pieces[0],
    decreases pieces.len(),
{
    if pieces.len() == 1 {
        assert(pieces.drop_last() =~= Seq::<Seq<char>>::empty());
        assert(keep_pieces(Seq::<Seq<char>>::empty()) == Seq::<Seq<char>>::empty());
    } else {
        lemma_keep_first(pieces.drop_last());
    }
}

/// A path text that starts with `..` followed by a separator (or nothing)
/// has a `..` component.
pub proof fn lemma_dot_dot_escapes(s: Seq<char>)
    requires
        s.len() >= 2,
        s[0] == '.',
        s[1] == '.',
        s.len() == 2 || s[2] == '/',
    ensures
        parse_path(s).escapes(),
{
    lemma_split_dot_dot(s);
    lemma_keep_first(split_slash(s));
    assert(is_parent_name(parse_path(s).names[0]));
}


/// The last `.` of `s.x`, when `x` has none, is the one after `s`.
pub proof fn lemma_last_dot_before(s: Seq<char>, x: Seq<char>)
    requires
        forall|i: int| 0 <= i < x.len() ==> #[trigger] x[i] != '.',
    ensures
        last_dot(s + seq!['.'] + x) == Some(s.len() as int),
    decreases x.len(),
{
    let w = s + seq!['.'] + x;
    if x.len() == 0 {
        assert(w.last() == '.');
    } else {
        assert(w.last() == x.last());
        assert(w.drop_last() =~= s + seq!['.'] + x.drop_last());
        assert forall|i: int| 0 <= i < x.drop_last().len() implies #[trigger] x.drop_last()[i] != '.' by {
            assert(x.drop_last()[i] == x[i]);
        }
        lemma_last_dot_before(s, x.drop_last());
    }
}

} // verus!

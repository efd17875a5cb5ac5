//! Filename and destination safety: portable filename rules, containment of
//! rule subdirectories below the selected root, and collision-free names.
use vstd::prelude::*;
use crate::error::{ErrorView, Result, SortSmithError};
use crate::paths::{
    FsPath, PathView, extension_of, file_stem_of, join_path, parent_of, parse_path,
    starts_with_path, lemma_join_strictly_below, lemma_dot_dot_escapes, split_slash, keep_pieces,
    kept_piece, is_parent_name, lemma_split_avoids, lemma_keep_avoids, lemma_first_piece_nonempty,
    lemma_keep_nonempty,
};
use crate::text::{
    chars_of, concat, control, decimal, decimal_text, is_blank, is_control, push_str,
    upper_char, upper_seq, utf16_len, utf16_width, utf8_len, utf8_width, blank, owned,
    lemma_ascii_lengths, string_of, contains_char,
};

verus! {

/// `safe_subdirectory`: the error for `subdirectory`, if it is refused.
pub open spec fn subdirectory_refused(subdirectory: Seq<char>) -> bool {
    subdirectory.len() == 0 || parse_path(subdirectory).escapes()
}

/// Joins a rule's `subdirectory` to `root`, refusing an empty or absolute
/// subdirectory and any `..` component.
pub fn safe_subdirectory(root: &FsPath, subdirectory: &str) -> (r: Result<FsPath>)
    ensures
        r is Err <==> subdirectory_refused(subdirectory@),
        r matches Err(e) ==> e@ == ErrorView::UnsafeDestination(parse_path(subdirectory@)),
        r matches Ok(p) ==> p@ == join_path(root@, parse_path(subdirectory@)),
{
    let candidate = FsPath::parse(subdirectory);
    let n = char_len(subdirectory);
    if n == 0 || candidate.is_absolute() {
        return Err(SortSmithError::UnsafeDestination(candidate));
    }
    if candidate.escapes() {
        return Err(SortSmithError::UnsafeDestination(candidate));
    }
    Ok(root.join(&candidate))
}

fn char_len(s: &str) -> (n: usize)
    ensures
        n == s@.len(),
{
    chars_of(s).len()
}

/// A character that is unsafe in a filename on some platform.
pub open spec fn is_unsafe_filename_char(c: char) -> bool {
    c == '<' || c == '>' || c == ':' || c == '"' || c == '/' || c == '\\' || c == '|' || c == '?'
        || c == '*' || is_control(c)
}

pub open spec fn has_unsafe_filename_char(s: Seq<char>) -> bool {
    exists|i: int| 0 <= i < s.len() && is_unsafe_filename_char(#[trigger] s[i])
}

pub open spec fn empty_message() -> Seq<char> {
    " cannot be empty"@
}

pub open spec fn unsafe_char_message() -> Seq<char> {
    " contains a character that is unsafe in a cross-platform filename"@
}

pub open spec fn reserved_component_message() -> Seq<char> {
    " cannot be empty or a reserved path component"@
}

pub open spec fn too_long_message() -> Seq<char> {
    " is too long for a portable filename"@
}

pub open spec fn trailing_message() -> Seq<char> {
    " cannot end with a space or period"@
}

pub open spec fn device_message() -> Seq<char> {
    " uses a Windows-reserved device name"@
}

/// What `validate_filename_fragment` refuses, with its message.
pub open spec fn fragment_problem(fragment: Seq<char>, label: Seq<char>) -> Option<ErrorView> {
    if is_blank(fragment) {
        Some(ErrorView::InvalidRule(label + empty_message()))
    } else if has_unsafe_filename_char(fragment) {
        Some(ErrorView::InvalidRule(label + unsafe_char_message()))
    } else {
        None
    }
}

/// Checks a part of a filename (a prefix or a template): it must not be
/// blank and must hold no unsafe character.
pub fn validate_filename_fragment(fragment: &str, label: &str) -> (r: Result<()>)
    ensures
        r is Ok <==> fragment_problem(fragment@, label@) is None,
        r matches Err(e) ==> fragment_problem(fragment@, label@) == Some(e@),
{
    if blank(fragment) {
        return Err(SortSmithError::InvalidRule(concat(label, " cannot be empty")));
    }
    if contains_invalid_filename_character(fragment) {
        return Err(
            SortSmithError::InvalidRule(
                concat(label, " contains a character that is unsafe in a cross-platform filename"),
            ),
        );
    }
    Ok(())
}

/// Length of the part of `s` after its last `/` or `\`.
pub open spec fn last_piece_len(s: Seq<char>) -> nat
    decreases s.len(),
{
    if s.len() == 0 || s.last() == '/' || s.last() == '\\' {
        0
    } else {
        last_piece_len(s.drop_last()) + 1
    }
}

/// Length of the part of `s` before its first `.`.
pub open spec fn first_piece_len(s: Seq<char>) -> nat
    decreases s.len(),
{
    if s.len() == 0 || s[0] == '.' {
        0
    } else {
        first_piece_len(s.skip(1)) + 1
    }
}

/// The upper-cased part of a filename that Windows checks for device names:
/// after the last separator, before the first `.`.
pub open spec fn device_stem(s: Seq<char>) -> Seq<char> {
    let last = s.skip(s.len() - last_piece_len(s));
    upper_seq(last.take(first_piece_len(last) as int))
}

/// A digit that Windows accepts after `COM` or `LPT`: `1` to `9`, or the
/// superscript digits `¹`, `²` and `³`.
pub open spec fn is_device_digit(c: char) -> bool {
    ('1' <= c && c <= '9') || c == '\u{b9}' || c == '\u{b2}' || c == '\u{b3}'
}

/// `CON`, `PRN`, `AUX`, `NUL`, `COM1`..`COM9`, `LPT1`..`LPT9`, and `COM`
/// or `LPT` followed by a superscript `¹`, `²` or `³`.
pub open spec fn is_device_name(u: Seq<char>) -> bool {
    ||| u.len() == 3 && u[0] == 'C' && u[1] == 'O' && u[2] == 'N'
    ||| u.len() == 3 && u[0] == 'P' && u[1] == 'R' && u[2] == 'N'
    ||| u.len() == 3 && u[0] == 'A' && u[1] == 'U' && u[2] == 'X'
    ||| u.len() == 3 && u[0] == 'N' && u[1] == 'U' && u[2] == 'L'
    ||| u.len() == 4 && u[0] == 'C' && u[1] == 'O' && u[2] == 'M' && is_device_digit(u[3])
    ||| u.len() == 4 && u[0] == 'L' && u[1] == 'P' && u[2] == 'T' && is_device_digit(u[3])
}

pub open spec fn is_reserved_filename(s: Seq<char>) -> bool {
    is_device_name(device_stem(s))
}

/// What `validate_filename` refuses, with its message.
pub open spec fn filename_problem(filename: Seq<char>, label: Seq<char>) -> Option<ErrorView> {
    if filename.len() == 0 || filename == seq!['.'] || filename == seq!['.', '.'] {
        Some(ErrorView::InvalidRule(label + reserved_component_message()))
    } else if utf8_len(filename) > 255 || utf16_len(filename) > 255 {
        Some(ErrorView::InvalidRule(label + too_long_message()))
    } else if has_unsafe_filename_char(filename) {
        Some(ErrorView::InvalidRule(label + unsafe_char_message()))
    } else if filename.last() == ' ' || filename.last() == '.' {
        Some(ErrorView::InvalidRule(label + trailing_message()))
    } else if is_reserved_filename(filename) {
        Some(ErrorView::InvalidRule(label + device_message()))
    } else {
        None
    }
}

fn encoded_lengths(v: &Vec<char>) -> (r: (usize, usize))
    ensures
        r.0 == if utf8_len(v@) > 1024 { 1024 } else { utf8_len(v@) },
        r.1 == if utf16_len(v@) > 1024 { 1024 } else { utf16_len(v@) },
{
    let mut a: usize = 0;
    let mut b: usize = 0;
    let mut i: usize = 0;
    while i < v.len()
        invariant
            i <= v.len(),
            a == if utf8_len(v@.take(i as int)) > 1024 { 1024 } else { utf8_len(v@.take(i as int)) },
            b == if utf16_len(v@.take(i as int)) > 1024 { 1024 } else { utf16_len(v@.take(i as int)) },
        decreases v.len() - i,
    {
        let c = v[i];
        let (w8, w16) = char_widths(c);
        proof {
            let t = v@.take(i + 1);
            assert(t.drop_last() =~= v@.take(i as int));
            assert(t.last() == c);
        }
        a = if a + w8 > 1024 {
            1024
        } else {
            a + w8
        };
        b = if b + w16 > 1024 {
            1024
        } else {
            b + w16
        };
        i += 1;
    }
    assert(v@.take(v.len() as int) =~= v@);
    r_pair(a, b)
}

fn r_pair(a: usize, b: usize) -> (r: (usize, usize))
    ensures
        r == (a, b),
{
    (a, b)
}

/// Checks a complete filename: not empty or a path component name, at most
/// 255 UTF-8 bytes and 255 UTF-16 units, no unsafe character, no trailing
/// space or period, and no Windows device name.
pub fn validate_filename(filename: &str, label: &str) -> (r: Result<()>)
    ensures
        r is Ok <==> filename_problem(filename@, label@) is None,
        r matches Err(e) ==> filename_problem(filename@, label@) == Some(e@),
{
    let v = chars_of(filename);
    let n = v.len();
    let is_dot = n == 1 && v[0] == '.';
    let is_dot_dot = n == 2 && v[0] == '.' && v[1] == '.';
    proof {
        if v@ == seq!['.'] {
            assert(v@.len() == 1 && v@[0] == '.');
        }
        if v@ == seq!['.', '.'] {
            assert(v@.len() == 2 && v@[0] == '.' && v@[1] == '.');
        }
        if is_dot {
            assert(v@ =~= seq!['.']);
        }
        if is_dot_dot {
            assert(v@ =~= seq!['.', '.']);
        }
    }
    if n == 0 || is_dot || is_dot_dot {
        return Err(
            SortSmithError::InvalidRule(concat(label, " cannot be empty or a reserved path component")),
        );
    }
    let (bytes, units) = encoded_lengths(&v);
    if bytes > 255 || units > 255 {
        return Err(SortSmithError::InvalidRule(concat(label, " is too long for a portable filename")));
    }
    if contains_invalid_filename_character(filename) {
        return Err(
            SortSmithError::InvalidRule(
                concat(label, " contains a character that is unsafe in a cross-platform filename"),
            ),
        );
    }
    if v[n - 1] == ' ' || v[n - 1] == '.' {
        return Err(SortSmithError::InvalidRule(concat(label, " cannot end with a space or period")));
    }
    if is_windows_reserved_name(filename) {
        return Err(SortSmithError::InvalidRule(concat(label, " uses a Windows-reserved device name")));
    }
    Ok(())
}

/// Whether a character is unsafe in a filename on some platform.
pub fn unsafe_filename_char(c: char) -> (r: bool)
    ensures
        r == is_unsafe_filename_char(c),
{
    c == '<' || c == '>' || c == ':' || c == '"' || c == '/' || c == '\\' || c == '|' || c == '?'
        || c == '*' || control(c)
}

/// Whether `value` holds a character that is unsafe in a filename.
pub fn contains_invalid_filename_character(value: &str) -> (r: bool)
    ensures
        r == has_unsafe_filename_char(value@),
{
    let v = chars_of(value);
    let mut i: usize = 0;
    while i < v.len()
        invariant
            v@ == value@,
            i <= v.len(),
            forall|j: int| 0 <= j < i ==> !is_unsafe_filename_char(#[trigger] v@[j]),
        decreases v.len() - i,
    {
        if unsafe_filename_char(v[i]) {
            return true;
        }
        i += 1;
    }
    false
}

/// Whether the part of `filename` that Windows checks is a device name.
pub fn is_windows_reserved_name(filename: &str) -> (r: bool)
    ensures
        r == is_reserved_filename(filename@),
{
    let v = chars_of(filename);
    let ghost s = v@;
    // the last piece: scan back to the last separator
    let mut j: usize = v.len();
    assert(s.take(j as int) =~= s);
    while j > 0 && v[j - 1] != '/' && v[j - 1] != '\\'
        invariant
            j <= v.len(),
            s == v@,
            last_piece_len(s) == last_piece_len(s.take(j as int)) + (v.len() - j),
        decreases j,
    {
        assert(s.take(j as int).drop_last() =~= s.take(j - 1));
        j -= 1;
    }
    let start = j;
    assert(last_piece_len(s) == v.len() - start);
    // the first piece of the last piece: scan forward to the first dot
    let ghost last = s.skip(start as int);
    let mut k: usize = start;
    let mut upper: Vec<char> = Vec::new();
    assert(last.skip(0) =~= last);
    while k < v.len() && v[k] != '.'
        invariant
            start <= k <= v.len(),
            s == v@,
            last == s.skip(start as int),
            first_piece_len(last) == (k - start) + first_piece_len(last.skip(k - start)),
            upper@ == upper_seq(last.take(k - start)),
        decreases v.len() - k,
    {
        assert(last.skip(k - start).skip(1) =~= last.skip(k - start + 1));
        upper.push(upper_char(v[k]));
        k += 1;
        assert(upper@ =~= upper_seq(last.take(k - start)));
    }
    assert(first_piece_len(last) == k - start);
    let u = &upper;
    let len = u.len();
    let three = len == 3 && ((u[0] == 'C' && u[1] == 'O' && u[2] == 'N') || (u[0] == 'P' && u[1]
        == 'R' && u[2] == 'N') || (u[0] == 'A' && u[1] == 'U' && u[2] == 'X') || (u[0] == 'N'
        && u[1] == 'U' && u[2] == 'L'));
    let four = len == 4 && ((u[0] == 'C' && u[1] == 'O' && u[2] == 'M') || (u[0] == 'L' && u[1]
        == 'P' && u[2] == 'T')) && (('1' <= u[3] && u[3] <= '9') || u[3] == '\u{b9}' || u[3]
        == '\u{b2}' || u[3] == '\u{b3}');
    three || four
}

/// What follows the stem in the `index`-th alternative of a taken path:
/// ` (index)`, then `.ext` when the path has a non-empty extension.
pub open spec fn candidate_suffix(path: PathView, index: nat) -> Seq<char> {
    let base = " ("@ + decimal(index) + ")"@;
    match extension_of(path) {
        Some(e) => if e.len() > 0 {
            base + "."@ + e
        } else {
            base
        },
        None => base,
    }
}

/// The stem the alternatives start from: the path's file stem, or `file`.
pub open spec fn candidate_stem(path: PathView) -> Seq<char> {
    match file_stem_of(path) {
        Some(s) => s,
        None => "file"@,
    }
}

/// A name within the portable limits: at most 255 UTF-8 bytes and at most
/// 255 UTF-16 units.
pub open spec fn fits_name_limits(s: Seq<char>) -> bool {
    utf8_len(s) <= 255 && utf16_len(s) <= 255
}

/// The longest count `k <= n` of leading characters of `stem` such that
/// they, followed by `suffix`, fit the limits; 0 when none does.
pub open spec fn fitted_stem_len(stem: Seq<char>, suffix: Seq<char>, n: nat) -> nat
    decreases n,
{
    if n == 0 || fits_name_limits(stem.take(n as int) + suffix) {
        n
    } else {
        fitted_stem_len(stem, suffix, (n - 1) as nat)
    }
}

/// The name tried for the `index`-th alternative of a taken path:
/// `stem (index).ext`, next to the original, with the stem shortened to
/// its longest prefix for which the name fits the portable limits.
pub open spec fn candidate_name(path: PathView, index: nat) -> Seq<char> {
    let stem = candidate_stem(path);
    let suffix = candidate_suffix(path, index);
    stem.take(fitted_stem_len(stem, suffix, stem.len()) as int) + suffix
}

/// The `index`-th alternative of a taken path.
pub open spec fn collision_candidate(path: PathView, index: nat) -> PathView {
    let parent = match parent_of(path) {
        Some(p) => p,
        None => parse_path("."@),
    };
    join_path(parent, parse_path(candidate_name(path, index)))
}

/// The encoded lengths of a concatenation add up.
pub proof fn lemma_encoded_len_concat(a: Seq<char>, b: Seq<char>)
    ensures
        utf8_len(a + b) == utf8_len(a) + utf8_len(b),
        utf16_len(a + b) == utf16_len(a) + utf16_len(b),
    decreases b.len(),
{
    if b.len() == 0 {
        assert(a + b =~= a);
    } else {
        lemma_encoded_len_concat(a, b.drop_last());
        assert((a + b).drop_last() =~= a + b.drop_last());
        assert((a + b).last() == b.last());
    }
}

/// A longer prefix has no shorter encoding.
pub proof fn lemma_encoded_len_prefix(s: Seq<char>, i: int, j: int)
    requires
        0 <= i <= j <= s.len(),
    ensures
        utf8_len(s.take(i)) <= utf8_len(s.take(j)),
        utf16_len(s.take(i)) <= utf16_len(s.take(j)),
    decreases j - i,
{
    if i < j {
        lemma_encoded_len_prefix(s, i, j - 1);
        assert(s.take(j).drop_last() =~= s.take(j - 1));
    }
}

/// The fitted count is `k` when `k` leading characters fit (or `k` is 0)
/// and one more does not (or there is none).
proof fn lemma_fitted_stem_len(stem: Seq<char>, suffix: Seq<char>, m: nat, k: nat)
    requires
        k <= m <= stem.len(),
        k == 0 || fits_name_limits(stem.take(k as int) + suffix),
        k == stem.len() || !fits_name_limits(stem.take(k + 1 as int) + suffix),
    ensures
        fitted_stem_len(stem, suffix, m) == k,
    decreases m,
{
    if m > k {
        lemma_encoded_len_prefix(stem, k + 1 as int, m as int);
        lemma_encoded_len_concat(stem.take(k + 1 as int), suffix);
        lemma_encoded_len_concat(stem.take(m as int), suffix);
        lemma_fitted_stem_len(stem, suffix, (m - 1) as nat, k);
    }
}

/// Law: every alternative name fits the portable limits of 255 UTF-8 bytes
/// and 255 UTF-16 units whenever its ` (index).ext` part alone does; its
/// stem is then the longest prefix of the original stem that fits.
pub proof fn law_candidate_names_fit(path: PathView, index: nat)
    requires
        fits_name_limits(candidate_suffix(path, index)),
    ensures
        fits_name_limits(candidate_name(path, index)),
        ({
            let stem = candidate_stem(path);
            let suffix = candidate_suffix(path, index);
            let k = fitted_stem_len(stem, suffix, stem.len());
            &&& k <= stem.len()
            &&& k < stem.len() ==> !fits_name_limits(stem.take(k + 1 as int) + suffix)
        }),
{
    let stem = candidate_stem(path);
    let suffix = candidate_suffix(path, index);
    let k = fitted_stem_len(stem, suffix, stem.len());
    lemma_fitted_bounds(stem, suffix, stem.len());
    assert(stem.take(0) + suffix =~= suffix);
    if k < stem.len() {
        lemma_no_fit_between(stem, suffix, stem.len(), k);
    }
}

proof fn lemma_fitted_bounds(stem: Seq<char>, suffix: Seq<char>, n: nat)
    requires
        n <= stem.len(),
    ensures
        fitted_stem_len(stem, suffix, n) <= n,
        fitted_stem_len(stem, suffix, n) == 0 || fits_name_limits(
            stem.take(fitted_stem_len(stem, suffix, n) as int) + suffix,
        ),
    decreases n,
{
    if n > 0 && !fits_name_limits(stem.take(n as int) + suffix) {
        lemma_fitted_bounds(stem, suffix, (n - 1) as nat);
    }
}

/// Walking down from `n`, every prefix longer than the fitted count fails.
proof fn lemma_no_fit_between(stem: Seq<char>, suffix: Seq<char>, n: nat, k: nat)
    requires
        n <= stem.len(),
        k == fitted_stem_len(stem, suffix, n),
        k < n,
    ensures
        !fits_name_limits(stem.take(k + 1 as int) + suffix),
    decreases n,
{
    if n > 0 && !fits_name_limits(stem.take(n as int) + suffix) {
        if n - 1 > k {
            lemma_no_fit_between(stem, suffix, (n - 1) as nat, k);
        }
    }
}

/// UTF-8 bytes and UTF-16 units of one character.
fn char_widths(c: char) -> (r: (usize, usize))
    ensures
        r.0 == utf8_width(c),
        r.1 == utf16_width(c),
{
    let u = c as u32;
    let w8: usize = if u < 0x80 {
        1
    } else if u < 0x800 {
        2
    } else if u < 0x10000 {
        3
    } else {
        4
    };
    let w16: usize = if u < 0x10000 {
        1
    } else {
        2
    };
    (w8, w16)
}

/// The longest prefix of `stem` that, followed by `suffix`, fits the limits.
fn fitted_stem(stem: &Vec<char>, suffix: &Vec<char>) -> (r: Vec<char>)
    ensures
        r@ == stem@.take(fitted_stem_len(stem@, suffix@, stem@.len()) as int),
{
    let (sa, sb) = encoded_lengths(suffix);
    let mut a: usize = 0;
    let mut b: usize = 0;
    let mut out: Vec<char> = Vec::new();
    let mut n: usize = 0;
    proof {
        lemma_encoded_len_concat(stem@.take(0), suffix@);
        assert(stem@.take(0) =~= Seq::<char>::empty());
    }
    while n < stem.len()
        invariant_except_break
            n <= stem.len(),
            out@ == stem@.take(n as int),
            a == utf8_len(stem@.take(n as int)),
            b == utf16_len(stem@.take(n as int)),
            a <= 255 && b <= 255,
            sa == if utf8_len(suffix@) > 1024 { 1024 } else { utf8_len(suffix@) },
            sb == if utf16_len(suffix@) > 1024 { 1024 } else { utf16_len(suffix@) },
            n == 0 || fits_name_limits(stem@.take(n as int) + suffix@),
        ensures
            n <= stem.len(),
            out@ == stem@.take(n as int),
            n == 0 || fits_name_limits(stem@.take(n as int) + suffix@),
            n == stem.len() || !fits_name_limits(stem@.take(n + 1) + suffix@),
        decreases stem.len() - n,
    {
        let c = stem[n];
        let (w8, w16) = char_widths(c);
        proof {
            let t = stem@.take(n + 1);
            assert(t.drop_last() =~= stem@.take(n as int));
            assert(t.last() == c);
            lemma_encoded_len_concat(t, suffix@);
        }
        if a + w8 + sa > 255 || b + w16 + sb > 255 {
            break;
        }
        a = a + w8;
        b = b + w16;
        out.push(c);
        n += 1;
        proof {
            assert(out@ =~= stem@.take(n as int));
        }
    }
    proof {
        lemma_fitted_stem_len(stem@, suffix@, stem@.len(), n as nat);
    }
    out
}

/// The path of the `index`-th alternative of a taken path.
pub fn collision_candidate_path(path: &FsPath, index: usize) -> (r: FsPath)
    ensures
        r@ == collision_candidate(path@, index as nat),
{
    let parent = match path.parent() {
        Some(p) => p,
        None => FsPath::parse("."),
    };
    let stem = match path.file_stem() {
        Some(s) => s,
        None => owned("file"),
    };
    let mut suffix = concat(" (", decimal_text(index).as_str());
    push_str(&mut suffix, ")");
    match path.extension() {
        Some(e) => {
            if char_len(e.as_str()) > 0 {
                push_str(&mut suffix, ".");
                push_str(&mut suffix, e.as_str());
            }
        },
        None => {},
    }
    let stem_chars = chars_of(stem.as_str());
    let suffix_chars = chars_of(suffix.as_str());
    let kept = fitted_stem(&stem_chars, &suffix_chars);
    let mut name = string_of(&kept);
    push_str(&mut name, suffix.as_str());
    parent.join_text(name.as_str())
}

/// The probe answered that a path with these components is free.
pub open spec fn reported_free<F: Fn(&FsPath) -> bool>(occupied: F, q: PathView) -> bool {
    exists|p: FsPath| p@ == q && #[trigger] occupied.ensures((&p,), false)
}

/// The probe answered that a path with these components is taken.
pub open spec fn reported_taken<F: Fn(&FsPath) -> bool>(occupied: F, q: PathView) -> bool {
    exists|p: FsPath| p@ == q && #[trigger] occupied.ensures((&p,), true)
}

pub open spec fn is_reserved_path(reserved: Seq<FsPath>, q: PathView) -> bool {
    exists|i: int| 0 <= i < reserved.len() && (#[trigger] reserved[i])@ == q
}

/// A path that the search must skip: reported taken or already reserved.
pub open spec fn blocked<F: Fn(&FsPath) -> bool>(
    occupied: F,
    reserved: Seq<FsPath>,
    q: PathView,
) -> bool {
    reported_taken(occupied, q) || is_reserved_path(reserved, q)
}

/// A path that the search may return: reported free and not reserved.
pub open spec fn open_path<F: Fn(&FsPath) -> bool>(
    occupied: F,
    reserved: Seq<FsPath>,
    q: PathView,
) -> bool {
    reported_free(occupied, q) && !is_reserved_path(reserved, q)
}

/// How many alternatives are tried before giving up.
pub open spec fn max_collision_index() -> nat {
    100_000
}

/// What `collision_safe_path_with_reserved` may return: the path itself
/// when it is open; else the first open alternative; else, when the path
/// and every alternative are blocked, nothing. A path it returns is never
/// one reported taken or reserved.
pub open spec fn collision_outcome<F: Fn(&FsPath) -> bool>(
    occupied: F,
    reserved: Seq<FsPath>,
    path: PathView,
    r: Option<PathView>,
) -> bool {
    ||| r == Some(path) && open_path(occupied, reserved, path)
    ||| blocked(occupied, reserved, path) && exists|k: nat|
        1 <= k <= max_collision_index() && r == Some(#[trigger] collision_candidate(path, k))
            && open_path(occupied, reserved, collision_candidate(path, k)) && forall|j: nat|
            1 <= j < k ==> blocked(occupied, reserved, #[trigger] collision_candidate(path, j))
    ||| r is None && search_gave_up(occupied, reserved, path)
}

fn reserved_contains(reserved: &Vec<FsPath>, p: &FsPath) -> (r: bool)
    ensures
        r == is_reserved_path(reserved@, p@),
{
    let mut i: usize = 0;
    while i < reserved.len()
        invariant
            i <= reserved.len(),
            forall|j: int| 0 <= j < i ==> (#[trigger] reserved@[j])@ != p@,
        decreases reserved.len() - i,
    {
        if reserved[i].same_as(p) {
            return true;
        }
        i += 1;
    }
    false
}

/// A destination that is neither taken on disk (as `occupied` reports it)
/// nor reserved by an earlier plan: the path itself, or the first free
/// `stem (n).ext` next to it for `n` up to 100 000; nothing when all of
/// them are taken or reserved.
pub fn collision_safe_path_with_reserved<F: Fn(&FsPath) -> bool>(
    path: &FsPath,
    reserved: &Vec<FsPath>,
    occupied: &F,
) -> (r: Option<FsPath>)
    requires
        forall|p: &FsPath| occupied.requires((p,)),
    ensures
        collision_outcome(*occupied, reserved@, path@, opt_path(r)),
{
    let taken = occupied(path);
    let held = reserved_contains(reserved, path);
    if !taken && !held {
        return Some(path.duplicate());
    }
    let mut index: usize = 1;
    while index <= 100_000
        invariant
            1 <= index <= 100_001,
            forall|p: &FsPath| occupied.requires((p,)),
            blocked(*occupied, reserved@, path@),
            forall|j: nat|
                1 <= j < index ==> blocked(
                    *occupied,
                    reserved@,
                    #[trigger] collision_candidate(path@, j),
                ),
        decreases 100_001 - index,
    {
        let candidate = collision_candidate_path(path, index);
        let c_taken = occupied(&candidate);
        let c_held = reserved_contains(reserved, &candidate);
        if !c_taken && !c_held {
            proof {
                assert(open_path(*occupied, reserved@, candidate@));
                let k = index as nat;
                assert(1 <= k <= max_collision_index() && Some(candidate@) == Some(collision_candidate(path@, k)));
            }
            return Some(candidate);
        }
        proof {
            assert(blocked(*occupied, reserved@, collision_candidate(path@, index as nat)));
        }
        index += 1;
    }
    None
}

/// The view of an optional path.
pub open spec fn opt_path(o: Option<FsPath>) -> Option<PathView> {
    match o {
        Some(p) => Some(p@),
        None => None,
    }
}

/// `collision_safe_path_with_reserved` with nothing reserved.
pub fn collision_safe_path<F: Fn(&FsPath) -> bool>(path: &FsPath, occupied: &F) -> (r: Option<FsPath>)
    requires
        forall|p: &FsPath| occupied.requires((p,)),
    ensures
        collision_outcome(*occupied, Seq::<FsPath>::empty(), path@, opt_path(r)),
{
    let none: Vec<FsPath> = Vec::new();
    collision_safe_path_with_reserved(path, &none, occupied)
}


/// Law: a rule subdirectory that is accepted and names at least one folder
/// gives a destination strictly below the root.
pub proof fn law_accepted_subdirectory_is_below_root(root: PathView, subdirectory: Seq<char>)
    requires
        !subdirectory_refused(subdirectory),
        parse_path(subdirectory).names.len() > 0,
    ensures
        starts_with_path(join_path(root, parse_path(subdirectory)), root),
        join_path(root, parse_path(subdirectory)) != root,
{
    lemma_join_strictly_below(root, parse_path(subdirectory));
}


/// Law: a rule subdirectory that does not start with `/` and holds no `.`
/// (such as plain names of letters, digits, `_` and `-` joined by `/`) is
/// accepted, and its destination lies strictly below the root.
pub proof fn law_plain_subdirectories_stay_below_root(root: PathView, subdirectory: Seq<char>)
    requires
        subdirectory.len() > 0,
        subdirectory[0] != '/',
        forall|i: int| 0 <= i < subdirectory.len() ==> #[trigger] subdirectory[i] != '.',
    ensures
        !subdirectory_refused(subdirectory),
        parse_path(subdirectory).names.len() > 0,
        starts_with_path(join_path(root, parse_path(subdirectory)), root),
        join_path(root, parse_path(subdirectory)) != root,
{
    let pieces = split_slash(subdirectory);
    let names = keep_pieces(pieces);
    assert(!contains_char(subdirectory, '.'));
    lemma_split_avoids(subdirectory, '.');
    lemma_keep_avoids(pieces, '.');
    lemma_first_piece_nonempty(subdirectory);
    assert(kept_piece(pieces[0])) by {
        if pieces[0] == seq!['.'] {
            assert(pieces[0][0] == '.');
            assert(!contains_char(pieces[0], '.'));
        }
    }
    lemma_keep_nonempty(pieces, 0);
    assert forall|i: int| 0 <= i < names.len() implies !is_parent_name(#[trigger] names[i]) by {
        if names[i] == seq!['.', '.'] {
            assert(names[i][0] == '.');
            assert(!contains_char(names[i], '.'));
        }
    }
    assert(!parse_path(subdirectory).escapes());
    law_accepted_subdirectory_is_below_root(root, subdirectory);
}

/// Law: a rule subdirectory `..`, or one that starts with `../`, is always
/// refused.
pub proof fn law_parent_traversal_is_refused(suffix: Seq<char>)
    ensures
        subdirectory_refused(".."@),
        subdirectory_refused("../"@ + suffix),
{
    reveal_strlit("..");
    reveal_strlit("../");
    lemma_dot_dot_escapes(".."@);
    let s = "../"@ + suffix;
    assert(s[0] == '.' && s[1] == '.' && s[2] == '/');
    lemma_dot_dot_escapes(s);
}


/// A text without separators is its own last piece.
pub proof fn lemma_last_piece_whole(s: Seq<char>)
    requires
        forall|i: int| 0 <= i < s.len() ==> #[trigger] s[i] != '/' && s[i] != '\\',
    ensures
        last_piece_len(s) == s.len(),
    decreases s.len(),
{
    if s.len() > 0 {
        let init = s.drop_last();
        assert forall|i: int| 0 <= i < init.len() implies #[trigger] init[i] != '/' && init[i] != '\\' by {
            assert(init[i] == s[i]);
        }
        lemma_last_piece_whole(init);
        assert(s[s.len() - 1] == s.last());
    }
}

/// The first piece is no longer than the text.
pub proof fn lemma_first_piece_bound(s: Seq<char>)
    ensures
        first_piece_len(s) <= s.len(),
    decreases s.len(),
{
    if s.len() > 0 && s[0] != '.' {
        lemma_first_piece_bound(s.skip(1));
    }
}

/// The first piece reaches past every leading character that is not `.`.
pub proof fn lemma_first_piece_at_least(s: Seq<char>, k: int)
    requires
        0 <= k <= s.len(),
        forall|i: int| 0 <= i < k ==> #[trigger] s[i] != '.',
    ensures
        first_piece_len(s) >= k,
    decreases k,
{
    if k > 0 {
        let rest = s.skip(1);
        assert forall|i: int| 0 <= i < k - 1 implies #[trigger] rest[i] != '.' by {
            assert(rest[i] == s[i + 1]);
        }
        lemma_first_piece_at_least(rest, k - 1);
        assert(s[0] != '.');
    }
}

/// A letter, a digit, `_` or `-`.
pub open spec fn is_portable_char(c: char) -> bool {
    ('A' <= c && c <= 'Z') || ('a' <= c && c <= 'z') || ('0' <= c && c <= '9') || c == '_' || c == '-'
}

/// Law: `file_<stem>.<ext>` is an accepted filename when the stem has 1 to
/// 120 letters, digits, `_` or `-`, and the extension 1 to 8 letters or
/// digits.
pub proof fn law_portable_names_are_accepted(stem: Seq<char>, ext: Seq<char>, label: Seq<char>)
    requires
        1 <= stem.len() <= 120,
        1 <= ext.len() <= 8,
        forall|i: int| 0 <= i < stem.len() ==> is_portable_char(#[trigger] stem[i]),
        forall|i: int| 0 <= i < ext.len() ==> is_portable_char(#[trigger] ext[i]) && ext[i] != '_'
            && ext[i] != '-',
    ensures
        filename_problem("file_"@ + stem + "."@ + ext, label) is None,
{
    reveal_strlit("file_");
    reveal_strlit(".");
    let f = "file_"@ + stem + "."@ + ext;
    let d = 5 + stem.len();
    assert(f.len() == d + 1 + ext.len());
    assert forall|i: int| 0 <= i < f.len() implies (is_portable_char(#[trigger] f[i]) || f[i] == '.') by {
        if i < 5 {
        } else if i < d {
            assert(f[i] == stem[i - 5]);
        } else if i == d {
        } else {
            assert(f[i] == ext[i - d - 1]);
        }
    }
    assert forall|i: int| 0 <= i < f.len() implies (#[trigger] f[i] as u32) < 0x80 by {
        assert(is_portable_char(f[i]) || f[i] == '.');
    }
    lemma_ascii_lengths(f);
    assert(f != seq!['.']) by {
        assert(f.len() != 1);
    }
    assert(f != seq!['.', '.']) by {
        assert(f.len() != 2);
    }
    assert(!has_unsafe_filename_char(f)) by {
        assert forall|i: int| 0 <= i < f.len() implies !is_unsafe_filename_char(#[trigger] f[i]) by {
            assert(is_portable_char(f[i]) || f[i] == '.');
        }
    }
    assert(f.last() == ext[ext.len() - 1]);
    assert forall|i: int| 0 <= i < f.len() implies #[trigger] f[i] != '/' && f[i] != '\\' by {
        assert(is_portable_char(f[i]) || f[i] == '.');
    }
    lemma_last_piece_whole(f);
    assert(f.skip(f.len() - last_piece_len(f)) =~= f);
    assert forall|i: int| 0 <= i < d implies #[trigger] f[i] != '.' by {
        if i >= 5 {
            assert(f[i] == stem[i - 5]);
        }
    }
    lemma_first_piece_at_least(f, d as int);
    lemma_first_piece_bound(f);
    let last = f.skip(f.len() - last_piece_len(f));
    assert(last == f);
    assert(last.take(first_piece_len(last) as int).len() == first_piece_len(f));
    assert(device_stem(f).len() >= 6);
}


/// The first piece ends at the first `.`.
pub proof fn lemma_first_piece_at_most(s: Seq<char>, k: int)
    requires
        0 <= k < s.len(),
        s[k] == '.',
    ensures
        first_piece_len(s) <= k,
    decreases k,
{
    if k > 0 && s[0] != '.' {
        assert(s.skip(1)[k - 1] == s[k]);
        lemma_first_piece_at_most(s.skip(1), k - 1);
    }
}


/// The search gave up: the path and every alternative up to 100 000 were
/// blocked.
pub open spec fn search_gave_up<F: Fn(&FsPath) -> bool>(
    occupied: F,
    reserved: Seq<FsPath>,
    path: PathView,
) -> bool {
    blocked(occupied, reserved, path) && forall|j: nat|
        1 <= j <= max_collision_index() ==> blocked(
            occupied,
            reserved,
            #[trigger] collision_candidate(path, j),
        )
}

/// Law: a path the collision search returns is one the probe reported
/// free and no earlier plan reserved; it never returns an occupied path.
pub proof fn law_collision_result_is_free<F: Fn(&FsPath) -> bool>(
    occupied: F,
    reserved: Seq<FsPath>,
    path: PathView,
    r: PathView,
)
    requires
        collision_outcome(occupied, reserved, path, Some(r)),
    ensures
        reported_free(occupied, r),
        !is_reserved_path(reserved, r),
{
}

} // verus!

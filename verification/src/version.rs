//! Release versioning: the package version of a Cargo manifest, and the
//! manifest rewritten for the next release (a version asked for, or the
//! current one with its patch number raised by one).

use vstd::prelude::*;
use crate::direct::{decimal, decimal_text, digit_text, law_digit_text};

verus! {

/// Whether `c` is white space, as `char::is_whitespace` has it (the Unicode
/// `White_Space` characters).
pub open spec fn is_white(c: char) -> bool {
    ||| '\t' <= c <= '\r'
    ||| c == ' '
    ||| c == '\u{85}'
    ||| c == '\u{A0}'
    ||| c == '\u{1680}'
    ||| '\u{2000}' <= c <= '\u{200A}'
    ||| c == '\u{2028}'
    ||| c == '\u{2029}'
    ||| c == '\u{202F}'
    ||| c == '\u{205F}'
    ||| c == '\u{3000}'
}

/// `s` without its leading white space.
pub open spec fn trim_start(s: Seq<char>) -> Seq<char>
    decreases s.len(),
{
    if s.len() > 0 && is_white(s[0]) {
        trim_start(s.drop_first())
    } else {
        s
    }
}

/// `s` without its trailing white space.
pub open spec fn trim_end(s: Seq<char>) -> Seq<char>
    decreases s.len(),
{
    if s.len() > 0 && is_white(s.last()) {
        trim_end(s.drop_last())
    } else {
        s
    }
}

/// `s` without leading and trailing white space, as `str::trim` gives it.
pub open spec fn trimmed(s: Seq<char>) -> Seq<char> {
    trim_end(trim_start(s))
}

/// The lines of `s` from position `i` on, the current line having started
/// at `start`: as `str::lines` splits them, at each `\n`, a `\r` just before
/// it dropped, with no empty line after a final `\n`.
pub open spec fn lines_from(s: Seq<char>, start: int, i: int) -> Seq<Seq<char>>
    decreases s.len() - i,
{
    if i >= s.len() {
        if start < s.len() {
            seq![s.subrange(start, s.len() as int)]
        } else {
            seq![]
        }
    } else if s[i] == '\n' {
        let end = if i > start && s[i - 1] == '\r' { i - 1 } else { i };
        seq![s.subrange(start, end)] + lines_from(s, i + 1, i + 1)
    } else {
        lines_from(s, start, i + 1)
    }
}

/// The lines of the text `s`, as `str::lines` gives them.
pub open spec fn text_lines(s: Seq<char>) -> Seq<Seq<char>> {
    lines_from(s, 0, 0)
}

/// The first position at or after `from` where `s` holds `c`.
pub open spec fn find_char(s: Seq<char>, c: char, from: int) -> Option<int>
    decreases s.len() - from,
{
    if from < 0 || from >= s.len() {
        None
    } else if s[from] == c {
        Some(from)
    } else {
        find_char(s, c, from + 1)
    }
}

/// The positions of the first two double quotes of `line`.
pub open spec fn quote_span(line: Seq<char>) -> Option<(int, int)> {
    match find_char(line, '"', 0) {
        Some(a) => match find_char(line, '"', a + 1) {
            Some(b) => Some((a, b)),
            None => None,
        },
        None => None,
    }
}

/// Where the package version stands, searching `lines` from `i` on, `in_package`
/// telling whether the search is inside the `[package]` section: the first
/// line of the section whose trimmed text starts with `version` and that holds
/// two double quotes, with the positions of those quotes. A line whose trimmed
/// text is `[package]` opens the section; another line starting with `[`
/// closes it.
pub open spec fn version_search(lines: Seq<Seq<char>>, i: int, in_package: bool) -> Option<(int, int, int)>
    decreases lines.len() - i,
{
    if i < 0 || i >= lines.len() {
        None
    } else {
        let t = trimmed(lines[i]);
        if t == "[package]"@ {
            version_search(lines, i + 1, true)
        } else {
            let inside = in_package && !"["@.is_prefix_of(t);
            match quote_span(lines[i]) {
                Some((a, b)) if inside && "version"@.is_prefix_of(t) => Some((i, a, b)),
                _ => version_search(lines, i + 1, inside),
            }
        }
    }
}

/// Where the package version of the manifest `content` stands: its line, and
/// the positions in that line of the quotes around it.
pub open spec fn package_version(content: Seq<char>) -> Option<(int, int, int)> {
    version_search(text_lines(content), 0, false)
}

/// The package version of the manifest `content`, when it has one.
pub open spec fn current_version(content: Seq<char>) -> Option<Seq<char>> {
    match package_version(content) {
        Some((i, a, b)) => Some(text_lines(content)[i].subrange(a + 1, b)),
        None => None,
    }
}

/// The version asked for: the request, trimmed, unless it is blank.
pub open spec fn requested_version(requested: Option<Seq<char>>) -> Option<Seq<char>> {
    match requested {
        Some(r) => if trimmed(r).len() > 0 {
            Some(trimmed(r))
        } else {
            None
        },
        None => None,
    }
}

/// The three dot-separated parts of `v`, when it has exactly three.
pub open spec fn semver_parts(v: Seq<char>) -> Option<(Seq<char>, Seq<char>, Seq<char>)> {
    match find_char(v, '.', 0) {
        Some(d1) => match find_char(v, '.', d1 + 1) {
            Some(d2) => if find_char(v, '.', d2 + 1) is None {
                Some((v.subrange(0, d1), v.subrange(d1 + 1, d2), v.subrange(d2 + 1, v.len() as int)))
            } else {
                None
            },
            None => None,
        },
        None => None,
    }
}

/// Whether `c` is an ASCII decimal digit.
pub open spec fn is_digit(c: char) -> bool {
    '0' <= c <= '9'
}

/// The value of the decimal digits `d`.
pub open spec fn digits_value(d: Seq<char>) -> nat
    decreases d.len(),
{
    if d.len() == 0 {
        0
    } else {
        digits_value(d.drop_last()) * 10 + ((d.last() as int) - ('0' as int)) as nat
    }
}

/// The digits of `p` once an optional leading `+` is dropped.
pub open spec fn unsigned_digits(p: Seq<char>) -> Seq<char> {
    if p.len() > 0 && p[0] == '+' {
        p.drop_first()
    } else {
        p
    }
}

/// The value of `p` read as a `u32`, as `str::parse::<u32>` reads it: an
/// optional `+`, then at least one decimal digit, the value fitting in 32 bits.
pub open spec fn parsed_u32(p: Seq<char>) -> Option<nat> {
    let d = unsigned_digits(p);
    if d.len() > 0 && (forall|i: int| 0 <= i < d.len() ==> is_digit(#[trigger] d[i])) && digits_value(d) <= u32::MAX {
        Some(digits_value(d))
    } else {
        None
    }
}

/// The version that follows `old` when none is asked for: its patch number
/// raised by one, when `old` is `X.Y.Z` with a `u32` patch that can be raised.
pub open spec fn patch_bumped(old: Seq<char>) -> Option<Seq<char>> {
    match semver_parts(old) {
        Some((major, minor, patch)) => match parsed_u32(patch) {
            Some(n) => if n < u32::MAX {
                Some(major + "."@ + minor + "."@ + decimal_text(n + 1))
            } else {
                None
            },
            None => None,
        },
        None => None,
    }
}

/// The version to release: the one asked for, or else the patch bump of `old`.
pub open spec fn target_version(old: Seq<char>, requested: Option<Seq<char>>) -> Option<Seq<char>> {
    match requested_version(requested) {
        Some(t) => Some(t),
        None => patch_bumped(old),
    }
}

/// The lines `lines`, each followed by a new line.
pub open spec fn joined(lines: Seq<Seq<char>>) -> Seq<char>
    decreases lines.len(),
{
    if lines.len() == 0 {
        seq![]
    } else {
        joined(lines.drop_last()) + lines.last() + "\n"@
    }
}

/// The manifest `content` with the text between the quotes at positions `a`
/// and `b` of line `i` replaced by `version`; every other line is kept as it
/// was, and each line ends with a new line.
pub open spec fn rewritten(content: Seq<char>, i: int, a: int, b: int, version: Seq<char>) -> Seq<char> {
    let lines = text_lines(content);
    let line = lines[i];
    joined(lines.update(i, line.subrange(0, a + 1) + version + line.subrange(b, line.len() as int)))
}


/// Whether `c` is white space.
fn white(c: char) -> (r: bool)
    ensures
        r == is_white(c),
{
    ('\t' <= c && c <= '\r') || c == ' ' || c == '\u{85}' || c == '\u{A0}' || c == '\u{1680}'
        || ('\u{2000}' <= c && c <= '\u{200A}') || c == '\u{2028}' || c == '\u{2029}' || c == '\u{202F}'
        || c == '\u{205F}' || c == '\u{3000}'
}

/// The bounds of the text between `lo` and `hi` of `s` once trimmed.
fn trim_span(s: &str, lo: usize, hi: usize) -> (r: (usize, usize))
    requires
        lo <= hi <= s@.len(),
    ensures
        lo <= r.0 <= r.1 <= hi,
        s@.subrange(r.0 as int, r.1 as int) == trimmed(s@.subrange(lo as int, hi as int)),
{
    let mut a = lo;
    while a < hi && white(s.get_char(a))
        invariant
            lo <= a <= hi <= s@.len(),
            trim_start(s@.subrange(lo as int, hi as int)) == trim_start(s@.subrange(a as int, hi as int)),
        decreases hi - a,
    {
        assert(s@.subrange(a as int, hi as int)[0] == s@[a as int]);
        assert(s@.subrange(a as int, hi as int).drop_first() =~= s@.subrange(a + 1, hi as int));
        a = a + 1;
    }
    let mut b = hi;
    while b > a && white(s.get_char(b - 1))
        invariant
            lo <= a <= b <= hi <= s@.len(),
            trim_start(s@.subrange(lo as int, hi as int)) == s@.subrange(a as int, hi as int),
            trim_end(s@.subrange(a as int, hi as int)) == trim_end(s@.subrange(a as int, b as int)),
        decreases b - a,
    {
        assert(s@.subrange(a as int, b as int).last() == s@[b - 1]);
        assert(s@.subrange(a as int, b as int).drop_last() =~= s@.subrange(a as int, b - 1));
        b = b - 1;
    }
    (a, b)
}

/// Whether the text between `lo` and `hi` of `s` is `t`.
fn span_equals(s: &str, lo: usize, hi: usize, t: &str) -> (r: bool)
    requires
        lo <= hi <= s@.len(),
    ensures
        r == (s@.subrange(lo as int, hi as int) == t@),
{
    let n = t.unicode_len();
    if hi - lo != n {
        return false;
    }
    let mut i: usize = 0;
    while i < n
        invariant
            n == t@.len(),
            hi - lo == n,
            lo <= hi <= s@.len(),
            i <= n,
            forall|k: int| 0 <= k < i ==> s@[lo + k] == t@[k],
        decreases n - i,
    {
        if s.get_char(lo + i) != t.get_char(i) {
            assert(s@.subrange(lo as int, hi as int)[i as int] != t@[i as int]);
            return false;
        }
        i = i + 1;
    }
    assert(s@.subrange(lo as int, hi as int) =~= t@);
    true
}

/// Whether the text between `lo` and `hi` of `s` starts with `t`.
fn span_starts_with(s: &str, lo: usize, hi: usize, t: &str) -> (r: bool)
    requires
        lo <= hi <= s@.len(),
    ensures
        r == t@.is_prefix_of(s@.subrange(lo as int, hi as int)),
{
    let n = t.unicode_len();
    if hi - lo < n {
        return false;
    }
    let mut i: usize = 0;
    while i < n
        invariant
            n == t@.len(),
            hi - lo >= n,
            lo <= hi <= s@.len(),
            i <= n,
            forall|k: int| 0 <= k < i ==> s@[lo + k] == t@[k],
        decreases n - i,
    {
        if s.get_char(lo + i) != t.get_char(i) {
            assert(s@.subrange(lo as int, hi as int)[i as int] != t@[i as int]);
            return false;
        }
        i = i + 1;
    }
    assert(t@ =~= s@.subrange(lo as int, hi as int).subrange(0, n as int));
    true
}

/// The first position at or after `from`, before `hi`, where `s` holds `c`.
fn find_between(s: &str, c: char, from: usize, lo: usize, hi: usize) -> (r: Option<usize>)
    requires
        lo <= from <= hi <= s@.len(),
    ensures
        r is None <==> find_char(s@.subrange(lo as int, hi as int), c, from - lo) is None,
        r matches Some(p) ==> from <= p < hi && find_char(s@.subrange(lo as int, hi as int), c, from - lo) == Some(p - lo),
{
    let ghost line = s@.subrange(lo as int, hi as int);
    let mut i = from;
    while i < hi
        invariant
            lo <= from <= i <= hi <= s@.len(),
            line == s@.subrange(lo as int, hi as int),
            find_char(line, c, from - lo) == find_char(line, c, i - lo),
        decreases hi - i,
    {
        assert(line[i - lo] == s@[i as int]);
        if s.get_char(i) == c {
            return Some(i);
        }
        i = i + 1;
    }
    None
}

/// Where each line of `s` starts and ends (a `\r` before its `\n` excluded).
fn line_spans(s: &str) -> (r: Vec<(usize, usize)>)
    ensures
        r@.len() == text_lines(s@).len(),
        forall|k: int| 0 <= k < r@.len() ==> {
            &&& (#[trigger] r@[k]).0 <= r@[k].1 <= s@.len()
            &&& s@.subrange(r@[k].0 as int, r@[k].1 as int) == text_lines(s@)[k]
        },
{
    let n = s.unicode_len();
    let mut r: Vec<(usize, usize)> = Vec::new();
    let ghost mut got: Seq<Seq<char>> = seq![];
    let mut start: usize = 0;
    let mut i: usize = 0;
    assert(got + lines_from(s@, 0, 0) =~= text_lines(s@));
    while i < n
        invariant
            n == s@.len(),
            start <= i <= n,
            got.len() == r@.len(),
            forall|k: int| 0 <= k < r@.len() ==> {
                &&& (#[trigger] r@[k]).0 <= r@[k].1 <= s@.len()
                &&& s@.subrange(r@[k].0 as int, r@[k].1 as int) == got[k]
            },
            got + lines_from(s@, start as int, i as int) == text_lines(s@),
        decreases n - i,
    {
        if s.get_char(i) == '\n' {
            let end = if i > start && s.get_char(i - 1) == '\r' { i - 1 } else { i };
            let ghost line = s@.subrange(start as int, end as int);
            assert(lines_from(s@, start as int, i as int) == seq![line] + lines_from(s@, i + 1, i + 1));
            assert(got.push(line) + lines_from(s@, i + 1, i + 1) =~= got + (seq![line] + lines_from(s@, i + 1, i + 1)));
            r.push((start, end));
            proof {
                got = got.push(line);
            }
            start = i + 1;
        }
        i = i + 1;
    }
    if start < n {
        let ghost line = s@.subrange(start as int, n as int);
        assert(got.push(line) =~= got + lines_from(s@, start as int, n as int));
        r.push((start, n));
        proof {
            got = got.push(line);
        }
    } else {
        assert(got + lines_from(s@, start as int, n as int) =~= got);
    }
    assert(got =~= text_lines(s@));
    r
}


/// Where the package version of `content` stands: its line, and the positions
/// in `content` of the quotes around it.
fn locate_version(content: &str, spans: &Vec<(usize, usize)>) -> (r: Option<(usize, usize, usize)>)
    requires
        spans@.len() == text_lines(content@).len(),
        forall|k: int| 0 <= k < spans@.len() ==> {
            &&& (#[trigger] spans@[k]).0 <= spans@[k].1 <= content@.len()
            &&& content@.subrange(spans@[k].0 as int, spans@[k].1 as int) == text_lines(content@)[k]
        },
    ensures
        match package_version(content@) {
            Some((i, a, b)) => {
                &&& r matches Some((k, qa, qb))
                &&& k == i
                &&& 0 <= i < spans@.len()
                &&& qa == a + spans@[i].0
                &&& qb == b + spans@[i].0
            },
            None => r is None,
        },
{
    let ghost lines = text_lines(content@);
    let mut in_package = false;
    let mut k: usize = 0;
    while k < spans.len()
        invariant
            lines == text_lines(content@),
            spans@.len() == lines.len(),
            forall|j: int| 0 <= j < spans@.len() ==> {
                &&& (#[trigger] spans@[j]).0 <= spans@[j].1 <= content@.len()
                &&& content@.subrange(spans@[j].0 as int, spans@[j].1 as int) == lines[j]
            },
            k <= spans@.len(),
            version_search(lines, 0, false) == version_search(lines, k as int, in_package),
        decreases spans.len() - k,
    {
        let (lo, hi) = spans[k];
        let ghost line = lines[k as int];
        let ghost was_in = in_package;
        assert(content@.subrange(lo as int, hi as int) == line);
        let (tlo, thi) = trim_span(content, lo, hi);
        let ghost t = trimmed(line);
        assert(content@.subrange(tlo as int, thi as int) == t);
        if span_equals(content, tlo, thi, "[package]") {
            in_package = true;
            assert(version_search(lines, k as int, was_in) == version_search(lines, k + 1, true));
        } else {
            if in_package && span_starts_with(content, tlo, thi, "[") {
                in_package = false;
            }
            let ghost inside = in_package;
            assert(inside == (was_in && !"["@.is_prefix_of(t)));
            let mut quotes: Option<(usize, usize)> = None;
            if in_package && span_starts_with(content, tlo, thi, "version") {
                if let Some(a) = find_between(content, '"', lo, lo, hi) {
                    assert(find_char(line, '"', 0) == Some(a - lo));
                    if let Some(b) = find_between(content, '"', a + 1, lo, hi) {
                        assert(find_char(line, '"', a - lo + 1) == Some(b - lo));
                        assert(quote_span(line) == Some(((a - lo) as int, (b - lo) as int)));
                        quotes = Some((a, b));
                    } else {
                        assert(quote_span(line) is None);
                    }
                } else {
                    assert(quote_span(line) is None);
                }
            }
            if let Some((a, b)) = quotes {
                return Some((k, a, b));
            }
            assert(version_search(lines, k as int, was_in) == version_search(lines, k + 1, inside));
        }
        k = k + 1;
    }
    None
}

/// Every prefix of decimal digits has a value no larger than the whole.
proof fn lemma_digits_prefix(d: Seq<char>, k: int)
    requires
        0 <= k <= d.len(),
    ensures
        digits_value(d.take(k)) <= digits_value(d),
    decreases d.len(),
{
    if k < d.len() {
        lemma_digits_prefix(d.drop_last(), k);
        assert(d.drop_last().take(k) =~= d.take(k));
    } else {
        assert(d.take(k) =~= d);
    }
}

/// The text between `lo` and `hi` of `s`, read as a `u32`.
fn parse_u32_span(s: &str, lo: usize, hi: usize) -> (r: Option<u32>)
    requires
        lo <= hi <= s@.len(),
    ensures
        match parsed_u32(s@.subrange(lo as int, hi as int)) {
            Some(n) => r == Some(n as u32),
            None => r is None,
        },
{
    let ghost p = s@.subrange(lo as int, hi as int);
    let mut start = lo;
    if lo < hi && s.get_char(lo) == '+' {
        start = lo + 1;
    }
    let ghost d = s@.subrange(start as int, hi as int);
    assert(d =~= unsigned_digits(p));
    if start == hi {
        return None;
    }
    let mut value: u64 = 0;
    let mut i = start;
    assert(d.take(0) =~= Seq::<char>::empty());
    while i < hi
        invariant
            lo <= start < hi <= s@.len(),
            start <= i <= hi,
            d == s@.subrange(start as int, hi as int),
            d == unsigned_digits(p),
            p == s@.subrange(lo as int, hi as int),
            value == digits_value(d.take(i - start)),
            forall|k: int| 0 <= k < i - start ==> is_digit(#[trigger] d[k]),
            value <= u32::MAX,
        decreases hi - i,
    {
        let c = s.get_char(i);
        assert(d[i - start] == c);
        if !('0' <= c && c <= '9') {
            assert(!is_digit(d[i - start]));
            return None;
        }
        assert(d.take(i - start + 1).drop_last() =~= d.take(i - start));
        assert(d.take(i - start + 1).last() == c);
        value = value * 10 + (c as u64 - '0' as u64);
        if value > 4294967295 {
            proof {
                if forall|k: int| 0 <= k < d.len() ==> is_digit(#[trigger] d[k]) {
                    lemma_digits_prefix(d, i - start + 1);
                }
            }
            return None;
        }
        i = i + 1;
    }
    assert(d.take(d.len() as int) =~= d);
    Some(value as u32)
}

/// The manifest `content` as a view, and the request as one.
pub open spec fn request_view(requested: Option<&str>) -> Option<Seq<char>> {
    match requested {
        Some(r) => Some(r@),
        None => None,
    }
}

/// A manifest rewritten for a release.
pub struct VersionBump {
    /// The package version found in the manifest.
    pub old_version: String,
    /// The version released.
    pub new_version: String,
    /// The manifest with the new version in place of the old.
    pub manifest: String,
}

/// Why a manifest cannot be rewritten for a release.
#[derive(Debug, Clone, PartialEq, Eq)]
pub enum BumpError {
    /// No quoted `version` line stands in the `[package]` section.
    VersionNotFound,
    /// No version was asked for and the current one does not have three
    /// dot-separated parts.
    NotSemver { version: String },
    /// No version was asked for and the patch part of the current one is not a
    /// `u32` integer.
    PatchNotInteger { patch: String, version: String },
    /// No version was asked for and the patch part of the current one is the
    /// largest `u32`, which cannot be raised.
    PatchOverflow { patch: String, version: String },
}

impl BumpError {
    /// The text of the error.
    pub fn message(&self) -> (r: String)
        ensures
            r@ == match self {
                BumpError::VersionNotFound => "Could not find version in [package] section of Cargo.toml"@,
                BumpError::NotSemver { version } =>
                    "Current version '"@ + version@ + "' is not in standard X.Y.Z semver format."@,
                BumpError::PatchNotInteger { patch, version } =>
                    "Patch version part '"@ + patch@ + "' in '"@ + version@ + "' is not an integer."@,
                BumpError::PatchOverflow { patch, version } =>
                    "Patch version part '"@ + patch@ + "' in '"@ + version@ + "' is the largest 32-bit number and cannot be raised."@,
            },
    {
        match self {
            BumpError::VersionNotFound => "Could not find version in [package] section of Cargo.toml".to_owned(),
            BumpError::NotSemver { version } => {
                let mut m = "Current version '".to_owned();
                m.append(version.as_str());
                m.append("' is not in standard X.Y.Z semver format.");
                m
            },
            BumpError::PatchNotInteger { patch, version } => {
                let mut m = "Patch version part '".to_owned();
                m.append(patch.as_str());
                m.append("' in '");
                m.append(version.as_str());
                m.append("' is not an integer.");
                m
            },
            BumpError::PatchOverflow { patch, version } => {
                let mut m = "Patch version part '".to_owned();
                m.append(patch.as_str());
                m.append("' in '");
                m.append(version.as_str());
                m.append("' is the largest 32-bit number and cannot be raised.");
                m
            },
        }
    }
}


/// The version that follows `old` when none is asked for: its patch number
/// raised by one, or why it cannot be.
fn bump_patch(old: &str) -> (r: Result<String, BumpError>)
    ensures
        r is Ok <==> patch_bumped(old@) is Some,
        r matches Ok(v) ==> patch_bumped(old@) == Some(v@),
        r matches Err(e) ==> match semver_parts(old@) {
            None => e matches BumpError::NotSemver { version } && version@ == old@,
            Some((_, _, patch)) => match parsed_u32(patch) {
                None => e matches BumpError::PatchNotInteger { patch: p, version } && p@ == patch && version@ == old@,
                Some(_) => e matches BumpError::PatchOverflow { patch: p, version } && p@ == patch && version@ == old@,
            },
        },
{
    let n = old.unicode_len();
    assert(old@.subrange(0, n as int) =~= old@);
    let d1 = match find_between(old, '.', 0, 0, n) {
        Some(d) => d,
        None => return Err(BumpError::NotSemver { version: old.to_owned() }),
    };
    let d2 = match find_between(old, '.', d1 + 1, 0, n) {
        Some(d) => d,
        None => return Err(BumpError::NotSemver { version: old.to_owned() }),
    };
    if find_between(old, '.', d2 + 1, 0, n).is_some() {
        return Err(BumpError::NotSemver { version: old.to_owned() });
    }
    let ghost parts = semver_parts(old@);
    assert(parts == Some((old@.subrange(0, d1 as int), old@.subrange(d1 + 1, d2 as int), old@.subrange(d2 + 1, n as int))));
    let patch = match parse_u32_span(old, d2 + 1, n) {
        Some(p) => p,
        None => return Err(BumpError::PatchNotInteger {
            patch: old.substring_char(d2 + 1, n).to_owned(),
            version: old.to_owned(),
        }),
    };
    if patch == 4294967295 {
        return Err(BumpError::PatchOverflow {
            patch: old.substring_char(d2 + 1, n).to_owned(),
            version: old.to_owned(),
        });
    }
    let mut v = String::new();
    v.append(old.substring_char(0, d1));
    v.append(".");
    v.append(old.substring_char(d1 + 1, d2));
    v.append(".");
    v.append(decimal(patch as u64 + 1).as_str());
    assert(v@ =~= old@.subrange(0, d1 as int) + "."@ + old@.subrange(d1 + 1, d2 as int) + "."@ + decimal_text((patch + 1) as nat));
    Ok(v)
}

/// Rewrites the manifest `content` for a release. Its package version is the
/// quoted text of the first line of the `[package]` section that starts with
/// `version` (spaces aside); the new version is `requested` trimmed, unless it
/// is missing or blank, and else the current one with its patch number raised
/// by one (`0.1.0` becomes `0.1.1`). The manifest comes back with the new
/// version between the same quotes, every other line as it was, each line
/// ending with a new line.
pub fn bump_manifest_version(content: &str, requested: Option<&str>) -> (r: Result<VersionBump, BumpError>)
    ensures
        r == Err::<VersionBump, BumpError>(BumpError::VersionNotFound) <==> package_version(content@) is None,
        r is Ok <==> (current_version(content@) matches Some(old)
            && target_version(old, request_view(requested)) is Some),
        r matches Ok(v) ==> (package_version(content@) matches Some((i, a, b))
            && Some(v.old_version@) == current_version(content@)
            && Some(v.new_version@) == target_version(v.old_version@, request_view(requested))
            && v.manifest@ == rewritten(content@, i, a, b, v.new_version@)),
        r matches Err(e) ==> (e == BumpError::VersionNotFound || (current_version(content@) matches Some(old)
            && requested_version(request_view(requested)) is None
            && match semver_parts(old) {
                None => e matches BumpError::NotSemver { version } && version@ == old,
                Some((_, _, patch)) => match parsed_u32(patch) {
                    None => e matches BumpError::PatchNotInteger { patch: p, version } && p@ == patch && version@ == old,
                    Some(_) => e matches BumpError::PatchOverflow { patch: p, version } && p@ == patch && version@ == old,
                },
            })),
{
    let spans = line_spans(content);
    let ghost lines = text_lines(content@);
    let (k, qa, qb) = match locate_version(content, &spans) {
        Some(found) => found,
        None => return Err(BumpError::VersionNotFound),
    };
    let (lo, hi) = spans[k];
    let ghost line = lines[k as int];
    let ghost a = qa - lo;
    let ghost b = qb - lo;
    assert(content@.subrange(lo as int, hi as int) == line);
    assert(package_version(content@) == Some((k as int, a, b)));
    proof {
        assert(quote_span(line) == Some((a, b))) by {
            // the search stops only at a line with two quotes
            lemma_search_found(lines, 0, false);
        }
        assert(find_char(line, '"', a + 1) == Some(b));
        lemma_find_bounds(line, '"', a + 1);
    }
    let old = content.substring_char(qa + 1, qb);
    assert(old@ =~= line.subrange(a + 1, b));
    let mut target: Option<String> = None;
    if let Some(req) = requested {
        let n = req.unicode_len();
        let (x, y) = trim_span(req, 0, n);
        assert(req@.subrange(0, n as int) =~= req@);
        if x < y {
            target = Some(req.substring_char(x, y).to_owned());
        }
    }
    let new_version = match target {
        Some(t) => t,
        None => match bump_patch(old) {
            Ok(v) => v,
            Err(e) => return Err(e),
        },
    };
    let ghost new_line = line.subrange(0, a + 1) + new_version@ + line.subrange(b, line.len() as int);
    let ghost new_lines = lines.update(k as int, new_line);
    let mut out = String::new();
    let mut j: usize = 0;
    assert(new_lines.take(0) =~= Seq::<Seq<char>>::empty());
    while j < spans.len()
        invariant
            lines == text_lines(content@),
            spans@.len() == lines.len(),
            forall|m: int| 0 <= m < spans@.len() ==> {
                &&& (#[trigger] spans@[m]).0 <= spans@[m].1 <= content@.len()
                &&& content@.subrange(spans@[m].0 as int, spans@[m].1 as int) == lines[m]
            },
            k < spans@.len(),
            spans@[k as int] == (lo, hi),
            lo <= qa < qb < hi,
            line == lines[k as int],
            line == content@.subrange(lo as int, hi as int),
            a == qa - lo,
            b == qb - lo,
            new_lines == lines.update(k as int, new_line),
            new_line == line.subrange(0, a + 1) + new_version@ + line.subrange(b, line.len() as int),
            j <= spans@.len(),
            out@ == joined(new_lines.take(j as int)),
        decreases spans.len() - j,
    {
        let (s0, s1) = spans[j];
        if j == k {
            out.append(content.substring_char(lo, qa + 1));
            out.append(new_version.as_str());
            out.append(content.substring_char(qb, hi));
            assert(content@.subrange(lo as int, qa + 1) =~= line.subrange(0, a + 1));
            assert(content@.subrange(qb as int, hi as int) =~= line.subrange(b, line.len() as int));
        } else {
            out.append(content.substring_char(s0, s1));
        }
        out.append("\n");
        assert(new_lines.take(j + 1).drop_last() =~= new_lines.take(j as int));
        assert(new_lines.take(j + 1).last() == new_lines[j as int]);
        assert(out@ =~= joined(new_lines.take(j + 1)));
        j = j + 1;
    }
    assert(new_lines.take(spans@.len() as int) =~= new_lines);
    Ok(VersionBump { old_version: old.to_owned(), new_version, manifest: out })
}

/// A version found by the search stands between two quotes of its line.
proof fn lemma_search_found(lines: Seq<Seq<char>>, i: int, in_package: bool)
    ensures
        version_search(lines, i, in_package) matches Some((k, a, b)) ==> {
            &&& i <= k < lines.len()
            &&& quote_span(lines[k]) == Some((a, b))
        },
    decreases lines.len() - i,
{
    if 0 <= i < lines.len() {
        lemma_search_found(lines, i + 1, true);
        lemma_search_found(lines, i + 1, false);
    }
}

/// A position found by `find_char` holds the character, within bounds.
proof fn lemma_find_bounds(s: Seq<char>, c: char, from: int)
    ensures
        find_char(s, c, from) matches Some(k) ==> from <= k < s.len() && s[k] == c,
    decreases s.len() - from,
{
    if 0 <= from < s.len() && s[from] != c {
        lemma_find_bounds(s, c, from + 1);
    }
}


/// Law: `decimal_text(n)` is the decimal numeral of `n`: decimal digits only,
/// whose value is `n`, without a leading zero (but for zero itself). So the
/// version after patch `n` is written with the digits of `n + 1`.
pub proof fn law_decimal_text(n: nat)
    ensures
        decimal_text(n).len() > 0,
        forall|i: int| 0 <= i < decimal_text(n).len() ==> is_digit(#[trigger] decimal_text(n)[i]),
        digits_value(decimal_text(n)) == n,
        n > 0 ==> decimal_text(n)[0] != '0',
        parsed_u32(decimal_text(n)) == if n <= u32::MAX { Some(n) } else { None::<nat> },
    decreases n,
{
    let t = decimal_text(n);
    if n < 10 {
        law_digit_text(n as int);
        assert(t.drop_last() =~= Seq::<char>::empty());
        assert(t.last() == t[0]);
        assert(digits_value(t) == digits_value(t.drop_last()) * 10 + ((t.last() as int) - ('0' as int)) as nat);
        assert(digits_value(t) == n);
    } else {
        law_decimal_text(n / 10);
        let h = decimal_text(n / 10);
        let d = digit_text((n % 10) as int);
        law_digit_text((n % 10) as int);
        assert(t == h + d);
        assert(t.drop_last() =~= h);
        assert(t.last() == d[0]);
        assert forall|i: int| 0 <= i < t.len() implies is_digit(#[trigger] t[i]) by {
            if i < h.len() {
                assert(t[i] == h[i]);
            }
        }
        assert(t[0] == h[0]);
        assert(digits_value(t) == digits_value(h) * 10 + n % 10);
        assert((n / 10) * 10 + n % 10 == n);
    }
    assert(is_digit(t[0]));
    assert(unsigned_digits(t) == t);
}


/// Law: `find_char` finds the first occurrence: the position it gives holds
/// the character and none before it (from `from` on) does; when it gives none,
/// the character does not occur from `from` on.
pub proof fn law_find_char_first(s: Seq<char>, c: char, from: int)
    requires
        0 <= from,
    ensures
        find_char(s, c, from) matches Some(k) ==> {
            &&& from <= k < s.len()
            &&& s[k] == c
            &&& forall|j: int| from <= j < k ==> s[j] != c
        },
        find_char(s, c, from) is None ==> forall|j: int| from <= j < s.len() ==> s[j] != c,
    decreases s.len() - from,
{
    if from < s.len() && s[from] != c {
        law_find_char_first(s, c, from + 1);
    }
}

/// Law: the parts of a version are what stands between its two dots: `v` is
/// the three parts joined by dots, none of them holding a dot; and any three
/// dot-free parts joined by dots are read back as those parts.
pub proof fn law_semver_parts(v: Seq<char>, a: Seq<char>, b: Seq<char>, c: Seq<char>)
    ensures
        semver_parts(v) matches Some((x, y, z)) ==> {
            &&& v == x + seq!['.'] + y + seq!['.'] + z
            &&& !x.contains('.') && !y.contains('.') && !z.contains('.')
        },
        !a.contains('.') && !b.contains('.') && !c.contains('.') ==> semver_parts(a + seq!['.'] + b + seq!['.'] + c) == Some((a, b, c)),
{
    law_find_char_first(v, '.', 0);
    if let Some(d1) = find_char(v, '.', 0) {
        law_find_char_first(v, '.', d1 + 1);
        if let Some(d2) = find_char(v, '.', d1 + 1) {
            law_find_char_first(v, '.', d2 + 1);
            if find_char(v, '.', d2 + 1) is None {
                let x = v.subrange(0, d1);
                let y = v.subrange(d1 + 1, d2);
                let z = v.subrange(d2 + 1, v.len() as int);
                assert(v =~= x + seq!['.'] + y + seq!['.'] + z);
                assert(!x.contains('.')) by {
                    if x.contains('.') {
                        let j = choose|j: int| 0 <= j < x.len() && x[j] == '.';
                        assert(v[j] == '.');
                    }
                }
                assert(!y.contains('.')) by {
                    if y.contains('.') {
                        let j = choose|j: int| 0 <= j < y.len() && y[j] == '.';
                        assert(v[d1 + 1 + j] == '.');
                    }
                }
                assert(!z.contains('.')) by {
                    if z.contains('.') {
                        let j = choose|j: int| 0 <= j < z.len() && z[j] == '.';
                        assert(v[d2 + 1 + j] == '.');
                    }
                }
            }
        }
    }
    if !a.contains('.') && !b.contains('.') && !c.contains('.') {
        let w = a + seq!['.'] + b + seq!['.'] + c;
        let d1 = a.len() as int;
        let d2 = (a.len() + 1 + b.len()) as int;
        assert(w[d1] == '.');
        assert(w[d2] == '.');
        assert forall|j: int| 0 <= j < d1 implies w[j] != '.' by {
            assert(w[j] == a[j]);
            if a[j] == '.' { assert(a.contains('.')); }
        }
        assert forall|j: int| d1 + 1 <= j < d2 implies w[j] != '.' by {
            assert(w[j] == b[j - d1 - 1]);
            if b[j - d1 - 1] == '.' { assert(b.contains('.')); }
        }
        assert forall|j: int| d2 + 1 <= j < w.len() implies w[j] != '.' by {
            assert(w[j] == c[j - d2 - 1]);
            if c[j - d2 - 1] == '.' { assert(c.contains('.')); }
        }
        lemma_find_exact(w, '.', 0, d1);
        lemma_find_exact(w, '.', d1 + 1, d2);
        lemma_find_none(w, '.', d2 + 1);
        assert(w.subrange(0, d1) =~= a);
        assert(w.subrange(d1 + 1, d2) =~= b);
        assert(w.subrange(d2 + 1, w.len() as int) =~= c);
    }
}

/// The first occurrence from `from` is at `k` when it is there and not before.
proof fn lemma_find_exact(s: Seq<char>, c: char, from: int, k: int)
    requires
        0 <= from <= k < s.len(),
        s[k] == c,
        forall|j: int| from <= j < k ==> s[j] != c,
    ensures
        find_char(s, c, from) == Some(k),
    decreases k - from,
{
    if from < k {
        lemma_find_exact(s, c, from + 1, k);
    }
}

/// No occurrence is found where there is none.
proof fn lemma_find_none(s: Seq<char>, c: char, from: int)
    requires
        0 <= from,
        forall|j: int| from <= j < s.len() ==> s[j] != c,
    ensures
        find_char(s, c, from) is None,
    decreases s.len() - from,
{
    if from < s.len() {
        lemma_find_none(s, c, from + 1);
    }
}

/// Law: the patch bump keeps the major and minor parts and raises the patch
/// number by exactly one; it is refused exactly when the version has no three
/// parts, its patch is no `u32`, or the patch is the largest `u32`.
pub proof fn law_patch_bump_adds_one(old: Seq<char>)
    ensures
        patch_bumped(old) matches Some(v) ==> {
            &&& semver_parts(old) matches Some((major, minor, patch))
            &&& parsed_u32(patch) matches Some(n)
            &&& semver_parts(v) matches Some((major2, minor2, patch2))
            &&& major2 == major
            &&& minor2 == minor
            &&& parsed_u32(patch2) == Some((n + 1) as nat)
        },
        patch_bumped(old) is None <==> match semver_parts(old) {
            Some((_, _, patch)) => match parsed_u32(patch) {
                Some(n) => n == u32::MAX,
                None => true,
            },
            None => true,
        },
{
    reveal_strlit(".");
    if let Some((major, minor, patch)) = semver_parts(old) {
        law_semver_parts(old, major, minor, patch);
        if let Some(n) = parsed_u32(patch) {
            if n < u32::MAX {
                let d = decimal_text((n + 1) as nat);
                law_decimal_text((n + 1) as nat);
                assert(!d.contains('.')) by {
                    if d.contains('.') {
                        let j = choose|j: int| 0 <= j < d.len() && d[j] == '.';
                        assert(is_digit(d[j]));
                    }
                }
                assert("."@ == seq!['.']);
                law_semver_parts(major + seq!['.'] + minor + seq!['.'] + d, major, minor, d);
            }
        }
    }
}


/// Dropping leading white space leaves a suffix that starts with no white
/// space, everything before it being white space.
proof fn lemma_trim_start(s: Seq<char>) -> (k: int)
    ensures
        0 <= k <= s.len(),
        trim_start(s) == s.subrange(k, s.len() as int),
        forall|j: int| 0 <= j < k ==> is_white(#[trigger] s[j]),
        k < s.len() ==> !is_white(s[k]),
    decreases s.len(),
{
    if s.len() > 0 && is_white(s[0]) {
        let k1 = lemma_trim_start(s.drop_first());
        assert(s.drop_first().subrange(k1, s.drop_first().len() as int) =~= s.subrange(k1 + 1, s.len() as int));
        assert forall|j: int| 0 <= j < k1 + 1 implies is_white(#[trigger] s[j]) by {
            if j > 0 {
                assert(s[j] == s.drop_first()[j - 1]);
            }
        }
        if k1 + 1 < s.len() {
            assert(s[k1 + 1] == s.drop_first()[k1]);
        }
        k1 + 1
    } else {
        assert(s.subrange(0, s.len() as int) =~= s);
        0
    }
}

/// Dropping trailing white space leaves a prefix that ends with no white
/// space, everything after it being white space.
proof fn lemma_trim_end(s: Seq<char>) -> (k: int)
    ensures
        0 <= k <= s.len(),
        trim_end(s) == s.subrange(0, k),
        forall|j: int| k <= j < s.len() ==> is_white(#[trigger] s[j]),
        k > 0 ==> !is_white(s[k - 1]),
    decreases s.len(),
{
    if s.len() > 0 && is_white(s.last()) {
        let k1 = lemma_trim_end(s.drop_last());
        assert(s.drop_last().subrange(0, k1) =~= s.subrange(0, k1));
        assert forall|j: int| k1 <= j < s.len() implies is_white(#[trigger] s[j]) by {
            if j < s.len() - 1 {
                assert(s[j] == s.drop_last()[j]);
            }
        }
        if k1 > 0 {
            assert(s[k1 - 1] == s.drop_last()[k1 - 1]);
        }
        k1
    } else {
        assert(s.subrange(0, s.len() as int) =~= s);
        s.len() as int
    }
}

/// Law: trimming removes exactly the white space at both ends: the result is
/// the part of `s` between a run of white space at its start and one at its
/// end, and it neither starts nor ends with white space.
pub proof fn law_trimmed(s: Seq<char>)
    ensures
        exists|lo: int, hi: int| {
            &&& 0 <= lo <= hi <= s.len()
            &&& #[trigger] s.subrange(lo, hi) == trimmed(s)
            &&& forall|j: int| 0 <= j < lo ==> is_white(#[trigger] s[j])
            &&& forall|j: int| hi <= j < s.len() ==> is_white(#[trigger] s[j])
        },
        trimmed(s).len() > 0 ==> !is_white(trimmed(s)[0]) && !is_white(trimmed(s).last()),
{
    let lo = lemma_trim_start(s);
    let u = s.subrange(lo, s.len() as int);
    let k = lemma_trim_end(u);
    let hi = lo + k;
    assert(u.subrange(0, k) =~= s.subrange(lo, hi));
    assert forall|j: int| hi <= j < s.len() implies is_white(#[trigger] s[j]) by {
        assert(s[j] == u[j - lo]);
    }
    if k > 0 {
        assert(trimmed(s)[0] == s[lo]);
        assert(trimmed(s).last() == u[k - 1]);
    }
}

/// Law: the quote span is the first two double quotes of a line: both hold a
/// quote, the first comes first, and no quote stands before the first or
/// between them; there is none exactly when the line has fewer than two quotes.
pub proof fn law_quote_span(line: Seq<char>)
    ensures
        quote_span(line) matches Some((a, b)) ==> {
            &&& 0 <= a < b < line.len()
            &&& line[a] == '"' && line[b] == '"'
            &&& forall|j: int| 0 <= j < b && j != a ==> line[j] != '"'
        },
        quote_span(line) is None ==> forall|i: int, j: int| 0 <= i < j < line.len() ==> !(line[i] == '"' && line[j] == '"'),
{
    law_find_char_first(line, '"', 0);
    if let Some(a) = find_char(line, '"', 0) {
        law_find_char_first(line, '"', a + 1);
    }
}


/// Law: the usual separators are white space, and the characters of a version
/// line (letters, digits, quotes, dots, brackets, `=`) are not.
pub proof fn law_white_space(c: char)
    ensures
        c == ' ' || c == '\t' || c == '\n' || c == '\r' ==> is_white(c),
        ('0' <= c <= '9') || ('a' <= c <= 'z') || ('A' <= c <= 'Z') || c == '"' || c == '.' || c == '['
            || c == ']' || c == '=' || c == '-' || c == '+' || c == '_' ==> !is_white(c),
{
}

/// The text joined from a first line and more lines.
proof fn lemma_joined_front(first: Seq<char>, rest: Seq<Seq<char>>)
    ensures
        joined(seq![first] + rest) == first + "\n"@ + joined(rest),
    decreases rest.len(),
{
    if rest.len() == 0 {
        assert(seq![first] + rest =~= seq![first]);
        assert(seq![first].drop_last() =~= Seq::<Seq<char>>::empty());
        assert(seq![first].last() == first);
        assert(first + "\n"@ + Seq::<char>::empty() =~= first + "\n"@);
        assert(Seq::<char>::empty() + first + "\n"@ =~= first + "\n"@);
        assert(joined(Seq::<Seq<char>>::empty()) == Seq::<char>::empty());
    } else {
        lemma_joined_front(first, rest.drop_last());
        assert((seq![first] + rest).drop_last() =~= seq![first] + rest.drop_last());
        assert((seq![first] + rest).last() == rest.last());
        assert(first + "\n"@ + joined(rest.drop_last()) + rest.last() + "\n"@
            =~= first + "\n"@ + (joined(rest.drop_last()) + rest.last() + "\n"@));
    }
}

/// `s` ending with a line end: as it is, or with one added.
pub open spec fn line_ended(s: Seq<char>) -> Seq<char> {
    if s.len() == 0 || s.last() == '\n' {
        s
    } else {
        s + "\n"@
    }
}

/// The lines from `start` on, joined back, are the text from `start` on.
proof fn lemma_lines_rejoin(s: Seq<char>, start: int, i: int)
    requires
        0 <= start <= i <= s.len(),
        !s.contains('\r'),
        forall|j: int| start <= j < i ==> s[j] != '\n',
        "\n"@ == seq!['\n'],
    ensures
        joined(lines_from(s, start, i)) == line_ended(s.subrange(start, s.len() as int)),
        forall|k: int| 0 <= k < lines_from(s, start, i).len() ==> !(#[trigger] lines_from(s, start, i)[k]).contains('\n'),
    decreases s.len() - i,
{
    let tail = s.subrange(start, s.len() as int);
    if i >= s.len() {
        if start < s.len() {
            assert(seq![tail].drop_last() =~= Seq::<Seq<char>>::empty());
            assert(Seq::<char>::empty() + tail + "\n"@ =~= tail + "\n"@);
            assert(tail.last() == s[s.len() - 1]);
            assert(!tail.contains('\n')) by {
                if tail.contains('\n') {
                    let j = choose|j: int| 0 <= j < tail.len() && tail[j] == '\n';
                    assert(s[start + j] == '\n');
                }
            }
        } else {
            assert(tail =~= Seq::<char>::empty());
        }
    } else if s[i] == '\n' {
        if i > start {
            assert(s[i - 1] != '\r') by {
                if s[i - 1] == '\r' {
                    assert(s.contains('\r'));
                }
            }
        }
        let line = s.subrange(start, i);
        lemma_lines_rejoin(s, i + 1, i + 1);
        lemma_joined_front(line, lines_from(s, i + 1, i + 1));
        let rest = s.subrange(i + 1, s.len() as int);
        assert(tail =~= line + seq!['\n'] + rest);
        if rest.len() == 0 {
            assert(line + "\n"@ + rest =~= tail);
        } else {
            assert(tail.last() == rest.last());
            if rest.last() == '\n' {
                assert(line + "\n"@ + rest =~= tail);
            } else {
                assert(line + "\n"@ + (rest + "\n"@) =~= tail + "\n"@);
            }
        }
        assert(!line.contains('\n')) by {
            if line.contains('\n') {
                let j = choose|j: int| 0 <= j < line.len() && line[j] == '\n';
                assert(s[start + j] == '\n');
            }
        }
        let ls = lines_from(s, start, i);
        assert forall|k: int| 0 <= k < ls.len() implies !(#[trigger] ls[k]).contains('\n') by {
            if k > 0 {
                assert(ls[k] == lines_from(s, i + 1, i + 1)[k - 1]);
            }
        }
    } else {
        lemma_lines_rejoin(s, start, i + 1);
    }
}

/// Law: splitting a text without carriage returns into lines loses nothing:
/// no line holds a line end, and the lines, each followed by a line end, give
/// back the text (with a line end added when it did not end with one).
pub proof fn law_text_lines_rejoin(s: Seq<char>)
    requires
        !s.contains('\r'),
    ensures
        joined(text_lines(s)) == line_ended(s),
        forall|k: int| 0 <= k < text_lines(s).len() ==> !(#[trigger] text_lines(s)[k]).contains('\n'),
{
    reveal_strlit("\n");
    assert("\n"@ =~= seq!['\n']);
    lemma_lines_rejoin(s, 0, 0);
    assert(s.subrange(0, s.len() as int) =~= s);
}


/// Line `i` of `lines` lies in the `[package]` section: an earlier line reads
/// `[package]` (spaces aside), and no line after it and before `i` opens a
/// section (starts with `[`).
pub open spec fn in_package_section(lines: Seq<Seq<char>>, i: int) -> bool {
    exists|j: int| 0 <= j < i && trimmed(lines[j]) == "[package]"@
        && forall|m: int| j < m < i ==> !"["@.is_prefix_of(#[trigger] trimmed(lines[m]))
}

/// Line `k` of `lines` gives the package version: it lies in the `[package]`
/// section, starts with `version` (spaces aside) and holds two double quotes.
pub open spec fn is_version_line(lines: Seq<Seq<char>>, k: int) -> bool {
    &&& in_package_section(lines, k)
    &&& "version"@.is_prefix_of(trimmed(lines[k]))
    &&& quote_span(lines[k]) is Some
}

/// Whether the section is open after line `i` follows from line `i` alone.
proof fn lemma_in_package_step(lines: Seq<Seq<char>>, i: int)
    requires
        0 <= i < lines.len(),
    ensures
        in_package_section(lines, i + 1) == (trimmed(lines[i]) == "[package]"@
            || (in_package_section(lines, i) && !"["@.is_prefix_of(trimmed(lines[i])))),
{
    let t = trimmed(lines[i]);
    if t == "[package]"@ {
        assert(forall|m: int| i < m < i + 1 ==> !"["@.is_prefix_of(#[trigger] trimmed(lines[m])));
    } else if in_package_section(lines, i) && !"["@.is_prefix_of(t) {
        let j = choose|j: int| 0 <= j < i && trimmed(lines[j]) == "[package]"@
            && forall|m: int| j < m < i ==> !"["@.is_prefix_of(#[trigger] trimmed(lines[m]));
        assert(forall|m: int| j < m < i + 1 ==> !"["@.is_prefix_of(#[trigger] trimmed(lines[m])));
    }
    if in_package_section(lines, i + 1) && t != "[package]"@ {
        let j = choose|j: int| 0 <= j < i + 1 && trimmed(lines[j]) == "[package]"@
            && forall|m: int| j < m < i + 1 ==> !"["@.is_prefix_of(#[trigger] trimmed(lines[m]));
        assert(j < i);
        assert(!"["@.is_prefix_of(trimmed(lines[i])));
        assert(forall|m: int| j < m < i ==> !"["@.is_prefix_of(#[trigger] trimmed(lines[m])));
    }
}

/// The search from line `i`, inside the section exactly when line `i` is,
/// finds the first version line from `i` on.
proof fn lemma_search_finds_first(lines: Seq<Seq<char>>, i: int, inside: bool)
    requires
        0 <= i <= lines.len(),
        inside == in_package_section(lines, i),
    ensures
        match version_search(lines, i, inside) {
            Some((k, a, b)) => {
                &&& i <= k < lines.len()
                &&& is_version_line(lines, k)
                &&& quote_span(lines[k]) == Some((a, b))
                &&& forall|m: int| i <= m < k ==> !is_version_line(lines, m)
            },
            None => forall|m: int| i <= m < lines.len() ==> !is_version_line(lines, m),
        },
    decreases lines.len() - i,
{
    reveal_strlit("[package]");
    reveal_strlit("[");
    reveal_strlit("version");
    if i < lines.len() {
        let t = trimmed(lines[i]);
        lemma_in_package_step(lines, i);
        let next = in_package_section(lines, i + 1);
        lemma_search_finds_first(lines, i + 1, next);
        assert("version"@[0] == 'v' && "["@[0] == '[' && "[package]"@[0] == '[');
        if "version"@.is_prefix_of(t) {
            assert(t.subrange(0, 7) == "version"@);
            assert(t[0] == t.subrange(0, 7)[0]);
            assert(t[0] == 'v');
            assert(!"["@.is_prefix_of(t)) by {
                if "["@.is_prefix_of(t) {
                    assert(t.subrange(0, 1) == "["@);
                    assert(t[0] == t.subrange(0, 1)[0]);
                }
            }
            assert(t != "[package]"@);
        }
    }
}

/// Law: the package version is read from the first version line: the first
/// line in the `[package]` section that starts with `version` and holds two
/// double quotes, between those quotes; there is none exactly when no line is
/// such a line.
pub proof fn law_package_version_is_first_version_line(content: Seq<char>)
    ensures
        match package_version(content) {
            Some((k, a, b)) => {
                &&& 0 <= k < text_lines(content).len()
                &&& is_version_line(text_lines(content), k)
                &&& quote_span(text_lines(content)[k]) == Some((a, b))
                &&& forall|m: int| 0 <= m < k ==> !is_version_line(text_lines(content), m)
            },
            None => forall|m: int| 0 <= m < text_lines(content).len() ==> !is_version_line(text_lines(content), m),
        },
{
    lemma_search_finds_first(text_lines(content), 0, false);
}

}

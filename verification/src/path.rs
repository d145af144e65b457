//! POSIX path reasoning used by workspace scoping: whether a path is absolute,
//! its components, and whether one path lies under another, component-wise.

use vstd::prelude::*;

verus! {

/// A path is absolute when it starts at the root.
pub open spec fn is_absolute_path(p: Seq<char>) -> bool {
    p.len() > 0 && p[0] == '/'
}

/// Adds the segment `cur` to `done` unless it is empty or the current directory.
pub open spec fn flush_segment(done: Seq<Seq<char>>, cur: Seq<char>) -> Seq<Seq<char>> {
    if cur.len() == 0 || cur == seq!['.'] {
        done
    } else {
        done.push(cur)
    }
}

/// Reads `p` left to right: the segments finished so far and the one being read.
pub open spec fn scan_segments(p: Seq<char>) -> (Seq<Seq<char>>, Seq<char>)
    decreases p.len(),
{
    if p.len() == 0 {
        (seq![], seq![])
    } else {
        let (done, cur) = scan_segments(p.drop_last());
        if p.last() == '/' {
            (flush_segment(done, cur), seq![])
        } else {
            (done, cur.push(p.last()))
        }
    }
}

/// The named components of a path: its `/`-separated pieces, without empty
/// pieces (repeated or trailing separators) and without `.`.
pub open spec fn path_segments(p: Seq<char>) -> Seq<Seq<char>> {
    flush_segment(scan_segments(p).0, scan_segments(p).1)
}

/// `path` lies under `base` (or is `base`): both are absolute and the
/// components of `base` are a prefix of those of `path`.
pub open spec fn path_within(path: Seq<char>, base: Seq<char>) -> bool {
    &&& is_absolute_path(path)
    &&& is_absolute_path(base)
    &&& path_segments(base).is_prefix_of(path_segments(path))
}

/// Whether `p` is an absolute path.
pub fn is_absolute(p: &str) -> (r: bool)
    ensures
        r == is_absolute_path(p@),
{
    let n = p.unicode_len();
    n > 0 && p.get_char(0) == '/'
}

/// The components of `p`, as lists of characters.
pub fn segments(p: &str) -> (r: Vec<Vec<char>>)
    ensures
        r.deep_view() == path_segments(p@),
{
    let n = p.unicode_len();
    let mut done: Vec<Vec<char>> = Vec::new();
    let mut cur: Vec<char> = Vec::new();
    let mut i: usize = 0;
    while i < n
        invariant
            n == p@.len(),
            i <= n,
            (done.deep_view(), cur@) == scan_segments(p@.take(i as int)),
        decreases n - i,
    {
        let c = p.get_char(i);
        assert(p@.take(i + 1).drop_last() =~= p@.take(i as int));
        assert(p@.take(i + 1).last() == c);
        if c == '/' {
            let keep = !(cur.len() == 0 || (cur.len() == 1 && cur[0] == '.'));
            assert(keep == !(cur@.len() == 0 || cur@ == seq!['.'])) by {
                if cur@.len() == 1 && cur@[0] == '.' {
                    assert(cur@ =~= seq!['.']);
                }
            }
            if keep {
                let ghost old_done = done.deep_view();
                assert(cur.deep_view() =~= cur@);
                done.push(cur);
                assert(done.deep_view() =~= old_done.push(cur@));
            }
            cur = Vec::new();
            assert(cur@ =~= Seq::<char>::empty());
        } else {
            cur.push(c);
        }
        i = i + 1;
    }
    assert(p@.take(n as int) =~= p@);
    let keep = !(cur.len() == 0 || (cur.len() == 1 && cur[0] == '.'));
    assert(keep == !(cur@.len() == 0 || cur@ == seq!['.'])) by {
        if cur@.len() == 1 && cur@[0] == '.' {
            assert(cur@ =~= seq!['.']);
        }
    }
    if keep {
        let ghost old_done = done.deep_view();
        assert(cur.deep_view() =~= cur@);
        done.push(cur);
        assert(done.deep_view() =~= old_done.push(cur@));
    }
    done
}

/// Whether two character lists are equal.
fn chars_equal(a: &Vec<char>, b: &Vec<char>) -> (r: bool)
    ensures
        r == (a@ == b@),
{
    if a.len() != b.len() {
        return false;
    }
    let mut i: usize = 0;
    while i < a.len()
        invariant
            a@.len() == b@.len(),
            i <= a@.len(),
            forall|k: int| 0 <= k < i ==> a@[k] == b@[k],
        decreases a.len() - i,
    {
        if a[i] != b[i] {
            return false;
        }
        i = i + 1;
    }
    assert(a@ =~= b@);
    true
}

/// Whether the components `base` are a prefix of the components `path`.
fn segments_prefix(base: &Vec<Vec<char>>, path: &Vec<Vec<char>>) -> (r: bool)
    ensures
        r == base.deep_view().is_prefix_of(path.deep_view()),
{
    if base.len() > path.len() {
        return false;
    }
    let mut i: usize = 0;
    while i < base.len()
        invariant
            base@.len() <= path@.len(),
            i <= base@.len(),
            forall|k: int| 0 <= k < i ==> base.deep_view()[k] == path.deep_view()[k],
        decreases base.len() - i,
    {
        assert(base@[i as int].deep_view() =~= base@[i as int]@);
        assert(path@[i as int].deep_view() =~= path@[i as int]@);
        if !chars_equal(&base[i], &path[i]) {
            assert(base.deep_view()[i as int] != path.deep_view()[i as int]);
            return false;
        }
        i = i + 1;
    }
    assert(base.deep_view() =~= path.deep_view().subrange(0, base.deep_view().len() as int));
    true
}

/// Whether `path` lies under `base`, both absolute, comparing whole components.
pub fn within(path: &str, base: &str) -> (r: bool)
    ensures
        r == path_within(path@, base@),
{
    if !is_absolute(path) || !is_absolute(base) {
        return false;
    }
    let ps = segments(path);
    let bs = segments(base);
    segments_prefix(&bs, &ps)
}


/// Reading `q` after a text that ends at a separator adds the segments of `q`.
proof fn lemma_scan_append(x: Seq<char>, q: Seq<char>)
    requires
        scan_segments(x).1 == Seq::<char>::empty(),
    ensures
        scan_segments(x + q) == (scan_segments(x).0 + scan_segments(q).0, scan_segments(q).1),
    decreases q.len(),
{
    if q.len() == 0 {
        assert(x + q =~= x);
        assert(scan_segments(x).0 + Seq::<Seq<char>>::empty() =~= scan_segments(x).0);
    } else {
        let t = q.drop_last();
        lemma_scan_append(x, t);
        assert((x + q).drop_last() =~= x + t);
        assert((x + q).last() == q.last());
        let d = scan_segments(x).0;
        let (a, c) = scan_segments(t);
        if q.last() == '/' {
            if !(c.len() == 0 || c == seq!['.']) {
                assert((d + a).push(c) =~= d + a.push(c));
            }
        }
    }
}

/// A text without separators is read as one unfinished segment.
proof fn lemma_scan_no_separator(p: Seq<char>)
    requires
        !p.contains('/'),
    ensures
        scan_segments(p) == (Seq::<Seq<char>>::empty(), p),
    decreases p.len(),
{
    if p.len() > 0 {
        let t = p.drop_last();
        assert(!t.contains('/')) by {
            if t.contains('/') {
                let j = choose|j: int| 0 <= j < t.len() && t[j] == '/';
                assert(p[j] == '/');
            }
        }
        lemma_scan_no_separator(t);
        assert(p[p.len() - 1] == p.last());
        assert(t.push(p.last()) =~= p);
    }
}

/// Law: the components of a path, piece by piece. Joining two paths with a
/// separator joins their components; a piece without separators is one
/// component, unless it is empty or `.`, which name none. So repeated,
/// leading and trailing separators and `.` pieces count for nothing: in
/// particular a path and the same path with a trailing `/` have the same
/// components.
pub proof fn law_path_segments(p: Seq<char>, q: Seq<char>)
    ensures
        path_segments(p + seq!['/'] + q) == path_segments(p) + path_segments(q),
        !p.contains('/') ==> path_segments(p) == if p.len() == 0 || p == seq!['.'] {
            Seq::<Seq<char>>::empty()
        } else {
            seq![p]
        },
        path_segments(p.push('/')) == path_segments(p),
{
    let x = p + seq!['/'];
    assert(x.drop_last() =~= p);
    assert(x.last() == '/');
    assert(scan_segments(x) == (path_segments(p), Seq::<char>::empty()));
    lemma_scan_append(x, q);
    let (a, c) = scan_segments(q);
    if !(c.len() == 0 || c == seq!['.']) {
        assert((path_segments(p) + a).push(c) =~= path_segments(p) + a.push(c));
    }
    if !p.contains('/') {
        lemma_scan_no_separator(p);
    }
    lemma_scan_append(x, Seq::<char>::empty());
    assert(x + Seq::<char>::empty() =~= x);
    assert(p.push('/') =~= x);
    assert(path_segments(Seq::<char>::empty()) =~= Seq::<Seq<char>>::empty());
    assert(path_segments(p) + Seq::<Seq<char>>::empty() =~= path_segments(p));
}

/// Law: every component is a non-empty name other than `.`, without a
/// separator.
pub proof fn law_segments_are_names(p: Seq<char>)
    ensures
        forall|i: int| 0 <= i < path_segments(p).len() ==> {
            &&& (#[trigger] path_segments(p)[i]).len() > 0
            &&& path_segments(p)[i] != seq!['.']
            &&& !path_segments(p)[i].contains('/')
        },
{
    lemma_scan_names(p);
    let (d, c) = scan_segments(p);
    assert forall|i: int| 0 <= i < path_segments(p).len() implies {
        &&& (#[trigger] path_segments(p)[i]).len() > 0
        &&& path_segments(p)[i] != seq!['.']
        &&& !path_segments(p)[i].contains('/')
    } by {
        if i < d.len() {
            assert(path_segments(p)[i] == d[i]);
        }
    }
}

/// The segments read so far are names, and the unfinished one has no separator.
proof fn lemma_scan_names(p: Seq<char>)
    ensures
        forall|i: int| 0 <= i < scan_segments(p).0.len() ==> {
            &&& (#[trigger] scan_segments(p).0[i]).len() > 0
            &&& scan_segments(p).0[i] != seq!['.']
            &&& !scan_segments(p).0[i].contains('/')
        },
        !scan_segments(p).1.contains('/'),
    decreases p.len(),
{
    if p.len() > 0 {
        let t = p.drop_last();
        lemma_scan_names(t);
        let (d, c) = scan_segments(t);
        if p.last() != '/' {
            assert(!c.push(p.last()).contains('/')) by {
                if c.push(p.last()).contains('/') {
                    let j = choose|j: int| 0 <= j < c.push(p.last()).len() && c.push(p.last())[j] == '/';
                    if j < c.len() {
                        assert(c[j] == '/');
                    }
                }
            }
        } else {
            assert(!Seq::<char>::empty().contains('/'));
            let d2 = scan_segments(p).0;
            assert forall|i: int| 0 <= i < d2.len() implies {
                &&& (#[trigger] d2[i]).len() > 0
                &&& d2[i] != seq!['.']
                &&& !d2[i].contains('/')
            } by {
                if i < d.len() {
                    assert(d2[i] == d[i]);
                } else {
                    assert(d2[i] == c);
                }
            }
        }
    }
}

/// Law: a base written with a trailing `/` holds the same paths as without it.
pub proof fn law_within_trailing_separator(path: Seq<char>, base: Seq<char>)
    requires
        base.len() > 0,
    ensures
        path_within(path, base.push('/')) == path_within(path, base),
{
    law_path_segments(base, Seq::<char>::empty());
    assert(base.push('/')[0] == base[0]);
}


/// Law: an absolute path lies within itself, and so does everything below it:
/// the path followed by a separator and more.
pub proof fn law_within_below(base: Seq<char>, rest: Seq<char>)
    requires
        is_absolute_path(base),
    ensures
        path_within(base, base),
        path_within(base + seq!['/'] + rest, base),
{
    law_path_segments(base, rest);
    assert(path_segments(base).is_prefix_of(path_segments(base))) by {
        assert(path_segments(base).subrange(0, path_segments(base).len() as int) =~= path_segments(base));
    }
    let whole = path_segments(base) + path_segments(rest);
    assert(whole.subrange(0, path_segments(base).len() as int) =~= path_segments(base));
    assert((base + seq!['/'] + rest)[0] == base[0]);
}

}

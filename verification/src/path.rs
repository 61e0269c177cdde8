//! Unix path components, as `std::path::Path` documents them: repeated
//! separators and a trailing separator are ignored, `.` is dropped except at the
//! start of a relative path, and a leading `/` is the root component.
use vstd::prelude::*;

verus! {

/// The index of the first `/` at or after `i`, or the length of `s`.
pub open spec fn next_sep(s: Seq<char>, i: int) -> int
    decreases s.len() - i,
{
    if i >= s.len() {
        s.len() as int
    } else if s[i] == '/' {
        i
    } else {
        next_sep(s, i + 1)
    }
}

pub proof fn lemma_next_sep_bounds(s: Seq<char>, i: int)
    requires
        0 <= i,
    ensures
        i >= s.len() ==> next_sep(s, i) == s.len(),
        i < s.len() ==> i <= next_sep(s, i) <= s.len(),
    decreases s.len() - i,
{
    if i < s.len() && s[i] != '/' {
        lemma_next_sep_bounds(s, i + 1);
    }
}

proof fn lemma_next_sep_at(s: Seq<char>, i: int, j: int)
    requires
        0 <= i <= j <= s.len(),
        forall|k: int| i <= k < j ==> s[k] != '/',
        j == s.len() || s[j] == '/',
    ensures
        next_sep(s, i) == j,
    decreases j - i,
{
    if i < j {
        lemma_next_sep_at(s, i + 1, j);
    }
}

/// Whether a piece between separators is dropped: it is empty or `.`.
pub open spec fn is_skipped(seg: Seq<char>) -> bool {
    seg.len() == 0 || seg == seq!['.']
}

/// The components of `s` from position `i` on that are not the root or a leading `.`:
/// the pieces between separators, without empty pieces and `.`.
pub open spec fn segments_from(s: Seq<char>, i: int) -> Seq<Seq<char>>
    decreases s.len() + 1 - i,
{
    if i < 0 || i >= s.len() {
        Seq::empty()
    } else {
        let j = next_sep(s, i);
        proof {
            lemma_next_sep_bounds(s, i);
        }
        let seg = s.subrange(i, j);
        if is_skipped(seg) {
            segments_from(s, j + 1)
        } else {
            seq![seg] + segments_from(s, j + 1)
        }
    }
}

/// The component that a path starts with, if it has a root or starts with `.`.
pub open spec fn head_of(s: Seq<char>) -> Seq<Seq<char>> {
    if s.len() > 0 && s[0] == '/' {
        seq![seq!['/']]
    } else if s.len() > 0 && s[0] == '.' && (s.len() == 1 || s[1] == '/') {
        seq![seq!['.']]
    } else {
        Seq::empty()
    }
}

/// The components of the path `s`; the root is written `/` and a leading current directory `.`.
pub open spec fn path_components(s: Seq<char>) -> Seq<Seq<char>> {
    head_of(s) + segments_from(s, 0)
}

/// Whether the path `base` is a prefix of `path`, whole components at a time.
pub open spec fn path_starts_with(path: Seq<char>, base: Seq<char>) -> bool {
    let b = path_components(base);
    let p = path_components(path);
    b.len() <= p.len() && p.take(b.len() as int) == b
}

/// The final component of `s` when it is a normal name (not the root, `.` or `..`).
pub open spec fn file_name(s: Seq<char>) -> Option<Seq<char>> {
    let c = path_components(s);
    if c.len() > 0 && c.last() != seq!['/'] && c.last() != seq!['.'] && c.last() != seq!['.', '.'] {
        Some(c.last())
    } else {
        None
    }
}

/// A segment contains no separator and is neither empty nor `.`.
pub open spec fn plain(seg: Seq<char>) -> bool {
    &&& seg.len() > 0
    &&& seg != seq!['.']
    &&& forall|k: int| 0 <= k < seg.len() ==> seg[k] != '/'
}

pub proof fn lemma_segments_plain(s: Seq<char>, i: int)
    ensures
        forall|k: int|
            0 <= k < segments_from(s, i).len() ==> plain(#[trigger] segments_from(s, i)[k]),
    decreases s.len() + 1 - i,
{
    if 0 <= i < s.len() {
        let j = next_sep(s, i);
        lemma_next_sep_bounds(s, i);
        lemma_segments_plain(s, j + 1);
        let seg = s.subrange(i, j);
        lemma_no_sep_before(s, i);
        assert forall|k: int| 0 <= k < seg.len() implies seg[k] != '/' by {
            assert(seg[k] == s[i + k]);
        }
        let rest = segments_from(s, j + 1);
        if !is_skipped(seg) {
            assert forall|k: int|
                0 <= k < segments_from(s, i).len() implies plain(
                #[trigger] segments_from(s, i)[k],
            ) by {
                if k > 0 {
                    assert(segments_from(s, i)[k] == rest[k - 1]);
                }
            }
        }
    }
}

proof fn lemma_no_sep_before(s: Seq<char>, i: int)
    requires
        0 <= i < s.len(),
    ensures
        forall|k: int| i <= k < next_sep(s, i) ==> s[k] != '/',
    decreases s.len() - i,
{
    lemma_next_sep_bounds(s, i);
    if s[i] != '/' {
        if i + 1 < s.len() {
            lemma_no_sep_before(s, i + 1);
        }
    }
}

/// The subranges of `s` that `ranges` name.
pub open spec fn range_views(s: Seq<char>, ranges: Seq<(usize, usize)>) -> Seq<Seq<char>> {
    ranges.map_values(|r: (usize, usize)| s.subrange(r.0 as int, r.1 as int))
}

/// Every range is ordered and ends by `n`.
pub open spec fn ranges_within(r: Seq<(usize, usize)>, n: int) -> bool {
    forall|q: int| 0 <= q < r.len() ==> #[trigger] r[q].0 <= r[q].1 <= n
}

/// The positions of the segments of `s`, each as a start and an end index.
pub fn segment_ranges(s: &[char]) -> (r: Vec<(usize, usize)>)
    ensures
        forall|k: int| 0 <= k < r@.len() ==> #[trigger] r@[k].0 <= r@[k].1 <= s@.len(),
        range_views(s@, r@) == segments_from(s@, 0),
{
    let n = s.len();
    let ghost ss = s@;
    let mut out: Vec<(usize, usize)> = Vec::new();
    let mut start: usize = 0;
    let mut k: usize = 0;
    while k < n
        invariant
            n == ss.len(),
            ss == s@,
            start <= k <= n,
            forall|q: int| start <= q < k ==> ss[q] != '/',
            ranges_within(out@, n as int),
            range_views(ss, out@) + segments_from(ss, start as int) == segments_from(ss, 0),
        decreases n - k,
    {
        if s[k] == '/' {
            let ghost before = out@;
            proof {
                lemma_next_sep_at(ss, start as int, k as int);
                assert(ss.subrange(start as int, k as int).len() == k - start);
                if k - start == 1 {
                    assert(ss.subrange(start as int, k as int)[0] == ss[start as int]);
                    if ss[start as int] == '.' {
                        assert(ss.subrange(start as int, k as int) =~= seq!['.']);
                    }
                }
            }
            if k > start && !(k - start == 1 && s[start] == '.') {
                out.push((start, k));
                proof {
                    assert forall|q: int| 0 <= q < out@.len() implies #[trigger] out@[q].0
                        <= out@[q].1 <= n by {
                        if q < before.len() {
                            assert(out@[q] == before[q]);
                        }
                    }
                    assert(range_views(ss, out@) =~= range_views(ss, before) + seq![
                        ss.subrange(start as int, k as int),
                    ]);
                }
            }
            start = k + 1;
        }
        k = k + 1;
    }
    if start < n {
        let ghost before = out@;
        proof {
            lemma_next_sep_at(ss, start as int, n as int);
            assert(ss.subrange(start as int, n as int).len() == n - start);
            if n - start == 1 {
                assert(ss.subrange(start as int, n as int)[0] == ss[start as int]);
                if ss[start as int] == '.' {
                    assert(ss.subrange(start as int, n as int) =~= seq!['.']);
                }
            }
        }
        if !(n - start == 1 && s[start] == '.') {
            out.push((start, n));
            proof {
                assert forall|q: int| 0 <= q < out@.len() implies #[trigger] out@[q].0
                    <= out@[q].1 <= n by {
                    if q < before.len() {
                        assert(out@[q] == before[q]);
                    }
                }
                assert(range_views(ss, out@) =~= range_views(ss, before) + seq![
                    ss.subrange(start as int, n as int),
                ]);
            }
        }
    }
    proof {
        assert(segments_from(ss, n + 1) =~= Seq::<Seq<char>>::empty());
        if start >= n {
            assert(segments_from(ss, start as int) =~= Seq::<Seq<char>>::empty());
        }
        assert(range_views(ss, out@) =~= segments_from(ss, 0));
    }
    out
}

/// Which component a path starts with: 0 for none, 1 for the root, 2 for `.`.
fn head_kind(s: &[char]) -> (h: u8)
    ensures
        h == 0 ==> head_of(s@) == Seq::<Seq<char>>::empty(),
        h == 1 ==> head_of(s@) == seq![seq!['/']],
        h == 2 ==> head_of(s@) == seq![seq!['.']],
        h <= 2,
{
    if s.len() > 0 && s[0] == '/' {
        1
    } else if s.len() > 0 && s[0] == '.' && (s.len() == 1 || s[1] == '/') {
        2
    } else {
        0
    }
}

/// Whether two subranges hold the same characters.
fn same_chars(a: &[char], ar: (usize, usize), b: &[char], br: (usize, usize)) -> (res: bool)
    requires
        ar.0 <= ar.1 <= a@.len(),
        br.0 <= br.1 <= b@.len(),
    ensures
        res == (a@.subrange(ar.0 as int, ar.1 as int) == b@.subrange(br.0 as int, br.1 as int)),
{
    let len = ar.1 - ar.0;
    if len != br.1 - br.0 {
        proof {
            assert(a@.subrange(ar.0 as int, ar.1 as int).len() != b@.subrange(
                br.0 as int,
                br.1 as int,
            ).len());
        }
        return false;
    }
    let ghost sa = a@.subrange(ar.0 as int, ar.1 as int);
    let ghost sb = b@.subrange(br.0 as int, br.1 as int);
    let mut k: usize = 0;
    while k < len
        invariant
            len == ar.1 - ar.0,
            len == br.1 - br.0,
            ar.0 <= ar.1 <= a@.len(),
            br.0 <= br.1 <= b@.len(),
            sa == a@.subrange(ar.0 as int, ar.1 as int),
            sb == b@.subrange(br.0 as int, br.1 as int),
            k <= len,
            forall|q: int| 0 <= q < k ==> #[trigger] sa[q] == sb[q],
        decreases len - k,
    {
        if a[ar.0 + k] != b[br.0 + k] {
            proof {
                assert(sa[k as int] != sb[k as int]);
            }
            return false;
        }
        k = k + 1;
    }
    proof {
        assert(sa =~= sb);
    }
    true
}

/// Whether the path `path` starts with the path `base`, comparing whole components.
pub fn starts_with(path: &[char], base: &[char]) -> (res: bool)
    ensures
        res == path_starts_with(path@, base@),
{
    let hp = head_kind(path);
    let hb = head_kind(base);
    let rp = segment_ranges(path);
    let rb = segment_ranges(base);
    let ghost sp = segments_from(path@, 0);
    let ghost sb = segments_from(base@, 0);
    let ghost pc = path_components(path@);
    let ghost bc = path_components(base@);
    proof {
        lemma_segments_plain(path@, 0);
        lemma_segments_plain(base@, 0);
        assert(range_views(path@, rp@).len() == rp@.len());
        assert(range_views(base@, rb@).len() == rb@.len());
    }
    if hb == 0 && rb.len() == 0 {
        proof {
            assert(bc =~= Seq::<Seq<char>>::empty());
            assert(pc.take(0) =~= bc);
        }
        return true;
    }
    if hb != hp {
        proof {
            if hb == 0 {
                assert(bc[0] == sb[0]);
                assert(plain(sb[0]));
                if bc.len() <= pc.len() {
                    assert(pc.take(bc.len() as int)[0] == pc[0]);
                    if hp == 1 {
                        assert(pc[0] == seq!['/']);
                        assert(sb[0][0] != '/');
                    } else {
                        assert(pc[0] == seq!['.']);
                    }
                }
            } else {
                assert(bc.len() >= 1);
                if hp == 0 {
                    if bc.len() <= pc.len() {
                        assert(pc[0] == sp[0]);
                        assert(plain(sp[0]));
                        assert(pc.take(bc.len() as int)[0] == pc[0]);
                        if hb == 1 {
                            assert(bc[0] == seq!['/']);
                            assert(sp[0][0] != '/');
                        }
                    }
                } else if bc.len() <= pc.len() {
                    assert(pc.take(bc.len() as int)[0] == pc[0]);
                    assert(bc[0] == seq!['/'] || bc[0] == seq!['.']);
                    assert(seq!['/'][0] != seq!['.'][0]);
                }
            }
        }
        return false;
    }
    // Same head: `base` is a prefix exactly when its segments prefix those of `path`.
    let ghost h = head_of(path@);
    proof {
        assert(head_of(base@) == h);
    }
    if rb.len() > rp.len() {
        return false;
    }
    let mut k: usize = 0;
    while k < rb.len()
        invariant
            k <= rb@.len() <= rp@.len(),
            forall|q: int| 0 <= q < rp@.len() ==> #[trigger] rp@[q].0 <= rp@[q].1 <= path@.len(),
            forall|q: int| 0 <= q < rb@.len() ==> #[trigger] rb@[q].0 <= rb@[q].1 <= base@.len(),
            range_views(path@, rp@) == sp,
            range_views(base@, rb@) == sb,
            sp.len() == rp@.len(),
            sb.len() == rb@.len(),
            pc == h + sp,
            bc == h + sb,
            pc == path_components(path@),
            bc == path_components(base@),
            forall|q: int| 0 <= q < k ==> #[trigger] sp[q] == sb[q],
        decreases rb@.len() - k,
    {
        if !same_chars(path, rp[k], base, rb[k]) {
            proof {
                assert(sp[k as int] != sb[k as int]);
                assert(pc[h.len() + k] == sp[k as int]);
                assert(bc[h.len() + k] == sb[k as int]);
                assert(pc.take(bc.len() as int)[h.len() + k] == pc[h.len() + k]);
            }
            return false;
        }
        k = k + 1;
    }
    proof {
        assert(pc.take(bc.len() as int) =~= bc) by {
            assert forall|q: int| 0 <= q < bc.len() implies pc.take(bc.len() as int)[q] == bc[q] by {
                if q >= h.len() {
                    assert(sp[q - h.len()] == sb[q - h.len()]);
                }
            }
        }
    }
    true
}

/// Where the final component of `s` lies, when it is a normal name.
pub fn file_name_range(s: &[char]) -> (res: Option<(usize, usize)>)
    ensures
        match res {
            Some(r) => r.0 <= r.1 <= s@.len() && file_name(s@) == Some(
                s@.subrange(r.0 as int, r.1 as int),
            ),
            None => file_name(s@) is None,
        },
{
    let ranges = segment_ranges(s);
    let ghost segs = segments_from(s@, 0);
    let ghost comps = path_components(s@);
    proof {
        lemma_segments_plain(s@, 0);
        assert(range_views(s@, ranges@).len() == ranges@.len());
    }
    if ranges.len() == 0 {
        proof {
            let h = head_of(s@);
            assert(comps =~= h);
            if comps.len() > 0 {
                assert(comps.last() == seq!['/'] || comps.last() == seq!['.']);
            }
        }
        return None;
    }
    let r = ranges[ranges.len() - 1];
    proof {
        let last = segs.last();
        assert(comps.last() == last);
        assert(last == s@.subrange(r.0 as int, r.1 as int));
        assert(plain(last));
        assert(last.len() > 0 && last[0] != '/');
        assert(seq!['/'][0] == '/');
        assert(last != seq!['/']);
    }
    if r.1 - r.0 == 2 && s[r.0] == '.' && s[r.0 + 1] == '.' {
        proof {
            assert(s@.subrange(r.0 as int, r.1 as int) =~= seq!['.', '.']);
        }
        return None;
    }
    proof {
        let last = segs.last();
        if last == seq!['.', '.'] {
            assert(last.len() == 2);
            assert(last[0] == s@[r.0 as int] && last[1] == s@[r.0 + 1]);
        }
    }
    Some(r)
}

} // verus!

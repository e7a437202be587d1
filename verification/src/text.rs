//! Split combinators on leaked text. Every fragment a combinator returns is a
//! sub-slice of the same leaked buffer, wrapped as a fresh handle; nothing is
//! allocated for the fragments themselves (the vectors that collect them are
//! ordinary, owned values).
use vstd::prelude::*;

verus! {

use crate::Leak;
use vstd::string::StrSliceExecFns;
use vstd::string::StringSliceAdditionalSpecFns;

/// The pattern `p` occurs in `s` at character position `i`.
pub open spec fn match_at(s: Seq<char>, p: Seq<char>, i: int) -> bool {
    0 <= i && i + p.len() <= s.len() && s.subrange(i, i + p.len()) == p
}

/// How far a scan moves past a match: the pattern's length, or one character
/// for the empty pattern, which occurs at every position.
pub open spec fn stride(p: Seq<char>) -> int {
    if p.len() == 0 {
        1
    } else {
        p.len() as int
    }
}

/// The earliest occurrence of `p` in `s` at or after position `i`.
pub open spec fn first_match(s: Seq<char>, p: Seq<char>, i: int) -> Option<int>
    decreases s.len() - i + 1,
{
    if i < 0 || i + p.len() > s.len() {
        None
    } else if match_at(s, p, i) {
        Some(i)
    } else {
        first_match(s, p, i + 1)
    }
}

/// One fragment fewer may still be produced.
pub open spec fn dec_limit(n: Option<int>) -> Option<int> {
    match n {
        Some(k) => Some(k - 1),
        None => None,
    }
}

/// The fragments of `s` cut at occurrences of `p`, scanning forward.
///
/// A fragment is open since position `start` and the scan stands at `i`.
/// `n` is the number of fragments still allowed (`None`: unbounded); the last
/// allowed fragment is the whole rest, uncut. With `inc` each fragment keeps
/// the separator that closed it. After an empty match the scan resumes one
/// character further on, so the empty pattern cuts at every position.
pub open spec fn fwd_frags(
    s: Seq<char>,
    p: Seq<char>,
    n: Option<int>,
    inc: bool,
    start: int,
    i: int,
) -> Seq<Seq<char>>
    decreases s.len() - i + 1,
{
    if n == Some(0int) {
        seq![]
    } else if n == Some(1int) || i < 0 || i + p.len() > s.len() {
        seq![s.subrange(start, s.len() as int)]
    } else if match_at(s, p, i) {
        seq![
            s.subrange(
                start,
                if inc {
                    i + p.len()
                } else {
                    i
                },
            ),
        ] + fwd_frags(s, p, dec_limit(n), inc, i + p.len(), i + stride(p))
    } else {
        fwd_frags(s, p, n, inc, start, i + 1)
    }
}

/// The fragments of `s` split on `p`, in order.
pub open spec fn split_frags(s: Seq<char>, p: Seq<char>) -> Seq<Seq<char>> {
    fwd_frags(s, p, None, false, 0, 0)
}

/// At most `n` fragments of `s` split on `p`; the last one is the uncut rest.
pub open spec fn splitn_frags(s: Seq<char>, p: Seq<char>, n: int) -> Seq<Seq<char>> {
    fwd_frags(s, p, Some(n), false, 0, 0)
}

/// Drops a final empty fragment, as the terminator- and separator-keeping
/// splits do.
pub open spec fn drop_last_empty(f: Seq<Seq<char>>) -> Seq<Seq<char>> {
    if f.len() > 0 && f.last().len() == 0 {
        f.drop_last()
    } else {
        f
    }
}

/// The fragments of `s` split on `p`, each keeping its closing separator; a
/// final empty fragment is dropped.
pub open spec fn split_inclusive_frags(s: Seq<char>, p: Seq<char>) -> Seq<Seq<char>> {
    drop_last_empty(fwd_frags(s, p, None, true, 0, 0))
}

/// The fragments of `s` split on `p`, a final empty fragment dropped: `p` is
/// read as a terminator rather than a separator.
pub open spec fn split_terminator_frags(s: Seq<char>, p: Seq<char>) -> Seq<Seq<char>> {
    drop_last_empty(split_frags(s, p))
}

/// The latest occurrence of `p` in `s` that begins at or before `i` and ends
/// at or before `end`.
pub open spec fn last_match(s: Seq<char>, p: Seq<char>, end: int, i: int) -> Option<int>
    decreases i + 1,
{
    if i < 0 {
        None
    } else if i + p.len() <= end && match_at(s, p, i) {
        Some(i)
    } else {
        last_match(s, p, end, i - 1)
    }
}

/// Where a backward scan resumes after a match at `i`.
pub open spec fn back_step(i: int, p: Seq<char>) -> int {
    if i - stride(p) >= 0 {
        i - stride(p)
    } else {
        -1
    }
}

/// The fragments of `s` cut at occurrences of `p`, scanning backward.
///
/// A fragment is open down to position `end` and the scan stands at `i`; `n`
/// bounds the fragments still allowed, the last one being the whole uncut
/// front of the text.
pub open spec fn bwd_frags(
    s: Seq<char>,
    p: Seq<char>,
    n: Option<int>,
    end: int,
    i: int,
) -> Seq<Seq<char>>
    decreases i + 1,
{
    if n == Some(0int) {
        seq![]
    } else if n == Some(1int) || i < 0 {
        seq![s.subrange(0, end)]
    } else if i + p.len() <= end && match_at(s, p, i) {
        seq![s.subrange(i + p.len(), end)] + bwd_frags(s, p, dec_limit(n), i, back_step(i, p))
    } else {
        bwd_frags(s, p, n, end, i - 1)
    }
}

/// The fragments of `s` split on `p`, yielded from the right end leftward.
pub open spec fn rsplit_frags(s: Seq<char>, p: Seq<char>) -> Seq<Seq<char>> {
    bwd_frags(s, p, None, s.len() as int, s.len() as int)
}

/// At most `n` fragments of `s` split on `p` from the right; the last one is
/// the uncut front.
pub open spec fn rsplitn_frags(s: Seq<char>, p: Seq<char>, n: int) -> Seq<Seq<char>> {
    bwd_frags(s, p, Some(n), s.len() as int, s.len() as int)
}

/// Where the backward scan stands, the fragments are: one fragment down to
/// the latest occurrence, then the rest; or the whole front when no
/// occurrence is left.
proof fn lemma_bwd_step(s: Seq<char>, p: Seq<char>, n: Option<int>, end: int, i: int)
    requires
        n != Some(0int),
        n != Some(1int),
    ensures
        match last_match(s, p, end, i) {
            Some(m) => bwd_frags(s, p, n, end, i) == seq![s.subrange(m + p.len(), end)]
                + bwd_frags(s, p, dec_limit(n), m, back_step(m, p)),
            None => bwd_frags(s, p, n, end, i) == seq![s.subrange(0, end)],
        },
    decreases i + 1,
{
    if i < 0 {
    } else if i + p.len() <= end && match_at(s, p, i) {
    } else {
        lemma_bwd_step(s, p, n, end, i - 1);
    }
}

/// An occurrence found at or below `i` is a real occurrence and fits below
/// `end`.
proof fn lemma_last_match_bounds(s: Seq<char>, p: Seq<char>, end: int, i: int)
    ensures
        match last_match(s, p, end, i) {
            Some(m) => 0 <= m <= i && match_at(s, p, m) && m + p.len() <= end,
            None => true,
        },
    decreases i + 1,
{
    if i < 0 {
    } else if i + p.len() <= end && match_at(s, p, i) {
    } else {
        lemma_last_match_bounds(s, p, end, i - 1);
    }
}

/// Is `c` whitespace — of the ASCII range only, or of all of Unicode?
pub open spec fn is_space(c: char, ascii_only: bool) -> bool {
    let u = c as u32;
    if ascii_only {
        u == 0x20 || u == 0x09 || u == 0x0a || u == 0x0d || u == 0x0c
    } else {
        u == 0x20 || (0x09 <= u && u <= 0x0d) || u == 0x85 || u == 0xa0 || u == 0x1680 || (0x2000
            <= u && u <= 0x200a) || u == 0x2028 || u == 0x2029 || u == 0x202f || u == 0x205f || u
            == 0x3000
    }
}

/// The maximal runs of non-whitespace characters of `s`: a run is open since
/// `start`, if one is, and the scan stands at `i`. Empty fragments never
/// arise.
pub open spec fn space_frags(
    s: Seq<char>,
    ascii_only: bool,
    start: Option<int>,
    i: int,
) -> Seq<Seq<char>>
    decreases s.len() - i,
{
    if i < 0 || i >= s.len() {
        match start {
            Some(st) => seq![s.subrange(st, s.len() as int)],
            None => seq![],
        }
    } else if is_space(s[i], ascii_only) {
        match start {
            Some(st) => seq![s.subrange(st, i)] + space_frags(s, ascii_only, None, i + 1),
            None => space_frags(s, ascii_only, None, i + 1),
        }
    } else {
        match start {
            Some(st) => space_frags(s, ascii_only, Some(st), i + 1),
            None => space_frags(s, ascii_only, Some(i), i + 1),
        }
    }
}

/// The fragments of `s` between runs of Unicode whitespace.
pub open spec fn whitespace_frags(s: Seq<char>) -> Seq<Seq<char>> {
    space_frags(s, false, None, 0)
}

/// The fragments of `s` between runs of ASCII whitespace; all other
/// characters, whitespace of Unicode included, count as fragment content.
pub open spec fn ascii_whitespace_frags(s: Seq<char>) -> Seq<Seq<char>> {
    space_frags(s, true, None, 0)
}

/// The texts the fragment handles refer to.
pub open spec fn frag_views(v: Seq<Leak<str>>) -> Seq<Seq<char>> {
    v.map_values(|l: Leak<str>| l@)
}

proof fn lemma_frag_views_push(v: Seq<Leak<str>>, x: Leak<str>)
    ensures
        frag_views(v.push(x)) == frag_views(v).push(x@),
{
    assert(frag_views(v.push(x)) =~= frag_views(v).push(x@));
}

/// Where the forward scan stands, the fragments are: one fragment closed at
/// the next occurrence, then the rest; or the whole rest when no occurrence
/// is left.
proof fn lemma_fwd_step(s: Seq<char>, p: Seq<char>, n: Option<int>, inc: bool, start: int, i: int)
    requires
        0 <= i,
        n != Some(0int),
        n != Some(1int),
    ensures
        match first_match(s, p, i) {
            Some(m) => fwd_frags(s, p, n, inc, start, i) == seq![
                s.subrange(
                    start,
                    if inc {
                        m + p.len()
                    } else {
                        m
                    },
                ),
            ] + fwd_frags(s, p, dec_limit(n), inc, m + p.len(), m + stride(p)),
            None => fwd_frags(s, p, n, inc, start, i) == seq![s.subrange(start, s.len() as int)],
        },
    decreases s.len() - i + 1,
{
    if i + p.len() > s.len() {
    } else if match_at(s, p, i) {
    } else {
        lemma_fwd_step(s, p, n, inc, start, i + 1);
    }
}

/// An occurrence found at or after `i` lies at or after `i`, is a real
/// occurrence, and fits inside `s`.
proof fn lemma_first_match_bounds(s: Seq<char>, p: Seq<char>, i: int)
    requires
        0 <= i,
    ensures
        match first_match(s, p, i) {
            Some(m) => i <= m && match_at(s, p, m) && m + p.len() <= s.len(),
            None => true,
        },
    decreases s.len() - i + 1,
{
    if i + p.len() > s.len() {
    } else if match_at(s, p, i) {
    } else {
        lemma_first_match_bounds(s, p, i + 1);
    }
}

impl Leak<str> {
    /// The leaked text itself.
    pub fn as_str(self) -> (r: &'static str)
        ensures
            r == self.referent(),
    {
        self.0
    }

    /// The handle for one stretch of the same leaked buffer; nothing is
    /// allocated or copied.
    fn fragment(self, from: usize, to: usize) -> (r: Leak<str>)
        requires
            from <= to <= self@.len(),
        ensures
            r@ == self@.subrange(from as int, to as int),
    {
        Leak(self.0.substring_char(from, to))
    }
}

/// A bound on the number of fragments, as the scan counts it.
pub open spec fn lift_limit(n: Option<usize>) -> Option<int> {
    match n {
        Some(k) => Some(k as int),
        None => None,
    }
}

impl Leak<str> {
    /// Cuts the text at occurrences of `pat`, scanning forward: the shared
    /// engine of the forward split family.
    #[verifier::loop_isolation(false)]
    fn split_fwd(self, pat: &str, limit: Option<usize>, inc: bool) -> (r: Vec<Leak<str>>)
        ensures
            frag_views(r@) == fwd_frags(self@, pat@, lift_limit(limit), inc, 0, 0),
    {
        let t = self.0;
        let t_len = t.unicode_len();
        let p_len = pat.unicode_len();
        let ghost total = fwd_frags(self@, pat@, lift_limit(limit), inc, 0, 0);
        let mut out: Vec<Leak<str>> = Vec::new();
        let mut n = limit;
        let mut start: usize = 0;
        let mut i: usize = 0;
        loop
            invariant
                t == self.referent(),
                t_len == t@.len(),
                p_len == pat@.len(),
                start <= i,
                i <= t_len,
                frag_views(out@) + fwd_frags(t@, pat@, lift_limit(n), inc, start as int, i as int)
                    =~= total,
            decreases t_len + 1 - i,
        {
            if let Some(nv) = n {
                if nv == 0 {
                    proof {
                        assert(frag_views(out@) =~= total);
                    }
                    return out;
                }
                if nv == 1 {
                    let whole = self.fragment(start, t_len);
                    proof {
                        lemma_frag_views_push(out@, whole);
                    }
                    out.push(whole);
                    proof {
                        assert(frag_views(out@) =~= total);
                    }
                    return out;
                }
            }
            match next_match(t, pat, i, t_len, p_len) {
                None => {
                    proof {
                        lemma_fwd_step(t@, pat@, lift_limit(n), inc, start as int, i as int);
                    }
                    let whole = self.fragment(start, t_len);
                    proof {
                        lemma_frag_views_push(out@, whole);
                    }
                    out.push(whole);
                    proof {
                        assert(frag_views(out@) =~= total);
                    }
                    return out;
                },
                Some(m) => {
                    proof {
                        lemma_fwd_step(t@, pat@, lift_limit(n), inc, start as int, i as int);
                        lemma_first_match_bounds(t@, pat@, i as int);
                    }
                    let frag_end = if inc {
                        m + p_len
                    } else {
                        m
                    };
                    let frag = self.fragment(start, frag_end);
                    proof {
                        lemma_frag_views_push(out@, frag);
                    }
                    out.push(frag);
                    start = m + p_len;
                    n = match n {
                        Some(nv) => Some(nv - 1),
                        None => None,
                    };
                    if p_len == 0 {
                        if m == t_len {
                            let tail = self.fragment(t_len, t_len);
                            proof {
                                lemma_frag_views_push(out@, tail);
                            }
                            out.push(tail);
                            proof {
                                assert(frag_views(out@) =~= total);
                            }
                            return out;
                        }
                        i = m + 1;
                    } else {
                        i = m + p_len;
                    }
                    proof {
                        assert(frag_views(out@) + fwd_frags(
                            t@,
                            pat@,
                            lift_limit(n),
                            inc,
                            start as int,
                            i as int,
                        ) =~= total);
                    }
                },
            }
        }
    }

    /// The fragments between occurrences of `pat`, in order; around each
    /// occurrence, and at the ends, a fragment may be empty.
    pub fn split(self, pat: &str) -> (r: Vec<Leak<str>>)
        ensures
            frag_views(r@) == split_frags(self@, pat@),
    {
        self.split_fwd(pat, None, false)
    }

    /// At most `n` fragments split on `pat`; the last one is the uncut rest.
    pub fn splitn(self, n: usize, pat: &str) -> (r: Vec<Leak<str>>)
        ensures
            frag_views(r@) == splitn_frags(self@, pat@, n as int),
    {
        self.split_fwd(pat, Some(n), false)
    }

    /// The fragments split on `pat`, each keeping the occurrence that closed
    /// it; a final fragment with nothing after the last occurrence is dropped.
    pub fn split_inclusive(self, pat: &str) -> (r: Vec<Leak<str>>)
        ensures
            frag_views(r@) == split_inclusive_frags(self@, pat@),
    {
        let mut r = self.split_fwd(pat, None, true);
        drop_trailing_empty(&mut r);
        r
    }

    /// The fragments split on `pat` read as a terminator: as `split`, but a
    /// final empty fragment is dropped.
    pub fn split_terminator(self, pat: &str) -> (r: Vec<Leak<str>>)
        ensures
            frag_views(r@) == split_terminator_frags(self@, pat@),
    {
        let mut r = self.split_fwd(pat, None, false);
        drop_trailing_empty(&mut r);
        r
    }
}

/// Removes a final empty fragment, if there is one.
fn drop_trailing_empty(v: &mut Vec<Leak<str>>)
    ensures
        frag_views(final(v)@) == drop_last_empty(frag_views(old(v)@)),
{
    let len = v.len();
    if len > 0 {
        let last = v[len - 1];
        proof {
            assert(frag_views(v@)[len - 1] == last@);
        }
        if last.as_str().unicode_len() == 0 {
            v.pop();
            proof {
                assert(frag_views(v@) =~= frag_views(old(v)@).drop_last());
            }
        }
    }
}

/// Does `p` occur in `t` at character position `i`?
fn match_here(t: &str, p: &str, i: usize, t_len: usize, p_len: usize) -> (r: bool)
    requires
        t_len == t@.len(),
        p_len == p@.len(),
        i + p_len <= t_len,
    ensures
        r == match_at(t@, p@, i as int),
{
    let mut k: usize = 0;
    while k < p_len
        invariant
            t_len == t@.len(),
            p_len == p@.len(),
            i + p_len <= t_len,
            k <= p_len,
            forall|j: int| 0 <= j < k ==> t@[i + j] == p@[j],
        decreases p_len - k,
    {
        if t.get_char(i + k) != p.get_char(k) {
            proof {
                if match_at(t@, p@, i as int) {
                    assert(t@.subrange(i as int, i + p@.len())[k as int] == t@[i + k]);
                }
            }
            return false;
        }
        k += 1;
    }
    proof {
        assert(t@.subrange(i as int, i + p@.len()) =~= p@);
    }
    true
}

/// The earliest occurrence of `p` in `t` at or after position `from`.
fn next_match(t: &str, p: &str, from: usize, t_len: usize, p_len: usize) -> (r: Option<usize>)
    requires
        t_len == t@.len(),
        p_len == p@.len(),
        from <= t_len,
    ensures
        match r {
            Some(m) => first_match(t@, p@, from as int) == Some(m as int),
            None => first_match(t@, p@, from as int) is None,
        },
{
    let mut i = from;
    loop
        invariant
            t_len == t@.len(),
            p_len == p@.len(),
            i <= t_len,
            first_match(t@, p@, from as int) == first_match(t@, p@, i as int),
        decreases t_len - i,
    {
        if p_len > t_len || i > t_len - p_len {
            return None;
        }
        if match_here(t, p, i, t_len, p_len) {
            return Some(i);
        }
        proof {
            if p_len == 0 {
                assert(t@.subrange(i as int, i as int) =~= p@);
            }
        }
        i += 1;
    }
}

/// The latest occurrence of `p` in `t` beginning at or before `from` and
/// ending at or before `end`.
fn prev_match(t: &str, p: &str, from: usize, end: usize, t_len: usize, p_len: usize) -> (r: Option<
    usize,
>)
    requires
        t_len == t@.len(),
        p_len == p@.len(),
        from <= t_len,
        end <= t_len,
    ensures
        match r {
            Some(m) => last_match(t@, p@, end as int, from as int) == Some(m as int),
            None => last_match(t@, p@, end as int, from as int) is None,
        },
{
    let mut i = from;
    loop
        invariant
            t_len == t@.len(),
            p_len == p@.len(),
            i <= t_len,
            end <= t_len,
            last_match(t@, p@, end as int, from as int) == last_match(t@, p@, end as int, i as int),
        decreases i + 1,
    {
        if p_len <= end && i <= end - p_len {
            if match_here(t, p, i, t_len, p_len) {
                return Some(i);
            }
        }
        if i == 0 {
            proof {
                assert(last_match(t@, p@, end as int, -1) is None);
            }
            return None;
        }
        i -= 1;
    }
}

impl Leak<str> {
    /// Cuts the text at occurrences of `pat`, scanning backward from the end:
    /// the shared engine of the reverse split family.
    #[verifier::loop_isolation(false)]
    fn split_bwd(self, pat: &str, limit: Option<usize>) -> (r: Vec<Leak<str>>)
        ensures
            frag_views(r@) == bwd_frags(
                self@,
                pat@,
                lift_limit(limit),
                self@.len() as int,
                self@.len() as int,
            ),
    {
        let t = self.0;
        let t_len = t.unicode_len();
        let p_len = pat.unicode_len();
        let ghost total = bwd_frags(
            self@,
            pat@,
            lift_limit(limit),
            self@.len() as int,
            self@.len() as int,
        );
        let mut out: Vec<Leak<str>> = Vec::new();
        let mut n = limit;
        let mut end: usize = t_len;
        let mut i: usize = t_len;
        loop
            invariant
                i <= end,
                end <= t_len,
                frag_views(out@) + bwd_frags(t@, pat@, lift_limit(n), end as int, i as int)
                    =~= total,
            decreases i + 1,
        {
            if let Some(nv) = n {
                if nv == 0 {
                    proof {
                        assert(frag_views(out@) =~= total);
                    }
                    return out;
                }
                if nv == 1 {
                    let front = self.fragment(0, end);
                    proof {
                        lemma_frag_views_push(out@, front);
                    }
                    out.push(front);
                    proof {
                        assert(frag_views(out@) =~= total);
                    }
                    return out;
                }
            }
            match prev_match(t, pat, i, end, t_len, p_len) {
                None => {
                    proof {
                        lemma_bwd_step(t@, pat@, lift_limit(n), end as int, i as int);
                    }
                    let front = self.fragment(0, end);
                    proof {
                        lemma_frag_views_push(out@, front);
                    }
                    out.push(front);
                    proof {
                        assert(frag_views(out@) =~= total);
                    }
                    return out;
                },
                Some(m) => {
                    proof {
                        lemma_bwd_step(t@, pat@, lift_limit(n), end as int, i as int);
                        lemma_last_match_bounds(t@, pat@, end as int, i as int);
                    }
                    let frag = self.fragment(m + p_len, end);
                    proof {
                        lemma_frag_views_push(out@, frag);
                    }
                    out.push(frag);
                    end = m;
                    n = match n {
                        Some(nv) => Some(nv - 1),
                        None => None,
                    };
                    let st = if p_len == 0 {
                        1
                    } else {
                        p_len
                    };
                    if m < st {
                        let front = self.fragment(0, end);
                        proof {
                            lemma_frag_views_push(out@, front);
                        }
                        out.push(front);
                        proof {
                            assert(frag_views(out@) =~= total);
                        }
                        return out;
                    }
                    i = m - st;
                    proof {
                        assert(frag_views(out@) + bwd_frags(
                            t@,
                            pat@,
                            lift_limit(n),
                            end as int,
                            i as int,
                        ) =~= total);
                    }
                },
            }
        }
    }

    /// The fragments between occurrences of `pat`, yielded from the right end
    /// leftward.
    pub fn rsplit(self, pat: &str) -> (r: Vec<Leak<str>>)
        ensures
            frag_views(r@) == rsplit_frags(self@, pat@),
    {
        self.split_bwd(pat, None)
    }

    /// At most `n` fragments split on `pat` from the right; the last one is
    /// the uncut front of the text.
    pub fn rsplitn(self, n: usize, pat: &str) -> (r: Vec<Leak<str>>)
        ensures
            frag_views(r@) == rsplitn_frags(self@, pat@, n as int),
    {
        self.split_bwd(pat, Some(n))
    }

    /// The fragments before and after the first occurrence of `pat`, or
    /// nothing when `pat` does not occur.
    pub fn split_once(self, pat: &str) -> (r: Option<(Leak<str>, Leak<str>)>)
        ensures
            r is Some <==> first_match(self@, pat@, 0) is Some,
            r matches Some(pair) ==> ({
                let m = first_match(self@, pat@, 0)->Some_0;
                pair.0@ == self@.subrange(0, m) && pair.1@ == self@.subrange(
                    m + pat@.len(),
                    self@.len() as int,
                )
            }),
    {
        let t = self.0;
        let t_len = t.unicode_len();
        let p_len = pat.unicode_len();
        match next_match(t, pat, 0, t_len, p_len) {
            Some(m) => {
                proof {
                    lemma_first_match_bounds(self@, pat@, 0);
                }
                Some((self.fragment(0, m), self.fragment(m + p_len, t_len)))
            },
            None => None,
        }
    }

    /// The fragments before and after the last occurrence of `pat`, or
    /// nothing when `pat` does not occur.
    pub fn rsplit_once(self, pat: &str) -> (r: Option<(Leak<str>, Leak<str>)>)
        ensures
            r is Some <==> last_match(self@, pat@, self@.len() as int, self@.len() as int) is Some,
            r matches Some(pair) ==> ({
                let m = last_match(self@, pat@, self@.len() as int, self@.len() as int)->Some_0;
                pair.0@ == self@.subrange(0, m) && pair.1@ == self@.subrange(
                    m + pat@.len(),
                    self@.len() as int,
                )
            }),
    {
        let t = self.0;
        let t_len = t.unicode_len();
        let p_len = pat.unicode_len();
        match prev_match(t, pat, t_len, t_len, t_len, p_len) {
            Some(m) => {
                proof {
                    lemma_last_match_bounds(self@, pat@, t_len as int, t_len as int);
                }
                Some((self.fragment(0, m), self.fragment(m + p_len, t_len)))
            },
            None => None,
        }
    }

    /// Cuts the text into exactly two fragments at byte position `mid`, which
    /// must lie on a character boundary of the encoding.
    pub fn split_at(self, mid: usize) -> (r: (Leak<str>, Leak<str>))
        requires
            vstd::utf8::is_char_boundary(self.referent().spec_bytes(), mid as int),
        ensures
            r.0.referent().spec_bytes() == self.referent().spec_bytes().subrange(0, mid as int),
            r.1.referent().spec_bytes() == self.referent().spec_bytes().subrange(
                mid as int,
                self.referent().spec_bytes().len() as int,
            ),
    {
        let (a, b) = self.0.split_at(mid);
        proof {
            assert(a.spec_bytes() == self.referent().spec_bytes().subrange(0, mid as int));
            assert(b.spec_bytes() == self.referent().spec_bytes().subrange(
                mid as int,
                self.referent().spec_bytes().len() as int,
            ));
        }
        (Leak(a), Leak(b))
    }

    /// As the two-fragment cut at byte position `mid`, but an invalid
    /// position yields nothing instead of being ruled out.
    pub fn split_at_checked(self, mid: usize) -> (r: Option<(Leak<str>, Leak<str>)>)
        ensures
            r is Some <==> vstd::utf8::is_char_boundary(self.referent().spec_bytes(), mid as int),
            r matches Some(pair) ==> pair.0.referent().spec_bytes()
                == self.referent().spec_bytes().subrange(0, mid as int)
                && pair.1.referent().spec_bytes() == self.referent().spec_bytes().subrange(
                mid as int,
                self.referent().spec_bytes().len() as int,
            ),
    {
        if self.0.is_char_boundary(mid) {
            Some(self.split_at(mid))
        } else {
            None
        }
    }

    /// Cuts the text at runs of whitespace: the shared engine of the two
    /// whitespace splits.
    #[verifier::loop_isolation(false)]
    fn split_space(self, ascii_only: bool) -> (r: Vec<Leak<str>>)
        ensures
            frag_views(r@) == space_frags(self@, ascii_only, None, 0),
    {
        let t = self.0;
        let t_len = t.unicode_len();
        let ghost total = space_frags(self@, ascii_only, None, 0);
        let mut out: Vec<Leak<str>> = Vec::new();
        let mut run: Option<usize> = None;
        let mut i: usize = 0;
        while i < t_len
            invariant
                i <= t_len,
                match run {
                    Some(st) => st <= i,
                    None => true,
                },
                frag_views(out@) + space_frags(t@, ascii_only, lift_limit(run), i as int)
                    =~= total,
            decreases t_len - i,
        {
            let c = t.get_char(i);
            if is_space_char(c, ascii_only) {
                if let Some(st) = run {
                    let frag = self.fragment(st, i);
                    proof {
                        lemma_frag_views_push(out@, frag);
                    }
                    out.push(frag);
                    run = None;
                }
            } else {
                if run.is_none() {
                    run = Some(i);
                }
            }
            i += 1;
            proof {
                assert(frag_views(out@) + space_frags(
                    t@,
                    ascii_only,
                    lift_limit(run),
                    i as int,
                ) =~= total);
            }
        }
        if let Some(st) = run {
            let frag = self.fragment(st, t_len);
            proof {
                lemma_frag_views_push(out@, frag);
            }
            out.push(frag);
        }
        proof {
            assert(frag_views(out@) =~= total);
        }
        out
    }

    /// The fragments between runs of Unicode whitespace; never empty.
    pub fn split_whitespace(self) -> (r: Vec<Leak<str>>)
        ensures
            frag_views(r@) == whitespace_frags(self@),
    {
        self.split_space(false)
    }

    /// The fragments between runs of ASCII whitespace; never empty. Other
    /// whitespace of Unicode counts as fragment content.
    pub fn split_ascii_whitespace(self) -> (r: Vec<Leak<str>>)
        ensures
            frag_views(r@) == ascii_whitespace_frags(self@),
    {
        self.split_space(true)
    }
}

/// The raw text read back from a leaked string is exactly the text that was
/// leaked, unmodified.
pub proof fn lemma_as_str_returns_original(s: String, l: Leak<str>, r: &'static str)
    requires
        call_ensures(Leak::<str>::from_string, (s,), l),
        call_ensures(Leak::<str>::as_str, (l,), r),
    ensures
        r@ == s@,
{
}

/// Is `c` whitespace — of the ASCII range only, or of all of Unicode?
fn is_space_char(c: char, ascii_only: bool) -> (r: bool)
    ensures
        r == is_space(c, ascii_only),
{
    let u = c as u32;
    if ascii_only {
        u == 0x20 || u == 0x09 || u == 0x0a || u == 0x0d || u == 0x0c
    } else {
        u == 0x20 || (0x09 <= u && u <= 0x0d) || u == 0x85 || u == 0xa0 || u == 0x1680 || (0x2000
            <= u && u <= 0x200a) || u == 0x2028 || u == 0x2029 || u == 0x202f || u == 0x205f || u
            == 0x3000
    }
}

} // verus!

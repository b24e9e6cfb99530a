use vstd::prelude::*;

verus! {

use crate::is_url_byte;
use crate::is_url_byte_exec;

/// Minimum length of a literal segment for it to serve as an index token.
pub const MIN_TOKEN_LEN: usize = 3;

/// One piece of a filter pattern: a literal run of bytes, a wildcard (`*`,
/// matching any number of bytes), or a separator mark (`^`, matching one
/// non-URL byte or the end of the URL).
pub enum Segment {
    Lit(Vec<u8>),
    Wild,
    Sep,
}

/// Mathematical model of a pattern segment.
pub enum SegView {
    Lit(Seq<u8>),
    Wild,
    Sep,
}

impl View for Segment {
    type V = SegView;

    open spec fn view(&self) -> SegView {
        match self {
            Segment::Lit(l) => SegView::Lit(l@),
            Segment::Wild => SegView::Wild,
            Segment::Sep => SegView::Sep,
        }
    }
}

/// The models of a sequence of segments.
pub open spec fn seg_views(ss: Seq<Segment>) -> Seq<SegView> {
    ss.map_values(|g: Segment| g@)
}

/// The literal bytes of a segment; empty for a wildcard or separator.
pub open spec fn lit_of(g: SegView) -> Seq<u8> {
    match g {
        SegView::Lit(l) => l,
        _ => Seq::empty(),
    }
}

/// Whether the segment sequence matches the whole byte string `s`:
/// a literal must appear verbatim, a wildcard consumes any number of
/// bytes, and a separator consumes one non-URL byte or, at the very end,
/// nothing.
pub open spec fn segs_match(segs: Seq<SegView>, s: Seq<u8>) -> bool
    decreases segs.len(),
{
    if segs.len() == 0 {
        s.len() == 0
    } else {
        match segs[0] {
            SegView::Lit(l) => l.len() <= s.len() && s.take(l.len() as int) == l
                && segs_match(segs.drop_first(), s.skip(l.len() as int)),
            SegView::Wild => exists|k: int|
                0 <= k <= s.len() && segs_match(segs.drop_first(), s.skip(k)),
            SegView::Sep => if s.len() == 0 {
                segs_match(segs.drop_first(), s)
            } else {
                !is_url_byte(s[0]) && segs_match(segs.drop_first(), s.skip(1))
            },
        }
    }
}

/// `t` occurs as a contiguous run of bytes somewhere in `u`.
pub open spec fn is_sub_of(t: Seq<u8>, u: Seq<u8>) -> bool {
    exists|p: int|
        0 <= p && p + t.len() <= u.len() && #[trigger] u.subrange(p, p + t.len() as int) == t
}

/// A substring of a suffix of `u` is a substring of `u`.
pub proof fn lemma_sub_of_skip(t: Seq<u8>, u: Seq<u8>, a: int)
    requires
        0 <= a <= u.len(),
        is_sub_of(t, u.skip(a)),
    ensures
        is_sub_of(t, u),
{
    let p = choose|p: int|
        0 <= p && p + t.len() <= u.skip(a).len() && #[trigger] u.skip(a).subrange(
            p,
            p + t.len() as int,
        ) == t;
    assert(u.subrange(a + p, a + p + t.len() as int) =~= u.skip(a).subrange(
        p,
        p + t.len() as int,
    ));
}

/// If a pattern matches `s`, every literal segment of the pattern occurs
/// verbatim somewhere in `s`.  This is what makes the token index sound.
pub proof fn lemma_match_lit_is_sub(segs: Seq<SegView>, s: Seq<u8>, m: int)
    requires
        segs_match(segs, s),
        0 <= m < segs.len(),
        segs[m] is Lit,
    ensures
        is_sub_of(lit_of(segs[m]), s),
    decreases segs.len(),
{
    if m == 0 {
        let l = lit_of(segs[0]);
        assert(s.subrange(0, l.len() as int) =~= s.take(l.len() as int));
        assert(0 <= 0 && 0 + l.len() <= s.len() && s.subrange(0, 0 + l.len() as int) == l);
    } else {
        match segs[0] {
            SegView::Lit(l) => {
                lemma_match_lit_is_sub(segs.drop_first(), s.skip(l.len() as int), m - 1);
                lemma_sub_of_skip(lit_of(segs[m]), s, l.len() as int);
            },
            SegView::Wild => {
                let k = choose|k: int|
                    0 <= k <= s.len() && segs_match(segs.drop_first(), s.skip(k));
                lemma_match_lit_is_sub(segs.drop_first(), s.skip(k), m - 1);
                lemma_sub_of_skip(lit_of(segs[m]), s, k);
            },
            SegView::Sep => {
                if s.len() == 0 {
                    lemma_match_lit_is_sub(segs.drop_first(), s, m - 1);
                } else {
                    lemma_match_lit_is_sub(segs.drop_first(), s.skip(1), m - 1);
                    lemma_sub_of_skip(lit_of(segs[m]), s, 1);
                }
            },
        }
    }
}

/// The index token of a pattern: the longest literal segment of length at
/// least `MIN_TOKEN_LEN`, the earliest of equal length; empty if none
/// qualifies.
pub open spec fn token_of(segs: Seq<SegView>) -> Seq<u8>
    decreases segs.len(),
{
    if segs.len() == 0 {
        Seq::empty()
    } else {
        let rest = token_of(segs.drop_first());
        let cur = lit_of(segs[0]);
        if cur.len() >= MIN_TOKEN_LEN as int && cur.len() >= rest.len() {
            cur
        } else {
            rest
        }
    }
}

/// A non-empty index token is the literal bytes of some segment of the
/// pattern.
pub proof fn lemma_token_is_lit(segs: Seq<SegView>)
    ensures
        token_of(segs).len() == 0 || exists|m: int|
            0 <= m < segs.len() && segs[m] is Lit && lit_of(segs[m]) == token_of(segs),
    decreases segs.len(),
{
    if segs.len() > 0 {
        let rest = token_of(segs.drop_first());
        let cur = lit_of(segs[0]);
        if cur.len() >= MIN_TOKEN_LEN as int && cur.len() >= rest.len() {
            assert(segs[0] is Lit);
            assert(0 <= 0 < segs.len() && segs[0] is Lit && lit_of(segs[0]) == token_of(segs));
        } else {
            lemma_token_is_lit(segs.drop_first());
            if rest.len() != 0 {
                let m0 = choose|m: int|
                    0 <= m < segs.drop_first().len() && segs.drop_first()[m] is Lit && lit_of(
                        segs.drop_first()[m],
                    ) == rest;
                assert(segs[m0 + 1] == segs.drop_first()[m0]);
                assert(0 <= m0 + 1 < segs.len() && segs[m0 + 1] is Lit && lit_of(segs[m0 + 1])
                    == token_of(segs));
            }
        }
    }
}

/// Copy of a byte vector.
pub fn copy_bytes(v: &Vec<u8>) -> (r: Vec<u8>)
    ensures
        r@ == v@,
{
    vstd::slice::slice_to_vec(v.as_slice())
}

/// Does the literal `l` stand verbatim in `s` at offset `j`?
fn lit_prefix_at(l: &Vec<u8>, s: &[u8], j: usize) -> (r: bool)
    requires
        j <= s@.len(),
    ensures
        r == (j + l@.len() <= s@.len() && s@.subrange(j as int, j + l@.len() as int) == l@),
{
    let s_len = s.len();
    if s_len - j < l.len() {
        return false;
    }
    let mut k: usize = 0;
    while k < l.len()
        invariant
            0 <= k <= l@.len(),
            j + l@.len() <= s@.len(),
            s_len == s@.len(),
            forall|q: int| 0 <= q < k ==> s@[j + q] == l@[q],
        decreases l@.len() - k,
    {
        if s[j + k] != l[k] {
            proof {
                let sub = s@.subrange(j as int, j + l@.len() as int);
                if sub == l@ {
                    assert(sub[k as int] == l@[k as int]);
                }
            }
            return false;
        }
        k += 1;
    }
    proof {
        assert(s@.subrange(j as int, j + l@.len() as int) =~= l@);
    }
    true
}

/// Match the segments from index `i` on against the bytes of `s` from
/// offset `j` on.
pub fn segs_match_from(segs: &Vec<Segment>, i: usize, s: &[u8], j: usize) -> (r: bool)
    requires
        i <= segs@.len(),
        j <= s@.len(),
    ensures
        r == segs_match(seg_views(segs@).skip(i as int), s@.skip(j as int)),
    decreases segs@.len() - i,
{
    proof {
        assert(seg_views(segs@).skip(i as int).len() == segs@.len() - i);
    }
    let seg_count = segs.len();
    let s_len = s.len();
    if i == seg_count {
        return j == s_len;
    }
    let ghost whole = seg_views(segs@).skip(i as int);
    let ghost rest = seg_views(segs@).skip(i as int + 1);
    proof {
        assert(whole[0] == segs@[i as int]@);
        assert(whole.drop_first() =~= rest);
    }
    match &segs[i] {
        Segment::Lit(l) => {
            if !lit_prefix_at(l, s, j) {
                proof {
                    let s1 = s@.skip(j as int);
                    if j + l@.len() <= s@.len() {
                        assert(s1.take(l@.len() as int) =~= s@.subrange(
                            j as int,
                            j + l@.len() as int,
                        ));
                    } else {
                        assert(l@.len() > s1.len());
                    }
                }
                return false;
            }
            let r = segs_match_from(segs, i + 1, s, j + l.len());
            proof {
                assert(s@.skip(j as int).take(l@.len() as int) =~= s@.subrange(
                    j as int,
                    j + l@.len() as int,
                ));
                assert(s@.skip(j as int).skip(l@.len() as int) =~= s@.skip(j + l@.len() as int));
            }
            r
        },
        Segment::Wild => {
            let mut k: usize = j;
            while k < s_len
                invariant
                    j <= k <= s_len,
                    s_len == s@.len(),
                    i < segs@.len(),
                    segs@.len() <= usize::MAX,
                    whole == seg_views(segs@).skip(i as int),
                    whole.len() == segs@.len() - i,
                    whole[0] is Wild,
                    rest == whole.drop_first(),
                    rest == seg_views(segs@).skip(i as int + 1),
                    forall|t: int| j <= t < k ==> !segs_match(rest, s@.skip(t)),
                decreases s_len - k,
            {
                if segs_match_from(segs, i + 1, s, k) {
                    proof {
                        let s1 = s@.skip(j as int);
                        assert(s1.skip(k - j) =~= s@.skip(k as int));
                        assert(segs_match(whole.drop_first(), s1.skip(k - j)));
                        assert(0 <= k - j <= s1.len());
                        assert(segs_match(whole, s1));
                    }
                    return true;
                }
                k += 1;
            }
            if segs_match_from(segs, i + 1, s, s_len) {
                proof {
                    let s1 = s@.skip(j as int);
                    assert(s1.skip(s_len - j) =~= s@.skip(s_len as int));
                    assert(segs_match(whole.drop_first(), s1.skip(s_len - j)));
                    assert(0 <= s_len - j <= s1.len());
                    assert(segs_match(whole, s1));
                }
                return true;
            }
            proof {
                let s1 = s@.skip(j as int);
                assert forall|t: int| 0 <= t <= s1.len() implies !segs_match(
                    whole.drop_first(),
                    s1.skip(t),
                ) by {
                    assert(s1.skip(t) =~= s@.skip(j + t));
                }
                assert(!segs_match(whole, s1));
            }
            false
        },
        Segment::Sep => {
            if j < s.len() {
                if is_url_byte_exec(s[j]) {
                    return false;
                }
                let r = segs_match_from(segs, i + 1, s, j + 1);
                proof {
                    assert(s@.skip(j as int).skip(1) =~= s@.skip(j + 1));
                }
                r
            } else {
                let r = segs_match_from(segs, i + 1, s, j);
                proof {
                    assert(s@.skip(j as int).len() == 0);
                }
                r
            }
        },
    }
}

/// Whether `t` occurs verbatim somewhere in `u`, per `is_sub_of`.
pub fn find_sub(t: &[u8], u: &[u8]) -> (r: bool)
    ensures
        r == is_sub_of(t@, u@),
{
    let tn = t.len();
    let un = u.len();
    if tn > un {
        proof {
            if is_sub_of(t@, u@) {
                let p = choose|p: int|
                    0 <= p && p + t@.len() <= u@.len() && #[trigger] u@.subrange(
                        p,
                        p + t@.len() as int,
                    ) == t@;
            }
        }
        return false;
    }
    if tn == 0 {
        proof {
            assert(u@.subrange(0, 0 + t@.len() as int) =~= t@);
        }
        return true;
    }
    let mut p: usize = 0;
    while p <= un - tn
        invariant
            0 <= p <= un - tn + 1,
            0 < tn <= un,
            tn == t@.len(),
            un == u@.len(),
            forall|q: int| 0 <= q < p ==> #[trigger] u@.subrange(q, q + t@.len() as int) != t@,
        decreases un - p,
    {
        if crate::url::bytes_eq(vstd::slice::slice_subrange(u, p, p + tn), t) {
            return true;
        }
        p += 1;
    }
    proof {
        if is_sub_of(t@, u@) {
            let q = choose|q: int|
                0 <= q && q + t@.len() <= u@.len() && #[trigger] u@.subrange(q, q + t@.len() as int)
                    == t@;
        }
    }
    false
}

/// The index token of the segments from index `i` on, as executable data.
pub fn token_from(segs: &Vec<Segment>, i: usize) -> (t: Vec<u8>)
    requires
        i <= segs@.len(),
    ensures
        t@ == token_of(seg_views(segs@).skip(i as int)),
    decreases segs@.len() - i,
{
    proof {
        assert(seg_views(segs@).skip(i as int).len() == segs@.len() - i);
    }
    if i == segs.len() {
        return Vec::new();
    }
    let ghost whole = seg_views(segs@).skip(i as int);
    proof {
        assert(whole[0] == segs@[i as int]@);
        assert(whole.drop_first() =~= seg_views(segs@).skip(i as int + 1));
    }
    let rest = token_from(segs, i + 1);
    match &segs[i] {
        Segment::Lit(l) => {
            if l.len() >= MIN_TOKEN_LEN && l.len() >= rest.len() {
                copy_bytes(l)
            } else {
                rest
            }
        },
        _ => rest,
    }
}

} // verus!

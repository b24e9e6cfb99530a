use vstd::prelude::*;

verus! {

use crate::pattern::is_sub_of;
use crate::pattern::find_sub;
use crate::pattern::copy_bytes;
use crate::rules::Rule;
use crate::rules::RuleView;
use crate::rules::rule_wf;
use crate::rules::rule_matches;
use crate::rules::pattern_matches;
use crate::rules::spec_verdict;
use crate::rules::rule_match_exec;
use crate::rules::lemma_pattern_token_sub;
use crate::parser::rule_views;
use crate::url::bytes_eq;

/// One bucket of the token index: the rules whose index token is
/// `token`, in insertion order.
pub struct Bucket {
    pub token: Vec<u8>,
    pub rules: Vec<Rule>,
}

/// Membership of a rule model in the fallback list or in some bucket.
pub open spec fn vecs_has(fb: Seq<Rule>, bs: Seq<Bucket>, rv: RuleView) -> bool {
    (exists|i: int| 0 <= i < fb.len() && (#[trigger] fb[i])@ == rv) || (exists|b: int, i: int|
        0 <= b < bs.len() && 0 <= i < bs[b].rules@.len() && (#[trigger] bs[b].rules@[i])@ == rv)
}

/// Shape of the index: fallback rules have no usable token, bucket rules
/// carry their bucket's token, and every stored rule is well-formed and
/// belongs to `done`.
pub open spec fn vecs_wf(fb: Seq<Rule>, bs: Seq<Bucket>, done: Seq<RuleView>) -> bool {
    (forall|i: int|
        0 <= i < fb.len() ==> {
            let rv = (#[trigger] fb[i])@;
            rule_wf(rv) && rv.index_token.len() == 0 && done.contains(rv)
        }) && (forall|b: int, i: int|
        0 <= b < bs.len() && 0 <= i < bs[b].rules@.len() ==> {
            let rv = (#[trigger] bs[b].rules@[i])@;
            rule_wf(rv) && rv.index_token == bs[b].token@ && rv.index_token.len() > 0
                && done.contains(rv)
        })
}

/// Matching fallback rule with the given disposition among the first `k`.
pub open spec fn fb_hit(
    fb: Seq<Rule>,
    k: int,
    url: Seq<u8>,
    src: Seq<u8>,
    t: Seq<u8>,
    exc: bool,
) -> bool {
    exists|i: int|
        0 <= i < k && (#[trigger] fb[i])@.is_exception == exc && rule_matches(
            fb[i]@,
            url,
            src,
            t,
        )
}

/// Matching rule with the given disposition in one of the first `bk`
/// buckets.
pub open spec fn bk_hit(
    bs: Seq<Bucket>,
    bk: int,
    url: Seq<u8>,
    src: Seq<u8>,
    t: Seq<u8>,
    exc: bool,
) -> bool {
    exists|b: int, i: int|
        0 <= b < bk && 0 <= i < bs[b].rules@.len() && (#[trigger] bs[b].rules@[i])@.is_exception
            == exc && rule_matches(bs[b].rules@[i]@, url, src, t)
}

/// Matching rule with the given disposition among the first `k` rules of
/// bucket `b`.
pub open spec fn one_hit(
    bs: Seq<Bucket>,
    b: int,
    k: int,
    url: Seq<u8>,
    src: Seq<u8>,
    t: Seq<u8>,
    exc: bool,
) -> bool {
    exists|i: int|
        0 <= i < k && (#[trigger] bs[b].rules@[i])@.is_exception == exc && rule_matches(
            bs[b].rules@[i]@,
            url,
            src,
            t,
        )
}

/// The compiled rule index of one engine: rules with a usable literal
/// token grouped by token, and the fallback rules checked on every
/// request.  The model of a store is the rule sequence it was built from.
pub struct RuleStore {
    fallback: Vec<Rule>,
    buckets: Vec<Bucket>,
    all: Ghost<Seq<RuleView>>,
}

impl View for RuleStore {
    type V = Seq<RuleView>;

    closed spec fn view(&self) -> Seq<RuleView> {
        self.all@
    }
}

impl RuleStore {
    /// Every stored rule is well-formed, correctly indexed and part of
    /// the model, and every rule of the model is stored.
    #[verifier::type_invariant]
    closed spec fn wf(self) -> bool {
        vecs_wf(self.fallback@, self.buckets@, self.all@) && (forall|j: int|
            0 <= j < self.all@.len() ==> vecs_has(
                self.fallback@,
                self.buckets@,
                #[trigger] self.all@[j],
            ))
    }

    /// Build the index from the parsed rules: each rule goes to the
    /// bucket of its index token, or to the fallback list when it has
    /// none.
    pub fn build(rules: Vec<Rule>) -> (s: RuleStore)
        requires
            forall|i: int| 0 <= i < rules@.len() ==> rule_wf((#[trigger] rules@[i])@),
        ensures
            s@ == rule_views(rules@),
    {
        let ghost orig = rules@;
        let mut rules = rules;
        let mut fallback: Vec<Rule> = Vec::new();
        let mut buckets: Vec<Bucket> = Vec::new();
        proof {
            assert(rules@ =~= orig.take(rules@.len() as int));
        }
        while rules.len() > 0
            invariant
                rules@ == orig.take(rules@.len() as int),
                rules@.len() <= orig.len(),
                forall|i: int| 0 <= i < orig.len() ==> rule_wf((#[trigger] orig[i])@),
                vecs_wf(fallback@, buckets@, rule_views(orig).skip(rules@.len() as int)),
                forall|j: int|
                    rules@.len() <= j < orig.len() ==> vecs_has(
                        fallback@,
                        buckets@,
                        #[trigger] rule_views(orig)[j],
                    ),
            decreases rules@.len(),
        {
            let ghost m = rules@.len() as int;
            let last = rules.len() - 1;
            let r = rules.remove(last);
            let ghost rv = r@;
            let ghost done0 = rule_views(orig).skip(m);
            let ghost done1 = rule_views(orig).skip(m - 1);
            proof {
                assert(orig.take(m).remove(m - 1) =~= orig.take(m - 1));
                assert(orig.take(m)[m - 1] == orig[m - 1]);
                assert(rule_views(orig)[m - 1] == rv);
                assert(rule_wf(rv));
                assert(done1 =~= seq![rv] + done0);
                assert(done1[0] == rv);
                assert forall|x: RuleView| done0.contains(x) implies done1.contains(x) by {
                    let ci = choose|ci: int| 0 <= ci < done0.len() && done0[ci] == x;
                    assert(done1[ci + 1] == x);
                }
            }
            if r.index_token.len() == 0 {
                let ghost fb0 = fallback@;
                fallback.push(r);
                proof {
                    let fb1 = fallback@;
                    assert(fb1[fb0.len() as int]@ == rv);
                    assert forall|x: RuleView| vecs_has(fb0, buckets@, x) || x == rv implies
                        vecs_has(fb1, buckets@, x) by {
                        if x == rv {
                            assert(fb1[fb0.len() as int]@ == x);
                        } else if exists|i: int| 0 <= i < fb0.len() && (#[trigger] fb0[i])@ == x {
                            let i = choose|i: int| 0 <= i < fb0.len() && (#[trigger] fb0[i])@ == x;
                            assert(fb1[i]@ == x);
                        }
                    }
                    assert forall|j: int| rules@.len() <= j < orig.len() implies vecs_has(
                        fb1,
                        buckets@,
                        #[trigger] rule_views(orig)[j],
                    ) by {
                        if j == m - 1 {
                            assert(vecs_has(fb1, buckets@, rv));
                        } else {
                            assert(vecs_has(fb0, buckets@, rule_views(orig)[j]));
                        }
                    }
                    assert(vecs_wf(fb1, buckets@, done1));
                }
            } else {
                let nb = buckets.len();
                let mut bi: usize = 0;
                let mut idx: usize = nb;
                while bi < nb
                    invariant
                        0 <= bi <= nb,
                        nb == buckets@.len(),
                        idx <= nb,
                        idx < nb ==> buckets@[idx as int].token@ == r.index_token@,
                    decreases nb - bi,
                {
                    if idx == nb {
                        if bytes_eq(buckets[bi].token.as_slice(), r.index_token.as_slice()) {
                            idx = bi;
                        }
                    }
                    bi += 1;
                }
                let ghost bs0 = buckets@;
                let ghost fbv = fallback@;
                if idx < nb {
                    let mut bu = buckets.swap_remove(idx);
                    let ghost bs1 = buckets@;
                    let ghost brules0 = bu.rules@;
                    let ghost btok = bu.token@;
                    bu.rules.push(r);
                    buckets.push(bu);
                    proof {
                        let bs2 = buckets@;
                        let nl = bs2.len() - 1;
                        assert(bs2[nl].token@ == btok);
                        assert(btok == rv.index_token);
                        assert(bs2[nl].rules@ =~= brules0.push(bs2[nl].rules@[brules0.len() as int]));
                        assert(bs2[nl].rules@[brules0.len() as int]@ == rv);
                        assert forall|x: RuleView| vecs_has(fbv, bs0, x) || x == rv implies
                            vecs_has(fbv, bs2, x) by {
                            if x == rv {
                                assert(bs2[nl].rules@[brules0.len() as int]@ == x);
                            } else if vecs_has(fbv, bs0, x) {
                                if exists|b0: int, i0: int|
                                    0 <= b0 < bs0.len() && 0 <= i0 < bs0[b0].rules@.len() && (
                                    #[trigger] bs0[b0].rules@[i0])@ == x {
                                    let (b0, i0) = choose|b0: int, i0: int|
                                        0 <= b0 < bs0.len() && 0 <= i0 < bs0[b0].rules@.len() && (
                                        #[trigger] bs0[b0].rules@[i0])@ == x;
                                    if b0 == idx {
                                        assert(bs2[nl].rules@[i0]@ == x);
                                    } else if b0 == bs0.len() - 1 {
                                        assert(bs1[idx as int] == bs0[b0]);
                                        assert(bs2[idx as int].rules@[i0]@ == x);
                                    } else {
                                        assert(bs1[b0] == bs0[b0]);
                                        assert(bs2[b0].rules@[i0]@ == x);
                                    }
                                }
                            }
                        }
                        assert forall|b2: int, i2: int|
                            0 <= b2 < bs2.len() && 0 <= i2 < bs2[b2].rules@.len() implies {
                            let x = (#[trigger] bs2[b2].rules@[i2])@;
                            rule_wf(x) && x.index_token == bs2[b2].token@ && x.index_token.len() > 0
                                && done1.contains(x)
                        } by {
                            if b2 == nl {
                                if i2 < brules0.len() {
                                    assert(bs2[b2].rules@[i2] == bs0[idx as int].rules@[i2]);
                                    assert(done0.contains(bs0[idx as int].rules@[i2]@));
                                } else {
                                    assert(bs2[b2].rules@[i2]@ == rv);
                                }
                            } else if b2 == idx && idx < bs0.len() - 1 {
                                assert(bs2[b2] == bs0[bs0.len() - 1]);
                                assert(done0.contains(bs0[bs0.len() - 1].rules@[i2]@));
                            } else {
                                assert(bs2[b2] == bs0[b2]);
                                assert(done0.contains(bs0[b2].rules@[i2]@));
                            }
                        }
                        assert forall|j: int| rules@.len() <= j < orig.len() implies vecs_has(
                            fbv,
                            bs2,
                            #[trigger] rule_views(orig)[j],
                        ) by {
                            if j == m - 1 {
                                assert(vecs_has(fbv, bs2, rv));
                            } else {
                                assert(vecs_has(fbv, bs0, rule_views(orig)[j]));
                            }
                        }
                        assert(vecs_wf(fbv, bs2, done1));
                    }
                } else {
                    let tok = copy_bytes(&r.index_token);
                    let mut v: Vec<Rule> = Vec::new();
                    v.push(r);
                    buckets.push(Bucket { token: tok, rules: v });
                    proof {
                        let bs2 = buckets@;
                        let nl = bs2.len() - 1;
                        assert(bs2[nl].rules@[0]@ == rv);
                        assert(bs2[nl].token@ == rv.index_token);
                        assert forall|x: RuleView| vecs_has(fbv, bs0, x) || x == rv implies
                            vecs_has(fbv, bs2, x) by {
                            if x == rv {
                                assert(bs2[nl].rules@[0]@ == x);
                            } else if vecs_has(fbv, bs0, x) {
                                if exists|b0: int, i0: int|
                                    0 <= b0 < bs0.len() && 0 <= i0 < bs0[b0].rules@.len() && (
                                    #[trigger] bs0[b0].rules@[i0])@ == x {
                                    let (b0, i0) = choose|b0: int, i0: int|
                                        0 <= b0 < bs0.len() && 0 <= i0 < bs0[b0].rules@.len() && (
                                        #[trigger] bs0[b0].rules@[i0])@ == x;
                                    assert(bs2[b0].rules@[i0]@ == x);
                                }
                            }
                        }
                        assert forall|j: int| rules@.len() <= j < orig.len() implies vecs_has(
                            fbv,
                            bs2,
                            #[trigger] rule_views(orig)[j],
                        ) by {
                            if j == m - 1 {
                                assert(vecs_has(fbv, bs2, rv));
                            } else {
                                assert(vecs_has(fbv, bs0, rule_views(orig)[j]));
                            }
                        }
                        assert forall|b2: int, i2: int|
                            0 <= b2 < bs2.len() && 0 <= i2 < bs2[b2].rules@.len() implies {
                            let x = (#[trigger] bs2[b2].rules@[i2])@;
                            rule_wf(x) && x.index_token == bs2[b2].token@ && x.index_token.len() > 0
                                && done1.contains(x)
                        } by {
                            if b2 == nl {
                                assert(bs2[b2].rules@[i2]@ == rv);
                            } else {
                                assert(bs2[b2] == bs0[b2]);
                                assert(done0.contains(bs0[b2].rules@[i2]@));
                            }
                        }
                        assert(vecs_wf(fbv, bs2, done1));
                    }
                }
            }
        }
        proof {
            assert(rule_views(orig).skip(0) =~= rule_views(orig));
        }
        RuleStore { fallback, buckets, all: Ghost(rule_views(orig)) }
    }

    /// Decide one request against the index: probe the fallback rules and
    /// every bucket whose token occurs in the URL, and apply exception
    /// precedence.  The verdict is exactly the one the full rule sequence
    /// defines.
    pub fn query(&self, url: &[u8], src: &[u8], rtype: &[u8]) -> (verdict: bool)
        ensures
            verdict == spec_verdict(self@, url@, src@, rtype@),
    {
        proof {
            use_type_invariant(self);
        }
        let mut blocked = false;
        let mut excepted = false;
        let nf = self.fallback.len();
        let mut i: usize = 0;
        while i < nf
            invariant
                0 <= i <= nf,
                nf == self.fallback@.len(),
                blocked == fb_hit(self.fallback@, i as int, url@, src@, rtype@, false),
                excepted == fb_hit(self.fallback@, i as int, url@, src@, rtype@, true),
            decreases nf - i,
        {
            let r = &self.fallback[i];
            if rule_match_exec(r, url, src, rtype) {
                if r.is_exception {
                    excepted = true;
                } else {
                    blocked = true;
                }
            }
            proof {
                assert(fb_hit(self.fallback@, i + 1, url@, src@, rtype@, false) == blocked) by {
                    if fb_hit(self.fallback@, i + 1, url@, src@, rtype@, false) {
                        let w = choose|w: int|
                            0 <= w < i + 1 && (#[trigger] self.fallback@[w])@.is_exception == false
                                && rule_matches(self.fallback@[w]@, url@, src@, rtype@);
                        assert(w == i || w < i);
                    }
                }
                assert(fb_hit(self.fallback@, i + 1, url@, src@, rtype@, true) == excepted) by {
                    if fb_hit(self.fallback@, i + 1, url@, src@, rtype@, true) {
                        let w = choose|w: int|
                            0 <= w < i + 1 && (#[trigger] self.fallback@[w])@.is_exception == true
                                && rule_matches(self.fallback@[w]@, url@, src@, rtype@);
                        assert(w == i || w < i);
                    }
                }
            }
            i += 1;
        }
        let nb = self.buckets.len();
        let mut b: usize = 0;
        while b < nb
            invariant
                0 <= b <= nb,
                nb == self.buckets@.len(),
                self.wf(),
                blocked == (fb_hit(self.fallback@, self.fallback@.len() as int, url@, src@, rtype@, false)
                    || bk_hit(self.buckets@, b as int, url@, src@, rtype@, false)),
                excepted == (fb_hit(self.fallback@, self.fallback@.len() as int, url@, src@, rtype@, true)
                    || bk_hit(self.buckets@, b as int, url@, src@, rtype@, true)),
            decreases nb - b,
        {
            let bkt = &self.buckets[b];
            if find_sub(bkt.token.as_slice(), url) {
                let nr = bkt.rules.len();
                let mut k: usize = 0;
                while k < nr
                    invariant
                        0 <= k <= nr,
                        0 <= b < nb,
                        nb == self.buckets@.len(),
                        nr == self.buckets@[b as int].rules@.len(),
                        self.wf(),
                        blocked == (fb_hit(self.fallback@, self.fallback@.len() as int, url@, src@, rtype@, false)
                            || bk_hit(self.buckets@, b as int, url@, src@, rtype@, false)
                            || one_hit(self.buckets@, b as int, k as int, url@, src@, rtype@, false)),
                        excepted == (fb_hit(self.fallback@, self.fallback@.len() as int, url@, src@, rtype@, true)
                            || bk_hit(self.buckets@, b as int, url@, src@, rtype@, true)
                            || one_hit(self.buckets@, b as int, k as int, url@, src@, rtype@, true)),
                    decreases nr - k,
                {
                    let r = &self.buckets[b].rules[k];
                    if rule_match_exec(r, url, src, rtype) {
                        if r.is_exception {
                            excepted = true;
                        } else {
                            blocked = true;
                        }
                    }
                    proof {
                        assert(one_hit(self.buckets@, b as int, k + 1, url@, src@, rtype@, false)
                            == (one_hit(self.buckets@, b as int, k as int, url@, src@, rtype@, false)
                            || ((self.buckets@[b as int].rules@[k as int])@.is_exception == false
                                && rule_matches(self.buckets@[b as int].rules@[k as int]@, url@, src@, rtype@)))) by {
                            if one_hit(self.buckets@, b as int, k + 1, url@, src@, rtype@, false) {
                                let w = choose|w: int|
                                    0 <= w < k + 1 && (#[trigger] self.buckets@[b as int].rules@[w])@.is_exception
                                        == false && rule_matches(self.buckets@[b as int].rules@[w]@, url@, src@, rtype@);
                                assert(w == k || w < k);
                            }
                        }
                        assert(one_hit(self.buckets@, b as int, k + 1, url@, src@, rtype@, true)
                            == (one_hit(self.buckets@, b as int, k as int, url@, src@, rtype@, true)
                            || ((self.buckets@[b as int].rules@[k as int])@.is_exception == true
                                && rule_matches(self.buckets@[b as int].rules@[k as int]@, url@, src@, rtype@)))) by {
                            if one_hit(self.buckets@, b as int, k + 1, url@, src@, rtype@, true) {
                                let w = choose|w: int|
                                    0 <= w < k + 1 && (#[trigger] self.buckets@[b as int].rules@[w])@.is_exception
                                        == true && rule_matches(self.buckets@[b as int].rules@[w]@, url@, src@, rtype@);
                                assert(w == k || w < k);
                            }
                        }
                    }
                    k += 1;
                }
                proof {
                    bucket_step(self.buckets@, b as int, url@, src@, rtype@, false);
                    bucket_step(self.buckets@, b as int, url@, src@, rtype@, true);
                }
            } else {
                proof {
                    assert forall|i2: int| 0 <= i2 < self.buckets@[b as int].rules@.len() implies
                        !rule_matches((self.buckets@[b as int].rules@[i2])@, url@, src@, rtype@) by {
                        let rv = (self.buckets@[b as int].rules@[i2])@;
                        if pattern_matches(rv.pattern, rv.anchor, url@) {
                            lemma_pattern_token_sub(rv.pattern, rv.anchor, url@);
                        }
                    }
                    bucket_step(self.buckets@, b as int, url@, src@, rtype@, false);
                    bucket_step(self.buckets@, b as int, url@, src@, rtype@, true);
                    assert(!one_hit(self.buckets@, b as int, self.buckets@[b as int].rules@.len() as int, url@, src@, rtype@, false));
                    assert(!one_hit(self.buckets@, b as int, self.buckets@[b as int].rules@.len() as int, url@, src@, rtype@, true));
                }
            }
            b += 1;
        }
        proof {
            let all = self.all@;
            let fb = self.fallback@;
            let bs = self.buckets@;
            assert forall|exc: bool|
                (fb_hit(fb, fb.len() as int, url@, src@, rtype@, exc) || bk_hit(bs, bs.len() as int, url@, src@, rtype@, exc))
                    == (exists|j: int|
                    0 <= j < all.len() && (#[trigger] all[j]).is_exception == exc && rule_matches(all[j], url@, src@, rtype@)) by {
                if fb_hit(fb, fb.len() as int, url@, src@, rtype@, exc) {
                    let w = choose|w: int|
                        0 <= w < fb.len() && (#[trigger] fb[w])@.is_exception == exc
                            && rule_matches(fb[w]@, url@, src@, rtype@);
                    let rv = fb[w]@;
                    assert(all.contains(rv));
                    let j = choose|j: int| 0 <= j < all.len() && all[j] == rv;
                    assert(all[j].is_exception == exc && rule_matches(all[j], url@, src@, rtype@));
                }
                if bk_hit(bs, bs.len() as int, url@, src@, rtype@, exc) {
                    let (b0, i0) = choose|b0: int, i0: int|
                        0 <= b0 < bs.len() && 0 <= i0 < bs[b0].rules@.len() && (#[trigger] bs[b0].rules@[i0])@.is_exception
                            == exc && rule_matches(bs[b0].rules@[i0]@, url@, src@, rtype@);
                    let rv = bs[b0].rules@[i0]@;
                    assert(all.contains(rv));
                    let j = choose|j: int| 0 <= j < all.len() && all[j] == rv;
                    assert(all[j].is_exception == exc && rule_matches(all[j], url@, src@, rtype@));
                }
                if exists|j: int|
                    0 <= j < all.len() && (#[trigger] all[j]).is_exception == exc && rule_matches(all[j], url@, src@, rtype@) {
                    let j = choose|j: int|
                        0 <= j < all.len() && (#[trigger] all[j]).is_exception == exc
                            && rule_matches(all[j], url@, src@, rtype@);
                    assert(vecs_has(fb, bs, all[j]));
                }
            }
        }
        blocked && !excepted
    }
}

/// Extending the probed buckets by one: a hit in the first `b + 1`
/// buckets is a hit in the first `b` or one in bucket `b` itself.
proof fn bucket_step(bs: Seq<Bucket>, b: int, url: Seq<u8>, src: Seq<u8>, t: Seq<u8>, exc: bool)
    requires
        0 <= b < bs.len(),
    ensures
        bk_hit(bs, b + 1, url, src, t, exc) == (bk_hit(bs, b, url, src, t, exc) || one_hit(
            bs,
            b,
            bs[b].rules@.len() as int,
            url,
            src,
            t,
            exc,
        )),
{
    if bk_hit(bs, b + 1, url, src, t, exc) {
        let (b0, i0) = choose|b0: int, i0: int|
            0 <= b0 < b + 1 && 0 <= i0 < bs[b0].rules@.len() && (#[trigger] bs[b0].rules@[i0])@.is_exception
                == exc && rule_matches(bs[b0].rules@[i0]@, url, src, t);
        assert(b0 == b || b0 < b);
    }
    if bk_hit(bs, b, url, src, t, exc) {
        let (b0, i0) = choose|b0: int, i0: int|
            0 <= b0 < b && 0 <= i0 < bs[b0].rules@.len() && (#[trigger] bs[b0].rules@[i0])@.is_exception
                == exc && rule_matches(bs[b0].rules@[i0]@, url, src, t);
        assert(bk_hit(bs, b + 1, url, src, t, exc));
    }
    if one_hit(bs, b, bs[b].rules@.len() as int, url, src, t, exc) {
        let i0 = choose|i0: int|
            0 <= i0 < bs[b].rules@.len() && (#[trigger] bs[b].rules@[i0])@.is_exception == exc
                && rule_matches(bs[b].rules@[i0]@, url, src, t);
        assert(bk_hit(bs, b + 1, url, src, t, exc));
    }
}

} // verus!

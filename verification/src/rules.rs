use vstd::prelude::*;

verus! {

use crate::pattern::Segment;
use crate::pattern::SegView;
use crate::pattern::seg_views;
use crate::pattern::segs_match;
use crate::pattern::segs_match_from;
use crate::pattern::token_of;
use crate::pattern::lit_of;
use crate::pattern::is_sub_of;
use crate::pattern::lemma_token_is_lit;
use crate::pattern::lemma_match_lit_is_sub;
use crate::pattern::lemma_sub_of_skip;
use crate::pattern::copy_bytes;
use crate::url::host_of;
use crate::url::host_start;
use crate::url::host_under;
use crate::url::domain_pos;
use crate::url::is_first_party;
use crate::url::scheme_dist_from;
use crate::url::first_party;
use crate::url::src_host_under;
use crate::url::bytes_eq;

/// Where in the URL a rule's pattern must match.
#[derive(Clone, Copy)]
pub enum Anchor {
    /// Anywhere in the URL.
    Unanchored,
    /// At the very start of the URL.
    Start,
    /// Right after the scheme, at a host-label boundary.
    Domain,
    /// Ending at the very end of the URL.
    End,
}

/// Which requests a rule applies to, by party.
#[derive(Clone, Copy)]
pub enum Party {
    Any,
    FirstPartyOnly,
    ThirdPartyOnly,
}

/// One entry of a rule's domain constraint: a domain, and whether sources
/// under it are allowed to trigger the rule or are explicitly denied.
pub struct DomainEntry {
    pub name: Vec<u8>,
    pub allowed: bool,
}

/// Mathematical model of a domain constraint entry.
pub struct DomView {
    pub name: Seq<u8>,
    pub allowed: bool,
}

impl View for DomainEntry {
    type V = DomView;

    open spec fn view(&self) -> DomView {
        DomView { name: self.name@, allowed: self.allowed }
    }
}

/// The models of a sequence of byte vectors.
pub open spec fn byte_views(vs: Seq<Vec<u8>>) -> Seq<Seq<u8>> {
    vs.map_values(|v: Vec<u8>| v@)
}

/// The models of a sequence of domain entries.
pub open spec fn dom_views(vs: Seq<DomainEntry>) -> Seq<DomView> {
    vs.map_values(|e: DomainEntry| e@)
}

/// One compiled filter rule.
pub struct Rule {
    pub pattern: Vec<Segment>,
    pub anchor: Anchor,
    pub is_exception: bool,
    pub domain_constraints: Vec<DomainEntry>,
    pub resource_types: Vec<Vec<u8>>,
    pub party_constraint: Party,
    pub index_token: Vec<u8>,
}

/// Mathematical model of a rule.
pub struct RuleView {
    pub pattern: Seq<SegView>,
    pub anchor: Anchor,
    pub is_exception: bool,
    pub domain_constraints: Seq<DomView>,
    pub resource_types: Seq<Seq<u8>>,
    pub party_constraint: Party,
    pub index_token: Seq<u8>,
}

impl View for Rule {
    type V = RuleView;

    open spec fn view(&self) -> RuleView {
        RuleView {
            pattern: seg_views(self.pattern@),
            anchor: self.anchor,
            is_exception: self.is_exception,
            domain_constraints: dom_views(self.domain_constraints@),
            resource_types: byte_views(self.resource_types@),
            party_constraint: self.party_constraint,
            index_token: self.index_token@,
        }
    }
}

/// A well-formed rule: its pattern is non-empty and its index token is
/// the one its pattern determines.
pub open spec fn rule_wf(r: RuleView) -> bool {
    r.pattern.len() > 0 && r.index_token == token_of(r.pattern)
}

/// The segments actually matched against the URL: unless the rule is
/// end-anchored, the pattern may be followed by anything.
pub open spec fn effective_segs(segs: Seq<SegView>, anchor: Anchor) -> Seq<SegView> {
    if anchor is End {
        segs
    } else {
        segs.push(SegView::Wild)
    }
}

/// Whether the pattern matches the URL `u` at a position its anchor
/// allows.
pub open spec fn pattern_matches(segs: Seq<SegView>, anchor: Anchor, u: Seq<u8>) -> bool {
    match anchor {
        Anchor::Start => segs_match(effective_segs(segs, anchor), u),
        Anchor::End => exists|p: int| 0 <= p <= u.len() && segs_match(segs, #[trigger] u.skip(p)),
        Anchor::Unanchored => exists|p: int|
            0 <= p <= u.len() && segs_match(effective_segs(segs, anchor), #[trigger] u.skip(p)),
        Anchor::Domain => exists|p: int|
            #[trigger] domain_pos(u, p) && segs_match(effective_segs(segs, anchor), u.skip(p)),
    }
}

/// A source host satisfies a domain entry when it can be extracted and
/// falls under the entry's domain.
pub open spec fn entry_matches(src: Seq<u8>, d: Seq<u8>) -> bool {
    match host_of(src) {
        Option::Some(h) => host_under(h, d),
        Option::None => false,
    }
}

/// The rule's domain constraint holds of the source URL: vacuously when
/// empty; otherwise the source must fall under no denied entry, and under
/// at least one allowed entry if any allowed entry exists.
pub open spec fn domains_ok(ds: Seq<DomView>, src: Seq<u8>) -> bool {
    ds.len() == 0 || {
        (forall|i: int|
            0 <= i < ds.len() && !(#[trigger] ds[i]).allowed ==> !entry_matches(src, ds[i].name))
            && ((exists|i: int| 0 <= i < ds.len() && (#[trigger] ds[i]).allowed) ==> exists|i: int|
            0 <= i < ds.len() && (#[trigger] ds[i]).allowed && entry_matches(src, ds[i].name))
    }
}

/// The rule's resource-type constraint holds of the request's type:
/// vacuously when empty, else by membership.
pub open spec fn rtype_ok(ts: Seq<Seq<u8>>, t: Seq<u8>) -> bool {
    ts.len() == 0 || exists|i: int| 0 <= i < ts.len() && #[trigger] ts[i] == t
}

/// The rule's party constraint holds of the request.
pub open spec fn party_ok(p: Party, u: Seq<u8>, src: Seq<u8>) -> bool {
    match p {
        Party::Any => true,
        Party::FirstPartyOnly => is_first_party(u, src),
        Party::ThirdPartyOnly => !is_first_party(u, src),
    }
}

/// The full predicate of one rule against one request.
pub open spec fn rule_matches(r: RuleView, url: Seq<u8>, src: Seq<u8>, rtype: Seq<u8>) -> bool {
    pattern_matches(r.pattern, r.anchor, url) && domains_ok(r.domain_constraints, src)
        && rtype_ok(r.resource_types, rtype) && party_ok(r.party_constraint, url, src)
}

/// The verdict over a rule set: blocked exactly when some block rule
/// matches and no exception rule matches.
pub open spec fn spec_verdict(rules: Seq<RuleView>, url: Seq<u8>, src: Seq<u8>, rtype: Seq<u8>) -> bool {
    (exists|i: int|
        0 <= i < rules.len() && !(#[trigger] rules[i]).is_exception && rule_matches(
            rules[i],
            url,
            src,
            rtype,
        )) && !(exists|i: int|
        0 <= i < rules.len() && (#[trigger] rules[i]).is_exception && rule_matches(
            rules[i],
            url,
            src,
            rtype,
        ))
}

/// Exception precedence: whenever a block rule and an exception rule of
/// the set both match a request, the verdict is not to block, whatever
/// the two rules' relative order.
pub proof fn lemma_exception_precedence(
    rules: Seq<RuleView>,
    b: int,
    e: int,
    url: Seq<u8>,
    src: Seq<u8>,
    rtype: Seq<u8>,
)
    requires
        0 <= b < rules.len(),
        0 <= e < rules.len(),
        !rules[b].is_exception,
        rules[e].is_exception,
        rule_matches(rules[b], url, src, rtype),
        rule_matches(rules[e], url, src, rtype),
    ensures
        !spec_verdict(rules, url, src, rtype),
{
}

/// A rule restricted to certain resource types never matches a request of
/// another type, whatever its URL pattern does.
pub proof fn lemma_resource_type_constraint(r: RuleView, url: Seq<u8>, src: Seq<u8>, rtype: Seq<u8>)
    requires
        r.resource_types.len() > 0,
        forall|i: int| 0 <= i < r.resource_types.len() ==> #[trigger] r.resource_types[i] != rtype,
    ensures
        !rule_matches(r, url, src, rtype),
{
}

/// A matching pattern embeds its non-empty index token verbatim in the
/// URL, so a rule whose token is absent from the URL cannot match.
pub proof fn lemma_pattern_token_sub(segs: Seq<SegView>, anchor: Anchor, u: Seq<u8>)
    requires
        pattern_matches(segs, anchor, u),
        token_of(segs).len() > 0,
    ensures
        is_sub_of(token_of(segs), u),
{
    lemma_token_is_lit(segs);
    let m = choose|m: int|
        0 <= m < segs.len() && segs[m] is Lit && lit_of(segs[m]) == token_of(segs);
    let eff = effective_segs(segs, anchor);
    assert(eff[m] == segs[m]);
    match anchor {
        Anchor::Start => {
            lemma_match_lit_is_sub(eff, u, m);
        },
        Anchor::End => {
            let p = choose|p: int| 0 <= p <= u.len() && segs_match(segs, #[trigger] u.skip(p));
            lemma_match_lit_is_sub(segs, u.skip(p), m);
            lemma_sub_of_skip(token_of(segs), u, p);
        },
        Anchor::Unanchored => {
            let p = choose|p: int|
                0 <= p <= u.len() && segs_match(effective_segs(segs, anchor), #[trigger] u.skip(p));
            lemma_match_lit_is_sub(eff, u.skip(p), m);
            lemma_sub_of_skip(token_of(segs), u, p);
        },
        Anchor::Domain => {
            let p = choose|p: int|
                #[trigger] domain_pos(u, p) && segs_match(effective_segs(segs, anchor), u.skip(p));
            lemma_match_lit_is_sub(eff, u.skip(p), m);
            lemma_sub_of_skip(token_of(segs), u, p);
        },
    }
}

/// The segments matched against the URL, as executable data.
fn effective_vec(pattern: &Vec<Segment>, anchor: Anchor) -> (v: Vec<Segment>)
    ensures
        seg_views(v@) == effective_segs(seg_views(pattern@), anchor),
{
    let n = pattern.len();
    let mut v: Vec<Segment> = Vec::new();
    let mut k: usize = 0;
    while k < n
        invariant
            0 <= k <= n,
            n == pattern@.len(),
            v@.len() == k,
            forall|q: int| 0 <= q < k ==> v@[q]@ == pattern@[q]@,
        decreases n - k,
    {
        let s = match &pattern[k] {
            Segment::Lit(l) => Segment::Lit(copy_bytes(l)),
            Segment::Wild => Segment::Wild,
            Segment::Sep => Segment::Sep,
        };
        proof {
            assert(s@ == pattern@[k as int]@);
        }
        v.push(s);
        k += 1;
    }
    match anchor {
        Anchor::End => {
            proof {
                assert(seg_views(v@) =~= seg_views(pattern@));
            }
            v
        },
        _ => {
            v.push(Segment::Wild);
            proof {
                assert(seg_views(v@) =~= seg_views(pattern@).push(SegView::Wild));
            }
            v
        },
    }
}

/// Whether the pattern matches the URL under the anchor; mirrors
/// `pattern_matches`.
pub fn pattern_match_exec(pattern: &Vec<Segment>, anchor: Anchor, u: &[u8]) -> (r: bool)
    ensures
        r == pattern_matches(seg_views(pattern@), anchor, u@),
{
    let eff = effective_vec(pattern, anchor);
    let ghost eff_v = seg_views(eff@);
    let u_len = u.len();
    match anchor {
        Anchor::Start => {
            let r = segs_match_from(&eff, 0, u, 0);
            proof {
                assert(eff_v.skip(0) =~= eff_v);
                assert(u@.skip(0) =~= u@);
            }
            r
        },
        Anchor::End | Anchor::Unanchored => {
            let mut p: usize = 0;
            while p < u_len
                invariant
                    0 <= p <= u_len,
                    u_len == u@.len(),
                    eff_v == seg_views(eff@),
                    eff_v == effective_segs(seg_views(pattern@), anchor),
                    anchor is End || anchor is Unanchored,
                    forall|t: int| 0 <= t < p ==> !segs_match(eff_v, u@.skip(t)),
                decreases u_len - p,
            {
                if segs_match_from(&eff, 0, u, p) {
                    proof {
                        assert(eff_v.skip(0) =~= eff_v);
                    }
                    return true;
                }
                proof {
                    assert(eff_v.skip(0) =~= eff_v);
                }
                p += 1;
            }
            let r = segs_match_from(&eff, 0, u, u_len);
            proof {
                assert(eff_v.skip(0) =~= eff_v);
            }
            r
        },
        Anchor::Domain => {
            proof {
                assert(u@.skip(0) =~= u@);
            }
            let d = scheme_dist_from(u, 0);
            if u_len - d < 3 {
                proof {
                    assert(host_start(u@) is None);
                    assert(forall|p: int| !domain_pos(u@, p));
                }
                return false;
            }
            let hs = d + 3;
            proof {
                assert(host_start(u@) == Option::Some(hs as int));
                assert(domain_pos(u@, hs as int));
            }
            if segs_match_from(&eff, 0, u, hs) {
                proof {
                    assert(eff_v.skip(0) =~= eff_v);
                }
                return true;
            }
            proof {
                assert(eff_v.skip(0) =~= eff_v);
            }
            let mut c: usize = hs;
            while c < u_len
                invariant
                    hs <= c <= u_len,
                    u_len == u@.len(),
                    hs == d + 3,
                    d + 3 <= u@.len(),
                    host_start(u@) == Option::Some(hs as int),
                    eff_v == seg_views(eff@),
                    eff_v == effective_segs(seg_views(pattern@), anchor),
                    anchor is Domain,
                    forall|q: int| hs <= q < c ==> u@[q] != 47,
                    forall|pp: int|
                        hs <= pp <= c && domain_pos(u@, pp) ==> !segs_match(eff_v, u@.skip(pp)),
                decreases u_len - c,
            {
                if u[c] == 47 {
                    proof {
                        assert forall|pp: int| domain_pos(u@, pp) implies !segs_match(
                            eff_v,
                            u@.skip(pp),
                        ) by {
                            if pp > c {
                                assert(u@[c as int] == 47);
                            }
                        }
                    }
                    return false;
                }
                if u[c] == 46 {
                    if segs_match_from(&eff, 0, u, c + 1) {
                        proof {
                            assert(eff_v.skip(0) =~= eff_v);
                            assert(domain_pos(u@, c + 1 as int));
                        }
                        return true;
                    }
                    proof {
                        assert(eff_v.skip(0) =~= eff_v);
                    }
                }
                c += 1;
            }
            proof {
                assert forall|pp: int| domain_pos(u@, pp) implies !segs_match(eff_v, u@.skip(pp))
                by {
                    assert(pp <= u@.len());
                }
            }
            false
        },
    }
}

/// The full predicate of one rule against one request; mirrors
/// `rule_matches`.
pub fn rule_match_exec(r: &Rule, url: &[u8], src: &[u8], rtype: &[u8]) -> (b: bool)
    ensures
        b == rule_matches(r@, url@, src@, rtype@),
{
    if !pattern_match_exec(&r.pattern, r.anchor, url) {
        return false;
    }
    let ghost ds = dom_views(r.domain_constraints@);
    let nd = r.domain_constraints.len();
    if nd > 0 {
        let mut k: usize = 0;
        let mut any_allowed = false;
        let mut allowed_hit = false;
        while k < nd
            invariant
                0 <= k <= nd,
                nd == r.domain_constraints@.len(),
                ds == dom_views(r.domain_constraints@),
                any_allowed == (exists|i: int| 0 <= i < k && (#[trigger] ds[i]).allowed),
                allowed_hit == (exists|i: int|
                    0 <= i < k && (#[trigger] ds[i]).allowed && entry_matches(src@, ds[i].name)),
                forall|i: int|
                    0 <= i < k && !(#[trigger] ds[i]).allowed ==> !entry_matches(src@, ds[i].name),
            decreases nd - k,
        {
            let e = &r.domain_constraints[k];
            let hit = src_host_under(src, e.name.as_slice());
            proof {
                assert(ds[k as int] == e@);
                assert(entry_matches(src@, ds[k as int].name) == hit);
            }
            if e.allowed {
                any_allowed = true;
                if hit {
                    allowed_hit = true;
                }
            } else {
                if hit {
                    return false;
                }
            }
            k += 1;
        }
        if any_allowed && !allowed_hit {
            return false;
        }
        proof {
            assert(domains_ok(ds, src@));
        }
    }
    let ghost ts = byte_views(r.resource_types@);
    let nt = r.resource_types.len();
    if nt > 0 {
        let mut k: usize = 0;
        let mut found = false;
        while k < nt
            invariant
                0 <= k <= nt,
                nt == r.resource_types@.len(),
                ts == byte_views(r.resource_types@),
                found == (exists|i: int| 0 <= i < k && #[trigger] ts[i] == rtype@),
            decreases nt - k,
        {
            if bytes_eq(r.resource_types[k].as_slice(), rtype) {
                proof {
                    assert(ts[k as int] == rtype@);
                }
                found = true;
            }
            k += 1;
        }
        if !found {
            return false;
        }
    }
    match r.party_constraint {
        Party::Any => true,
        Party::FirstPartyOnly => first_party(url, src),
        Party::ThirdPartyOnly => !first_party(url, src),
    }
}

} // verus!

use vstd::prelude::*;

verus! {

use vstd::string::StringSliceAdditionalSpecFns;
use vstd::slice::slice_subrange;
use crate::pattern::Segment;
use crate::pattern::SegView;
use crate::pattern::seg_views;
use crate::pattern::token_of;
use crate::pattern::token_from;
use crate::rules::Anchor;
use crate::rules::Party;
use crate::rules::DomainEntry;
use crate::rules::DomView;
use crate::rules::Rule;
use crate::rules::RuleView;
use crate::rules::byte_views;
use crate::rules::dom_views;
use crate::rules::rule_wf;
use crate::url::rfind;
use crate::url::rfind_upto;
use crate::url::bytes_eq;

/// Whitespace trimmed from both ends of a rule line.
pub open spec fn is_space(b: u8) -> bool {
    b == 32 || b == 9 || b == 13
}

fn is_space_exec(b: u8) -> (r: bool)
    ensures
        r == is_space(b),
{
    b == 32 || b == 9 || b == 13
}

/// The line with leading and trailing whitespace removed.
pub open spec fn trim_of(s: Seq<u8>) -> Seq<u8>
    decreases s.len(),
{
    if s.len() == 0 {
        s
    } else if is_space(s[0]) {
        trim_of(s.drop_first())
    } else if is_space(s.last()) {
        trim_of(s.drop_last())
    } else {
        s
    }
}

/// Trim whitespace from both ends, per `trim_of`.
pub fn trim_slice<'a>(s: &'a [u8]) -> (t: &'a [u8])
    ensures
        t@ == trim_of(s@),
{
    let mut a: usize = 0;
    let mut b: usize = s.len();
    proof {
        assert(s@.subrange(0, s@.len() as int) =~= s@);
    }
    while a < b && is_space_exec(s[a])
        invariant
            0 <= a <= b <= s@.len(),
            trim_of(s@) == trim_of(s@.subrange(a as int, b as int)),
        decreases b - a,
    {
        proof {
            assert(s@.subrange(a as int, b as int).drop_first() =~= s@.subrange(
                a + 1 as int,
                b as int,
            ));
        }
        a += 1;
    }
    while a < b && is_space_exec(s[b - 1])
        invariant
            0 <= a <= b <= s@.len(),
            trim_of(s@) == trim_of(s@.subrange(a as int, b as int)),
            a == b || !is_space(s@[a as int]),
        decreases b - a,
    {
        proof {
            assert(s@.subrange(a as int, b as int).drop_last() =~= s@.subrange(
                a as int,
                b - 1 as int,
            ));
        }
        b -= 1;
    }
    let t = slice_subrange(s, a, b);
    t
}

/// Length of the longest prefix of `s` free of the byte `sep`.
pub open spec fn dist_to(s: Seq<u8>, sep: u8) -> nat
    decreases s.len(),
{
    if s.len() == 0 {
        0
    } else if s[0] == sep {
        0
    } else {
        1 + dist_to(s.drop_first(), sep)
    }
}

proof fn lemma_dist_to_val(s: Seq<u8>, sep: u8, n: int)
    requires
        0 <= n <= s.len(),
        forall|q: int| 0 <= q < n ==> s[q] != sep,
        n == s.len() || s[n] == sep,
    ensures
        dist_to(s, sep) == n,
    decreases n,
{
    if n > 0 {
        lemma_dist_to_val(s.drop_first(), sep, n - 1);
    }
}

/// The pieces of `s` between occurrences of `sep`; one piece more than
/// there are separators, in order, separators removed.
pub open spec fn split_on(s: Seq<u8>, sep: u8) -> Seq<Seq<u8>>
    decreases s.len(),
{
    let n = dist_to(s, sep);
    if n >= s.len() {
        seq![s]
    } else {
        seq![s.take(n as int)] + split_on(s.skip(n + 1 as int), sep)
    }
}

/// Copy of the bytes of `s` from `a` to `b`.
pub fn sub_bytes(s: &[u8], a: usize, b: usize) -> (r: Vec<u8>)
    requires
        0 <= a <= b <= s@.len(),
    ensures
        r@ == s@.subrange(a as int, b as int),
{
    let piece = slice_subrange(s, a, b);
    vstd::slice::slice_to_vec(piece)
}

/// Split the suffix of `s` that starts at `i` on the byte `sep`, per
/// `split_on`.
pub fn split_from(s: &[u8], sep: u8, i: usize) -> (parts: Vec<Vec<u8>>)
    requires
        i <= s@.len(),
    ensures
        byte_views(parts@) == split_on(s@.skip(i as int), sep),
    decreases s@.len() - i,
{
    let s_len = s.len();
    let mut j: usize = i;
    while j < s_len && s[j] != sep
        invariant
            i <= j <= s_len,
            s_len == s@.len(),
            forall|q: int| i <= q < j ==> s@[q] != sep,
        decreases s_len - j,
    {
        j += 1;
    }
    let ghost suf = s@.skip(i as int);
    proof {
        assert forall|q: int| 0 <= q < j - i implies suf[q] != sep by {
            assert(suf[q] == s@[i + q]);
        }
        lemma_dist_to_val(suf, sep, j - i);
    }
    let piece = sub_bytes(s, i, j);
    proof {
        assert(piece@ =~= suf.take(j - i));
    }
    if j == s_len {
        let mut parts: Vec<Vec<u8>> = Vec::new();
        parts.push(piece);
        proof {
            assert(suf.take(j - i) =~= suf);
            assert(byte_views(parts@) =~= seq![suf]);
        }
        parts
    } else {
        let mut parts = split_from(s, sep, j + 1);
        let ghost tail_views = byte_views(parts@);
        parts.insert(0, piece);
        proof {
            assert(suf.skip((j - i) + 1) =~= s@.skip(j + 1));
            assert(byte_views(parts@) =~= seq![suf.take(j - i)] + tail_views);
        }
        parts
    }
}

/// A line holds a cosmetic-filter marker (`#` followed by `# @ ? $`),
/// which is not a network rule.
pub open spec fn has_cosmetic(l: Seq<u8>) -> bool {
    exists|i: int|
        0 <= i && i + 2 <= l.len() && #[trigger] l[i] == 35 && (l[i + 1] == 35 || l[i + 1] == 64
            || l[i + 1] == 63 || l[i + 1] == 36)
}

fn has_cosmetic_exec(l: &[u8]) -> (r: bool)
    ensures
        r == has_cosmetic(l@),
{
    let n = l.len();
    if n < 2 {
        return false;
    }
    let mut k: usize = 0;
    while k < n - 1
        invariant
            0 <= k <= n - 1,
            n == l@.len(),
            n >= 2,
            forall|i: int|
                0 <= i < k ==> !(#[trigger] l@[i] == 35 && (l@[i + 1] == 35 || l@[i + 1] == 64
                    || l@[i + 1] == 63 || l@[i + 1] == 36)),
        decreases n - k,
    {
        if l[k] == 35 {
            let nxt = l[k + 1];
            if nxt == 35 || nxt == 64 || nxt == 63 || nxt == 36 {
                return true;
            }
        }
        k += 1;
    }
    false
}

/// Length of the longest literal prefix of a pattern body: bytes up to
/// the first `*` or `^`.
pub open spec fn lit_len(p: Seq<u8>) -> nat
    decreases p.len(),
{
    if p.len() == 0 || p[0] == 42 || p[0] == 94 {
        0
    } else {
        1 + lit_len(p.drop_first())
    }
}

proof fn lemma_lit_len_val(p: Seq<u8>, n: int)
    requires
        0 <= n <= p.len(),
        forall|q: int| 0 <= q < n ==> p[q] != 42 && p[q] != 94,
        n == p.len() || p[n] == 42 || p[n] == 94,
    ensures
        lit_len(p) == n,
    decreases n,
{
    if n > 0 {
        lemma_lit_len_val(p.drop_first(), n - 1);
    }
}

/// The pattern body as segments: `*` becomes a wildcard, `^` a separator
/// mark, and maximal runs of other bytes become literals.
pub open spec fn tokenize(p: Seq<u8>) -> Seq<SegView>
    decreases p.len(),
{
    if p.len() == 0 {
        Seq::empty()
    } else if p[0] == 42 {
        seq![SegView::Wild] + tokenize(p.drop_first())
    } else if p[0] == 94 {
        seq![SegView::Sep] + tokenize(p.drop_first())
    } else {
        let n0 = lit_len(p);
        let n: int = if n0 >= p.len() {
            p.len() as int
        } else {
            n0 as int
        };
        seq![SegView::Lit(p.take(n))] + tokenize(p.skip(n))
    }
}

/// Tokenize the suffix of `p` that starts at `i`, per `tokenize`.
pub fn tokenize_from(p: &[u8], i: usize) -> (segs: Vec<Segment>)
    requires
        i <= p@.len(),
    ensures
        seg_views(segs@) == tokenize(p@.skip(i as int)),
    decreases p@.len() - i,
{
    let p_len = p.len();
    let ghost suf = p@.skip(i as int);
    if i == p_len {
        let segs: Vec<Segment> = Vec::new();
        proof {
            assert(seg_views(segs@) =~= tokenize(suf));
        }
        return segs;
    }
    if p[i] == 42 || p[i] == 94 {
        let head = if p[i] == 42 {
            Segment::Wild
        } else {
            Segment::Sep
        };
        let mut segs = tokenize_from(p, i + 1);
        let ghost tail_views = seg_views(segs@);
        segs.insert(0, head);
        proof {
            assert(suf.drop_first() =~= p@.skip(i + 1));
            assert(seg_views(segs@) =~= seq![head@] + tail_views);
        }
        segs
    } else {
        let mut j: usize = i;
        while j < p_len && p[j] != 42 && p[j] != 94
            invariant
                i <= j <= p_len,
                p_len == p@.len(),
                i < p_len,
                !(p@[i as int] == 42) && !(p@[i as int] == 94),
                forall|q: int| i <= q < j ==> p@[q] != 42 && p@[q] != 94,
            decreases p_len - j,
        {
            j += 1;
        }
        proof {
            assert forall|q: int| 0 <= q < j - i implies suf[q] != 42 && suf[q] != 94 by {
                assert(suf[q] == p@[i + q]);
            }
            lemma_lit_len_val(suf, j - i);
        }
        let lit = sub_bytes(p, i, j);
        let mut segs = tokenize_from(p, j);
        let ghost tail_views = seg_views(segs@);
        segs.insert(0, Segment::Lit(lit));
        proof {
            assert(lit@ =~= suf.take(j - i));
            assert(suf.skip(j - i) =~= p@.skip(j as int));
            assert(seg_views(segs@) =~= seq![SegView::Lit(suf.take(j - i))] + tail_views);
        }
        segs
    }
}

/// One parsed rule option.
pub enum OptParsed {
    /// A resource-type tag, kept as written.
    TypeTag(Seq<u8>),
    /// A first-/third-party restriction.
    PartyTag(Party),
    /// A domain constraint list.
    DomainTag(Seq<DomView>),
    /// Anything else: the whole rule is rejected.
    Unknown,
}

/// The recognized resource-type tags.
pub open spec fn is_type_kw(e: Seq<u8>) -> bool {
    e == "script".spec_bytes() || e == "image".spec_bytes() || e == "stylesheet".spec_bytes()
        || e == "object".spec_bytes() || e == "document".spec_bytes()
        || e == "subdocument".spec_bytes() || e == "xmlhttprequest".spec_bytes()
        || e == "xhr".spec_bytes() || e == "font".spec_bytes() || e == "media".spec_bytes()
        || e == "websocket".spec_bytes() || e == "ping".spec_bytes() || e == "other".spec_bytes()
}

/// Parse one `|`-separated domain list entry sequence; `None` when any
/// entry is empty or a bare `~`.
pub open spec fn parse_domains(parts: Seq<Seq<u8>>) -> Option<Seq<DomView>>
    decreases parts.len(),
{
    if parts.len() == 0 {
        Option::Some(Seq::empty())
    } else {
        let p = parts[0];
        let entry: Option<DomView> = if p.len() > 0 && p[0] == 126 {
            if p.len() == 1 {
                Option::None
            } else {
                Option::Some(DomView { name: p.skip(1), allowed: false })
            }
        } else if p.len() > 0 {
            Option::Some(DomView { name: p, allowed: true })
        } else {
            Option::None
        };
        match (entry, parse_domains(parts.drop_first())) {
            (Option::Some(e0), Option::Some(rest)) => Option::Some(seq![e0] + rest),
            _ => Option::None,
        }
    }
}

/// Parse the domain entries from index `k` on, per `parse_domains`.
fn parse_domains_from(parts: &Vec<Vec<u8>>, k: usize) -> (r: Option<Vec<DomainEntry>>)
    requires
        k <= parts@.len(),
    ensures
        match r {
            Option::Some(es) => parse_domains(byte_views(parts@).skip(k as int)) == Option::Some(
                dom_views(es@),
            ),
            Option::None => parse_domains(byte_views(parts@).skip(k as int)) is None,
        },
    decreases parts@.len() - k,
{
    let ghost suf = byte_views(parts@).skip(k as int);
    if k == parts.len() {
        let es: Vec<DomainEntry> = Vec::new();
        proof {
            assert(dom_views(es@) =~= Seq::<DomView>::empty());
        }
        return Option::Some(es);
    }
    proof {
        assert(suf[0] == parts@[k as int]@);
        assert(suf.drop_first() =~= byte_views(parts@).skip(k + 1 as int));
    }
    let p = &parts[k];
    let pn = p.len();
    let entry: Option<DomainEntry> = if pn > 0 && p[0] == 126 {
        if pn == 1 {
            Option::None
        } else {
            let name = sub_bytes(p.as_slice(), 1, pn);
            proof {
                assert(name@ =~= p@.skip(1));
            }
            Option::Some(DomainEntry { name, allowed: false })
        }
    } else if pn > 0 {
        Option::Some(DomainEntry { name: crate::pattern::copy_bytes(p), allowed: true })
    } else {
        Option::None
    };
    match entry {
        Option::None => Option::None,
        Option::Some(e0) => {
            match parse_domains_from(parts, k + 1) {
                Option::None => Option::None,
                Option::Some(mut rest) => {
                    let ghost tail_views = dom_views(rest@);
                    let ghost e0v = e0@;
                    rest.insert(0, e0);
                    proof {
                        assert(dom_views(rest@) =~= seq![e0v] + tail_views);
                    }
                    Option::Some(rest)
                },
            }
        },
    }
}

/// Parse one comma-separated option entry.
pub open spec fn parse_opt(e: Seq<u8>) -> OptParsed {
    if e == "third-party".spec_bytes() || e == "3p".spec_bytes() {
        OptParsed::PartyTag(Party::ThirdPartyOnly)
    } else if e == "~third-party".spec_bytes() || e == "first-party".spec_bytes() || e
        == "1p".spec_bytes() {
        OptParsed::PartyTag(Party::FirstPartyOnly)
    } else if e == "~first-party".spec_bytes() {
        OptParsed::PartyTag(Party::ThirdPartyOnly)
    } else if is_type_kw(e) {
        OptParsed::TypeTag(e)
    } else {
        let d = "domain=".spec_bytes();
        if d.len() <= e.len() && e.take(d.len() as int) == d {
            match parse_domains(split_on(e.skip(d.len() as int), 124)) {
                Option::Some(ds) => OptParsed::DomainTag(ds),
                Option::None => OptParsed::Unknown,
            }
        } else {
            OptParsed::Unknown
        }
    }
}

/// Executable counterpart of `OptParsed`.
pub enum OptParsedExec {
    TypeTag(Vec<u8>),
    PartyTag(Party),
    DomainTag(Vec<DomainEntry>),
    Unknown,
}

impl View for OptParsedExec {
    type V = OptParsed;

    open spec fn view(&self) -> OptParsed {
        match self {
            OptParsedExec::TypeTag(t) => OptParsed::TypeTag(t@),
            OptParsedExec::PartyTag(p) => OptParsed::PartyTag(*p),
            OptParsedExec::DomainTag(ds) => OptParsed::DomainTag(dom_views(ds@)),
            OptParsedExec::Unknown => OptParsed::Unknown,
        }
    }
}

fn is_type_kw_exec(e: &[u8]) -> (r: bool)
    ensures
        r == is_type_kw(e@),
{
    bytes_eq(e, "script".as_bytes()) || bytes_eq(e, "image".as_bytes()) || bytes_eq(
        e,
        "stylesheet".as_bytes(),
    ) || bytes_eq(e, "object".as_bytes()) || bytes_eq(e, "document".as_bytes()) || bytes_eq(
        e,
        "subdocument".as_bytes(),
    ) || bytes_eq(e, "xmlhttprequest".as_bytes()) || bytes_eq(e, "xhr".as_bytes()) || bytes_eq(
        e,
        "font".as_bytes(),
    ) || bytes_eq(e, "media".as_bytes()) || bytes_eq(e, "websocket".as_bytes()) || bytes_eq(
        e,
        "ping".as_bytes(),
    ) || bytes_eq(e, "other".as_bytes())
}

/// Parse one option entry, per `parse_opt`.
fn parse_opt_exec(e: &[u8]) -> (r: OptParsedExec)
    ensures
        r@ == parse_opt(e@),
{
    if bytes_eq(e, "third-party".as_bytes()) || bytes_eq(e, "3p".as_bytes()) {
        return OptParsedExec::PartyTag(Party::ThirdPartyOnly);
    }
    if bytes_eq(e, "~third-party".as_bytes()) || bytes_eq(e, "first-party".as_bytes()) || bytes_eq(
        e,
        "1p".as_bytes(),
    ) {
        return OptParsedExec::PartyTag(Party::FirstPartyOnly);
    }
    if bytes_eq(e, "~first-party".as_bytes()) {
        return OptParsedExec::PartyTag(Party::ThirdPartyOnly);
    }
    if is_type_kw_exec(e) {
        return OptParsedExec::TypeTag(vstd::slice::slice_to_vec(e));
    }
    let dk = "domain=".as_bytes();
    if dk.len() <= e.len() {
        let pre = slice_subrange(e, 0, dk.len());
        proof {
            assert(pre@ =~= e@.take(dk@.len() as int));
        }
        if bytes_eq(pre, dk) {
            let rest = slice_subrange(e, dk.len(), e.len());
            proof {
                assert(rest@ =~= e@.skip(dk@.len() as int));
                assert(rest@.skip(0) =~= rest@);
            }
            let parts = split_from(rest, 124, 0);
            proof {
                assert(byte_views(parts@).skip(0) =~= byte_views(parts@));
            }
            match parse_domains_from(&parts, 0) {
                Option::Some(ds) => {
                    return OptParsedExec::DomainTag(ds);
                },
                Option::None => {
                    return OptParsedExec::Unknown;
                },
            }
        }
    }
    OptParsedExec::Unknown
}

/// Accumulated result of parsing a rule's option list.
pub struct OptAcc {
    pub resource_types: Seq<Seq<u8>>,
    pub party_constraint: Party,
    pub domain_constraints: Seq<DomView>,
}

/// The empty option accumulator: no restrictions.
pub open spec fn opt_acc0() -> OptAcc {
    OptAcc {
        resource_types: Seq::empty(),
        party_constraint: Party::Any,
        domain_constraints: Seq::empty(),
    }
}

/// Fold the option entries into an accumulator; `None` as soon as one
/// entry is unknown (the whole rule is then rejected, fail-closed).
pub open spec fn fold_opts(entries: Seq<Seq<u8>>, acc: OptAcc) -> Option<OptAcc>
    decreases entries.len(),
{
    if entries.len() == 0 {
        Option::Some(acc)
    } else {
        match parse_opt(entries[0]) {
            OptParsed::Unknown => Option::None,
            OptParsed::TypeTag(t) => fold_opts(
                entries.drop_first(),
                OptAcc { resource_types: acc.resource_types.push(t), ..acc },
            ),
            OptParsed::PartyTag(p) => fold_opts(
                entries.drop_first(),
                OptAcc { party_constraint: p, ..acc },
            ),
            OptParsed::DomainTag(ds) => fold_opts(
                entries.drop_first(),
                OptAcc { domain_constraints: acc.domain_constraints + ds, ..acc },
            ),
        }
    }
}

/// Fold the option entries, per `fold_opts` started on the empty
/// accumulator.
fn fold_opts_exec(entries: &Vec<Vec<u8>>) -> (r: Option<(Vec<Vec<u8>>, Party, Vec<DomainEntry>)>)
    ensures
        match r {
            Option::Some(acc) => fold_opts(byte_views(entries@), opt_acc0()) == Option::Some(
                OptAcc {
                    resource_types: byte_views(acc.0@),
                    party_constraint: acc.1,
                    domain_constraints: dom_views(acc.2@),
                },
            ),
            Option::None => fold_opts(byte_views(entries@), opt_acc0()) is None,
        },
{
    let n = entries.len();
    let mut types: Vec<Vec<u8>> = Vec::new();
    let mut party = Party::Any;
    let mut doms: Vec<DomainEntry> = Vec::new();
    let mut k: usize = 0;
    proof {
        assert(byte_views(entries@).skip(0) =~= byte_views(entries@));
        assert(byte_views(types@) =~= Seq::<Seq<u8>>::empty());
        assert(dom_views(doms@) =~= Seq::<DomView>::empty());
    }
    while k < n
        invariant
            0 <= k <= n,
            n == entries@.len(),
            fold_opts(byte_views(entries@), opt_acc0()) == fold_opts(
                byte_views(entries@).skip(k as int),
                OptAcc {
                    resource_types: byte_views(types@),
                    party_constraint: party,
                    domain_constraints: dom_views(doms@),
                },
            ),
        decreases n - k,
    {
        let ghost suf = byte_views(entries@).skip(k as int);
        proof {
            assert(suf[0] == entries@[k as int]@);
            assert(suf.drop_first() =~= byte_views(entries@).skip(k + 1 as int));
        }
        match parse_opt_exec(entries[k].as_slice()) {
            OptParsedExec::Unknown => {
                return Option::None;
            },
            OptParsedExec::TypeTag(t) => {
                let ghost tv = t@;
                let ghost types0 = byte_views(types@);
                types.push(t);
                proof {
                    assert(byte_views(types@) =~= types0.push(tv));
                }
            },
            OptParsedExec::PartyTag(p) => {
                party = p;
            },
            OptParsedExec::DomainTag(mut ds) => {
                let ghost dv = dom_views(ds@);
                let ghost dv0 = dom_views(doms@);
                doms.append(&mut ds);
                proof {
                    assert(dom_views(doms@) =~= dv0 + dv);
                }
            },
        }
        k += 1;
    }
    proof {
        assert(byte_views(entries@).skip(n as int) =~= Seq::<Seq<u8>>::empty());
    }
    Option::Some((types, party, doms))
}

/// Detect and strip the anchor marks of a pattern: leading `||` anchors
/// at a host-label boundary, a single leading `|` at the URL start, a
/// trailing `|` at the URL end.
pub open spec fn anchor_split(p: Seq<u8>) -> (Anchor, Seq<u8>) {
    if p.len() >= 2 && p[0] == 124 && p[1] == 124 {
        (Anchor::Domain, p.skip(2))
    } else if p.len() >= 1 && p[0] == 124 {
        (Anchor::Start, p.skip(1))
    } else if p.len() >= 1 && p[p.len() - 1] == 124 {
        (Anchor::End, p.take(p.len() - 1))
    } else {
        (Anchor::Unanchored, p)
    }
}

/// Parse one filter-list line into a rule.  Blank lines, comments
/// (`!` or `[`), cosmetic filters and lines with an unrecognized option
/// yield `None`.  A leading `@@` makes the rule an exception; otherwise
/// the rule's disposition is `exc_default`.  The part after the last `$`
/// is the option list; the rest is the pattern with its anchors.
pub open spec fn spec_parse_line(raw: Seq<u8>, exc_default: bool) -> Option<RuleView> {
    let line = trim_of(raw);
    if line.len() == 0 {
        Option::None
    } else if line[0] == 33 || line[0] == 91 {
        Option::None
    } else if has_cosmetic(line) {
        Option::None
    } else {
        let marked = line.len() >= 2 && line[0] == 64 && line[1] == 64;
        let exc = if marked {
            true
        } else {
            exc_default
        };
        let body = if marked {
            line.skip(2)
        } else {
            line
        };
        let dpos = rfind(body, 36);
        let pat_part = if dpos >= 0 {
            body.take(dpos)
        } else {
            body
        };
        let acc = if dpos >= 0 {
            fold_opts(split_on(body.skip(dpos + 1), 44), opt_acc0())
        } else {
            Option::Some(opt_acc0())
        };
        match acc {
            Option::None => Option::None,
            Option::Some(a) => {
                let ac = anchor_split(pat_part);
                let segs = tokenize(ac.1);
                if segs.len() == 0 {
                    Option::None
                } else {
                    Option::Some(
                        RuleView {
                            pattern: segs,
                            anchor: ac.0,
                            is_exception: exc,
                            domain_constraints: a.domain_constraints,
                            resource_types: a.resource_types,
                            party_constraint: a.party_constraint,
                            index_token: token_of(segs),
                        },
                    )
                }
            },
        }
    }
}

/// A rule that parsing produces is well-formed.
pub proof fn lemma_parsed_rule_wf(raw: Seq<u8>, exc_default: bool)
    ensures
        spec_parse_line(raw, exc_default) matches Option::Some(rv) ==> rule_wf(rv),
{
}

/// Parsing is deterministic: any two parses of the same line, under the
/// same options, produce the same result.
pub proof fn lemma_parse_deterministic(
    line: Seq<u8>,
    exc_default: bool,
    r1: Option<RuleView>,
    r2: Option<RuleView>,
)
    requires
        r1 == spec_parse_line(line, exc_default),
        r2 == spec_parse_line(line, exc_default),
    ensures
        r1 == r2,
{
}

/// Parse one line, per `spec_parse_line`.
pub fn parse_line(raw: &[u8], exc_default: bool) -> (r: Option<Rule>)
    ensures
        match r {
            Option::Some(rule) => spec_parse_line(raw@, exc_default) == Option::Some(rule@),
            Option::None => spec_parse_line(raw@, exc_default) is None,
        },
{
    let t = trim_slice(raw);
    let ghost line = trim_of(raw@);
    let t_len = t.len();
    if t_len == 0 {
        return Option::None;
    }
    if t[0] == 33 || t[0] == 91 {
        return Option::None;
    }
    if has_cosmetic_exec(t) {
        return Option::None;
    }
    let marked = t_len >= 2 && t[0] == 64 && t[1] == 64;
    let exc = if marked {
        true
    } else {
        exc_default
    };
    let body: &[u8] = if marked {
        slice_subrange(t, 2, t_len)
    } else {
        t
    };
    proof {
        if marked {
            assert(body@ =~= line.skip(2));
        }
    }
    let b_len = body.len();
    proof {
        assert(body@.take(b_len as int) =~= body@);
    }
    let dollar = rfind_upto(body, b_len, 36);
    let acc: (Vec<Vec<u8>>, Party, Vec<DomainEntry>);
    let pat: &[u8];
    match dollar {
        Option::Some(dp) => {
            let opts = slice_subrange(body, dp + 1, b_len);
            proof {
                assert(opts@ =~= body@.skip(dp + 1));
                assert(opts@.skip(0) =~= opts@);
            }
            let entries = split_from(opts, 44, 0);
            match fold_opts_exec(&entries) {
                Option::None => {
                    return Option::None;
                },
                Option::Some(a) => {
                    acc = a;
                    pat = slice_subrange(body, 0, dp);
                    proof {
                        assert(pat@ =~= body@.take(rfind(body@, 36)));
                    }
                },
            }
        },
        Option::None => {
            acc = (Vec::new(), Party::Any, Vec::new());
            pat = body;
            proof {
                assert(byte_views(acc.0@) =~= Seq::<Seq<u8>>::empty());
                assert(dom_views(acc.2@) =~= Seq::<DomView>::empty());
            }
        },
    }
    let p_len = pat.len();
    let anchor: Anchor;
    let core: &[u8];
    if p_len >= 2 && pat[0] == 124 && pat[1] == 124 {
        anchor = Anchor::Domain;
        core = slice_subrange(pat, 2, p_len);
        proof {
            assert(core@ =~= pat@.skip(2));
        }
    } else if p_len >= 1 && pat[0] == 124 {
        anchor = Anchor::Start;
        core = slice_subrange(pat, 1, p_len);
        proof {
            assert(core@ =~= pat@.skip(1));
        }
    } else if p_len >= 1 && pat[p_len - 1] == 124 {
        anchor = Anchor::End;
        core = slice_subrange(pat, 0, p_len - 1);
        proof {
            assert(core@ =~= pat@.take(p_len - 1));
        }
    } else {
        anchor = Anchor::Unanchored;
        core = pat;
    }
    proof {
        assert(anchor_split(pat@).1 == core@);
    }
    proof {
        assert(core@.skip(0) =~= core@);
    }
    let segs = tokenize_from(core, 0);
    if segs.len() == 0 {
        return Option::None;
    }
    proof {
        assert(seg_views(segs@).skip(0) =~= seg_views(segs@));
    }
    let token = token_from(&segs, 0);
    let rule = Rule {
        pattern: segs,
        anchor,
        is_exception: exc,
        domain_constraints: acc.2,
        resource_types: acc.0,
        party_constraint: acc.1,
        index_token: token,
    };
    Option::Some(rule)
}

/// The rules one line contributes: one or none.
pub open spec fn line_rules(l: Seq<u8>, exc_default: bool) -> Seq<RuleView> {
    match spec_parse_line(l, exc_default) {
        Option::None => Seq::empty(),
        Option::Some(rv) => seq![rv],
    }
}

/// All rules the given lines contribute, in order.
pub open spec fn parse_lines(ls: Seq<Seq<u8>>, exc_default: bool) -> Seq<RuleView>
    decreases ls.len(),
{
    if ls.len() == 0 {
        Seq::empty()
    } else {
        line_rules(ls[0], exc_default) + parse_lines(ls.drop_first(), exc_default)
    }
}

/// All rules compiled from raw list text: its newline-separated lines,
/// parsed in order, unparseable lines skipped.
pub open spec fn rules_of_text(t: Seq<u8>, exc_default: bool) -> Seq<RuleView> {
    parse_lines(split_on(t, 10), exc_default)
}

proof fn lemma_parse_lines_snoc(ls: Seq<Seq<u8>>, k: int, exc_default: bool)
    requires
        0 <= k < ls.len(),
    ensures
        parse_lines(ls.take(k + 1), exc_default) == parse_lines(ls.take(k), exc_default)
            + line_rules(ls[k], exc_default),
    decreases k,
{
    if k == 0 {
        assert(ls.take(1).drop_first() =~= Seq::<Seq<u8>>::empty());
        assert(ls.take(0) =~= Seq::<Seq<u8>>::empty());
        assert(ls.take(1)[0] == ls[0]);
        assert(parse_lines(ls.take(1), exc_default) =~= parse_lines(ls.take(0), exc_default)
            + line_rules(ls[0], exc_default));
    } else {
        lemma_parse_lines_snoc(ls.drop_first(), k - 1, exc_default);
        assert(ls.take(k + 1).drop_first() =~= ls.drop_first().take(k));
        assert(ls.take(k).drop_first() =~= ls.drop_first().take(k - 1));
        assert(ls.take(k + 1)[0] == ls[0]);
        assert(ls.take(k)[0] == ls[0]);
        assert(ls.drop_first()[k - 1] == ls[k]);
        assert(parse_lines(ls.take(k + 1), exc_default) =~= parse_lines(ls.take(k), exc_default)
            + line_rules(ls[k], exc_default));
    }
}

/// Every rule a sequence of lines compiles to is well-formed.
pub proof fn lemma_parse_lines_wf(ls: Seq<Seq<u8>>, exc_default: bool)
    ensures
        forall|j: int|
            0 <= j < parse_lines(ls, exc_default).len() ==> rule_wf(
                #[trigger] parse_lines(ls, exc_default)[j],
            ),
    decreases ls.len(),
{
    if ls.len() > 0 {
        lemma_parse_lines_wf(ls.drop_first(), exc_default);
        lemma_parsed_rule_wf(ls[0], exc_default);
        let hd = line_rules(ls[0], exc_default);
        let tl = parse_lines(ls.drop_first(), exc_default);
        assert forall|j: int| 0 <= j < parse_lines(ls, exc_default).len() implies rule_wf(
            #[trigger] parse_lines(ls, exc_default)[j],
        ) by {
            if j < hd.len() {
                assert(parse_lines(ls, exc_default)[j] == hd[j]);
            } else {
                assert(parse_lines(ls, exc_default)[j] == tl[j - hd.len()]);
            }
        }
    }
}

/// The models of a sequence of rules.
pub open spec fn rule_views(rs: Seq<Rule>) -> Seq<RuleView> {
    rs.map_values(|r: Rule| r@)
}

/// Parse a whole filter list, per `rules_of_text`.
pub fn parse_list(text: &[u8], exc_default: bool) -> (rules: Vec<Rule>)
    ensures
        rule_views(rules@) == rules_of_text(text@, exc_default),
{
    proof {
        assert(text@.skip(0) =~= text@);
    }
    let lines = split_from(text, 10, 0);
    let ghost lv = byte_views(lines@);
    let n = lines.len();
    let mut rules: Vec<Rule> = Vec::new();
    let mut k: usize = 0;
    proof {
        assert(rule_views(rules@) =~= Seq::<RuleView>::empty());
        assert(lv.take(0) =~= Seq::<Seq<u8>>::empty());
    }
    while k < n
        invariant
            0 <= k <= n,
            n == lines@.len(),
            lv == byte_views(lines@),
            rule_views(rules@) == parse_lines(lv.take(k as int), exc_default),
        decreases n - k,
    {
        let ghost r0 = rule_views(rules@);
        proof {
            assert(lv[k as int] == lines@[k as int]@);
        }
        match parse_line(lines[k].as_slice(), exc_default) {
            Option::Some(rule) => {
                let ghost rv = rule@;
                rules.push(rule);
                proof {
                    lemma_parse_lines_snoc(lv, k as int, exc_default);
                    assert(rule_views(rules@) =~= r0 + seq![rv]);
                }
            },
            Option::None => {
                proof {
                    lemma_parse_lines_snoc(lv, k as int, exc_default);
                    assert(r0 + Seq::<RuleView>::empty() =~= r0);
                }
            },
        }
        k += 1;
    }
    proof {
        assert(lv.take(n as int) =~= lv);
    }
    rules
}

} // verus!

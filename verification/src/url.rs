use vstd::prelude::*;

verus! {

/// Distance from the start of `u` to the first occurrence of `://`
/// (the length of `u` when there is none).
pub open spec fn scheme_dist(u: Seq<u8>) -> nat
    decreases u.len(),
{
    if u.len() < 3 {
        u.len()
    } else if u[0] == 58 && u[1] == 47 && u[2] == 47 {
        0
    } else {
        1 + scheme_dist(u.drop_first())
    }
}

/// Index of the first byte of the host, right after `://`; `None` when the
/// URL has no scheme part and no host can be extracted.
pub open spec fn host_start(u: Seq<u8>) -> Option<int> {
    let d = scheme_dist(u);
    if d + 3 <= u.len() {
        Some(d + 3 as int)
    } else {
        None
    }
}

/// A byte that ends the host portion of a URL: `/ ? # :`.
pub open spec fn is_host_end_byte(b: u8) -> bool {
    b == 47 || b == 63 || b == 35 || b == 58
}

/// Distance from the start of `u` to the first host-ending byte
/// (the length of `u` when there is none).
pub open spec fn host_end_dist(u: Seq<u8>) -> nat
    decreases u.len(),
{
    if u.len() == 0 {
        0
    } else if is_host_end_byte(u[0]) {
        0
    } else {
        1 + host_end_dist(u.drop_first())
    }
}

/// The host portion of a URL: the bytes between `://` and the first
/// `/ ? # :` after it; `None` when the URL has no `://`.
pub open spec fn host_of(u: Seq<u8>) -> Option<Seq<u8>> {
    match host_start(u) {
        Option::None => Option::None,
        Option::Some(hs) => Option::Some(u.subrange(hs, hs + host_end_dist(u.skip(hs)))),
    }
}

/// Index of the last occurrence of `b` in `u`, or `-1` when there is none.
pub open spec fn rfind(u: Seq<u8>, b: u8) -> int
    decreases u.len(),
{
    if u.len() == 0 {
        -1
    } else if u[u.len() - 1] == b {
        u.len() - 1
    } else {
        rfind(u.drop_last(), b)
    }
}

/// Start index of the registrable domain of a host: the suffix consisting
/// of the last two dot-separated labels (the whole host when it has fewer).
pub open spec fn reg_start(h: Seq<u8>) -> int {
    let d1 = rfind(h, 46);
    if d1 < 0 {
        0
    } else {
        let d2 = rfind(h.take(d1), 46);
        if d2 < 0 {
            0
        } else {
            d2 + 1
        }
    }
}

/// The registrable domain of a host.
pub open spec fn reg_domain(h: Seq<u8>) -> Seq<u8> {
    h.skip(reg_start(h))
}

/// A request is first-party when the hosts of its URL and of its source
/// URL can both be extracted and share a registrable domain.
pub open spec fn is_first_party(u: Seq<u8>, src: Seq<u8>) -> bool {
    match (host_of(u), host_of(src)) {
        (Option::Some(h1), Option::Some(h2)) => reg_domain(h1) == reg_domain(h2),
        _ => false,
    }
}

/// A host matches a domain constraint entry when it equals the entry or is
/// a subdomain of it (ends with a dot followed by the entry).
pub open spec fn host_under(h: Seq<u8>, d: Seq<u8>) -> bool {
    h == d || (d.len() < h.len() && h[h.len() - d.len() - 1] == 46 && h.skip(
        h.len() - d.len() as int,
    ) == d)
}

/// Positions in the URL where a domain-anchored pattern may begin: the
/// start of the host, or any position inside the host right after a dot.
pub open spec fn domain_pos(u: Seq<u8>, p: int) -> bool {
    match host_start(u) {
        Option::None => false,
        Option::Some(hs) => p == hs || (hs < p && p <= u.len() && u[p - 1] == 46 && (forall|
            q: int,
        |
            hs <= q < p ==> u[q] != 47)),
    }
}

/// Executable scheme-distance; mirrors `scheme_dist` on the suffix of `u`
/// that starts at `i`.
pub fn scheme_dist_from(u: &[u8], i: usize) -> (d: usize)
    requires
        i <= u@.len(),
    ensures
        d == scheme_dist(u@.skip(i as int)),
        d <= u@.len() - i,
    decreases u@.len() - i,
{
    let u_len = u.len();
    if u_len - i < 3 {
        return u_len - i;
    }
    if u[i] == 58 && u[i + 1] == 47 && u[i + 2] == 47 {
        return 0;
    }
    let d = scheme_dist_from(u, i + 1);
    proof {
        assert(u@.skip(i as int).drop_first() =~= u@.skip(i + 1));
    }
    1 + d
}

/// Executable host-end distance; mirrors `host_end_dist` on the suffix of
/// `u` that starts at `i`.
pub fn host_end_dist_from(u: &[u8], i: usize) -> (d: usize)
    requires
        i <= u@.len(),
    ensures
        d == host_end_dist(u@.skip(i as int)),
        d <= u@.len() - i,
    decreases u@.len() - i,
{
    let u_len = u.len();
    if i == u_len {
        return 0;
    }
    if u[i] == 47 || u[i] == 63 || u[i] == 35 || u[i] == 58 {
        return 0;
    }
    let d = host_end_dist_from(u, i + 1);
    proof {
        assert(u@.skip(i as int).drop_first() =~= u@.skip(i + 1));
    }
    1 + d
}

/// Bounds of the host portion of `u`, per `host_of`.
pub fn host_bounds(u: &[u8]) -> (r: Option<(usize, usize)>)
    ensures
        match r {
            Option::Some(ab) => host_start(u@) == Option::Some(ab.0 as int) && ab.0 <= ab.1
                <= u@.len() && host_of(u@) == Option::Some(u@.subrange(ab.0 as int, ab.1 as int)),
            Option::None => host_of(u@) is None,
        },
{
    proof {
        assert(u@.skip(0) =~= u@);
    }
    let d = scheme_dist_from(u, 0);
    if u.len() - d < 3 {
        return Option::None;
    }
    let hs = d + 3;
    let e = host_end_dist_from(u, hs);
    Option::Some((hs, hs + e))
}

/// Executable `rfind` over the prefix of `u` of length `n`.
pub fn rfind_upto(u: &[u8], n: usize, b: u8) -> (r: Option<usize>)
    requires
        n <= u@.len(),
    ensures
        match r {
            Option::Some(k) => k < n && rfind(u@.take(n as int), b) == k,
            Option::None => rfind(u@.take(n as int), b) == -1,
        },
    decreases n,
{
    if n == 0 {
        return Option::None;
    }
    let ghost pre = u@.take(n as int);
    if u[n - 1] == b {
        return Option::Some(n - 1);
    }
    let r = rfind_upto(u, n - 1, b);
    proof {
        assert(pre.drop_last() =~= u@.take(n - 1));
    }
    r
}

/// Executable `reg_start` of the host stored in `h`.
pub fn reg_start_of(h: &[u8]) -> (r: usize)
    ensures
        r == reg_start(h@),
        r <= h@.len(),
{
    proof {
        assert(h@.take(h@.len() as int) =~= h@);
    }
    match rfind_upto(h, h.len(), 46) {
        Option::None => 0,
        Option::Some(d1) => {
            match rfind_upto(h, d1, 46) {
                Option::None => 0,
                Option::Some(d2) => d2 + 1,
            }
        },
    }
}

/// Byte-for-byte equality of two slices.
pub fn bytes_eq(a: &[u8], b: &[u8]) -> (r: bool)
    ensures
        r == (a@ == b@),
{
    if a.len() != b.len() {
        return false;
    }
    let n = a.len();
    let mut k: usize = 0;
    while k < n
        invariant
            0 <= k <= n,
            n == a@.len(),
            n == b@.len(),
            forall|q: int| 0 <= q < k ==> a@[q] == b@[q],
        decreases n - k,
    {
        if a[k] != b[k] {
            proof {
                if a@ == b@ {
                    assert(a@[k as int] == b@[k as int]);
                }
            }
            return false;
        }
        k += 1;
    }
    proof {
        assert(a@ =~= b@);
    }
    true
}

/// Whether `u` and `src` are first-party to each other, per
/// `is_first_party`.
pub fn first_party(u: &[u8], src: &[u8]) -> (r: bool)
    ensures
        r == is_first_party(u@, src@),
{
    let b1 = host_bounds(u);
    let b2 = host_bounds(src);
    match (b1, b2) {
        (Option::Some(p1), Option::Some(p2)) => {
            let h1 = vstd::slice::slice_subrange(u, p1.0, p1.1);
            let h2 = vstd::slice::slice_subrange(src, p2.0, p2.1);
            let r1 = reg_start_of(h1);
            let r2 = reg_start_of(h2);
            let t1 = vstd::slice::slice_subrange(h1, r1, h1.len());
            let t2 = vstd::slice::slice_subrange(h2, r2, h2.len());
            let r = bytes_eq(t1, t2);
            proof {
                assert(h1@.subrange(r1 as int, h1@.len() as int) =~= h1@.skip(r1 as int));
                assert(h2@.subrange(r2 as int, h2@.len() as int) =~= h2@.skip(r2 as int));
            }
            r
        },
        _ => false,
    }
}

/// Whether the host of `src` falls under the domain `d`, per `host_under`;
/// `false` when `src` has no extractable host.
pub fn src_host_under(src: &[u8], d: &[u8]) -> (r: bool)
    ensures
        r == match host_of(src@) {
            Option::Some(h) => host_under(h, d@),
            Option::None => false,
        },
{
    match host_bounds(src) {
        Option::None => false,
        Option::Some(p) => {
            let h = vstd::slice::slice_subrange(src, p.0, p.1);
            let hn = h.len();
            let dn = d.len();
            if hn == dn {
                bytes_eq(h, d)
            } else if dn < hn {
                if h[hn - dn - 1] != 46 {
                    return false;
                }
                let tail = vstd::slice::slice_subrange(h, hn - dn, hn);
                let r = bytes_eq(tail, d);
                proof {
                    assert(h@.subrange(hn - dn, hn as int) =~= h@.skip(hn - dn));
                    if h@ == d@ {
                        assert(h@.len() == d@.len());
                    }
                }
                r
            } else {
                proof {
                    if h@ == d@ {
                        assert(h@.len() == d@.len());
                    }
                }
                false
            }
        },
    }
}

} // verus!

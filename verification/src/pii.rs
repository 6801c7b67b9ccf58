//! Masking of email addresses in log text.
//!
//! The pattern is the worker's own rule: a run of local-part characters,
//! an `@`, a domain, a dot, and a two-to-four-letter top-level domain,
//! matched case-insensitively, leftmost first, with the domain taken
//! greedily. Every match is replaced by `***@***.***`.
use vstd::prelude::*;

use crate::json_parse::string_from_utf8;
use vstd::string::StringSliceAdditionalSpecFns;

verus! {

/// A byte allowed in the local part of an address.
pub open spec fn is_local(b: u8) -> bool {
    (0x61 <= b <= 0x7a) || (0x41 <= b <= 0x5a) || (0x30 <= b <= 0x39) || b == 0x2e || b == 0x5f
        || b == 0x25 || b == 0x2b || b == 0x2d
}

/// A byte allowed in the domain of an address.
pub open spec fn is_domain(b: u8) -> bool {
    (0x61 <= b <= 0x7a) || (0x41 <= b <= 0x5a) || (0x30 <= b <= 0x39) || b == 0x2e || b == 0x2d
}

/// A letter.
pub open spec fn is_alpha(b: u8) -> bool {
    (0x61 <= b <= 0x7a) || (0x41 <= b <= 0x5a)
}

/// The end of the local-part run starting at `i`.
pub open spec fn local_end(bs: Seq<u8>, i: int) -> int
    decreases bs.len() - i,
{
    if 0 <= i < bs.len() && is_local(bs[i]) {
        local_end(bs, i + 1)
    } else {
        i
    }
}

/// The end of the domain run starting at `i`.
pub open spec fn domain_end(bs: Seq<u8>, i: int) -> int
    decreases bs.len() - i,
{
    if 0 <= i < bs.len() && is_domain(bs[i]) {
        domain_end(bs, i + 1)
    } else {
        i
    }
}

/// The end of the letter run starting at `i`.
pub open spec fn alpha_end(bs: Seq<u8>, i: int) -> int
    decreases bs.len() - i,
{
    if 0 <= i < bs.len() && is_alpha(bs[i]) {
        alpha_end(bs, i + 1)
    } else {
        i
    }
}

/// Whether position `q` is a dot that can close a match whose `@` sits
/// at `j`: at least one domain byte before it and at least two letters
/// after it.
pub open spec fn good_dot(bs: Seq<u8>, j: int, q: int) -> bool {
    q >= j + 2 && 0 <= q < bs.len() && bs[q] == 0x2e && alpha_end(bs, q + 1) - (q + 1) >= 2
}

/// The latest dot at or below `q` that can close a match; negative when
/// there is none.
pub open spec fn last_good_dot(bs: Seq<u8>, j: int, q: int) -> int
    decreases q - j,
{
    if q < j + 2 {
        -1
    } else if good_dot(bs, j, q) {
        q
    } else {
        last_good_dot(bs, j, q - 1)
    }
}

/// The end of the address match starting at `i`, or a negative value
/// when no match starts there: the local run, the `@`, the greedy
/// domain, its last closable dot, and at most four letters of the
/// top-level domain.
pub open spec fn match_end_at(bs: Seq<u8>, i: int) -> int {
    if 0 <= i < bs.len() && is_local(bs[i]) {
        let j = local_end(bs, i);
        if j < bs.len() && bs[j] == 0x40 {
            let d = domain_end(bs, j + 1);
            let q = last_good_dot(bs, j, d - 1);
            if q >= 0 {
                let tld = alpha_end(bs, q + 1) - (q + 1);
                q + 1 + (if tld > 4 {
                    4int
                } else {
                    tld
                })
            } else {
                -1
            }
        } else {
            -1
        }
    } else {
        -1
    }
}

/// The replacement written over each match.
pub open spec fn mask_bytes() -> Seq<u8> {
    seq![0x2au8, 0x2au8, 0x2au8, 0x40u8, 0x2au8, 0x2au8, 0x2au8, 0x2eu8, 0x2au8, 0x2au8, 0x2au8]
}

/// The text from position `i` with every address match replaced.
pub open spec fn spec_mask_from(bs: Seq<u8>, i: int) -> Seq<u8>
    decreases bs.len() - i,
{
    if i < 0 || i >= bs.len() {
        Seq::empty()
    } else {
        let e = match_end_at(bs, i);
        if i < e <= bs.len() {
            mask_bytes() + spec_mask_from(bs, e)
        } else {
            seq![bs[i]] + spec_mask_from(bs, i + 1)
        }
    }
}

/// The masked form of a character sequence: its UTF-8 bytes masked and
/// decoded again. The masked bytes are always valid UTF-8
/// (`lemma_mask_chars_valid`), so the decoding loses nothing.
pub open spec fn spec_mask_chars(cs: Seq<char>) -> Seq<char> {
    vstd::utf8::decode_utf8(spec_mask_from(vstd::utf8::encode_utf8(cs), 0))
}

/// Text that holds no address anywhere is returned unchanged: masking
/// never rewrites clean text.
pub proof fn lemma_mask_clean_text(bs: Seq<u8>, i: int)
    requires
        0 <= i <= bs.len(),
        forall|p: int| 0 <= p ==> #[trigger] match_end_at(bs, p) <= p,
    ensures
        spec_mask_from(bs, i) == bs.subrange(i, bs.len() as int),
    decreases bs.len() - i,
{
    if i >= bs.len() {
        assert(spec_mask_from(bs, i) =~= bs.subrange(i, bs.len() as int));
    } else {
        assert(match_end_at(bs, i) <= i);
        lemma_mask_clean_text(bs, i + 1);
        assert(seq![bs[i]] + bs.subrange(i + 1, bs.len() as int) =~= bs.subrange(
            i,
            bs.len() as int,
        ));
    }
}

/// Finds the end of the local run at `i`.
fn find_local_end(bs: &[u8], i: usize) -> (r: usize)
    requires
        i <= bs@.len(),
    ensures
        i <= r <= bs@.len(),
        r == local_end(bs@, i as int),
{
    let mut k: usize = i;
    while k < bs.len() && ((0x61 <= bs[k] && bs[k] <= 0x7a) || (0x41 <= bs[k] && bs[k] <= 0x5a)
        || (0x30 <= bs[k] && bs[k] <= 0x39) || bs[k] == 0x2e || bs[k] == 0x5f || bs[k] == 0x25
        || bs[k] == 0x2b || bs[k] == 0x2d)
        invariant
            i <= k <= bs@.len(),
            local_end(bs@, i as int) == local_end(bs@, k as int),
        decreases bs@.len() - k,
    {
        k = k + 1;
    }
    k
}

/// Finds the end of the domain run at `i`.
fn find_domain_end(bs: &[u8], i: usize) -> (r: usize)
    requires
        i <= bs@.len(),
    ensures
        i <= r <= bs@.len(),
        r == domain_end(bs@, i as int),
{
    let mut k: usize = i;
    while k < bs.len() && ((0x61 <= bs[k] && bs[k] <= 0x7a) || (0x41 <= bs[k] && bs[k] <= 0x5a)
        || (0x30 <= bs[k] && bs[k] <= 0x39) || bs[k] == 0x2e || bs[k] == 0x2d)
        invariant
            i <= k <= bs@.len(),
            domain_end(bs@, i as int) == domain_end(bs@, k as int),
        decreases bs@.len() - k,
    {
        k = k + 1;
    }
    k
}

/// Finds the end of the letter run at `i`.
fn find_alpha_end(bs: &[u8], i: usize) -> (r: usize)
    requires
        i <= bs@.len(),
    ensures
        i <= r <= bs@.len(),
        r == alpha_end(bs@, i as int),
{
    let mut k: usize = i;
    while k < bs.len() && ((0x61 <= bs[k] && bs[k] <= 0x7a) || (0x41 <= bs[k] && bs[k] <= 0x5a))
        invariant
            i <= k <= bs@.len(),
            alpha_end(bs@, i as int) == alpha_end(bs@, k as int),
        decreases bs@.len() - k,
    {
        k = k + 1;
    }
    k
}

/// The latest closable dot, when there is one, is itself closable.
proof fn lemma_last_good_dot(bs: Seq<u8>, j: int, q: int)
    ensures
        last_good_dot(bs, j, q) >= 0 ==> good_dot(bs, j, last_good_dot(bs, j, q)),
    decreases q - j,
{
    if q >= j + 2 && !good_dot(bs, j, q) {
        lemma_last_good_dot(bs, j, q - 1);
    }
}

/// Finds the latest closable dot at or below `hi` for an `@` at `j`.
fn find_last_good_dot(bs: &[u8], j: usize, hi: usize) -> (r: Option<usize>)
    requires
        hi < bs@.len() || hi == 0,
        hi <= bs@.len(),
    ensures
        match r {
            Some(q) => q == last_good_dot(bs@, j as int, hi as int),
            None => last_good_dot(bs@, j as int, hi as int) < 0,
        },
{
    let mut q: usize = hi;
    loop
        invariant
            q <= hi,
            q < bs@.len() || q == 0,
            last_good_dot(bs@, j as int, hi as int) == last_good_dot(bs@, j as int, q as int),
        decreases q,
    {
        if q <= j {
            return None;
        }
        if q - j < 2 {
            return None;
        }
        if bs[q] == 0x2e {
            let ae = find_alpha_end(bs, q + 1);
            if ae - (q + 1) >= 2 {
                proof {
                    assert(good_dot(bs@, j as int, q as int));
                }
                return Some(q);
            }
        }
        proof {
            assert(!good_dot(bs@, j as int, q as int));
        }
        q = q - 1;
    }
}

/// Masks every address in the bytes of `input`, returning the masked
/// text. The replacement `***@***.***` never itself reads as an address.
pub fn mask_pii(input: &str) -> (r: String)
    ensures
        r@ == spec_mask_chars(input@),
{
    let bs = input.as_bytes();
    let n = bs.len();
    let mut out: Vec<u8> = Vec::new();
    let mut i: usize = 0;
    proof {
        assert(out@ + spec_mask_from(bs@, 0) =~= spec_mask_from(bs@, 0));
    }
    while i < n
        invariant
            i <= n,
            n == bs@.len(),
            bs@ == input.spec_bytes(),
            out@ + spec_mask_from(bs@, i as int) == spec_mask_from(bs@, 0),
        decreases n - i,
    {
        let ghost prev = out@;
        let b = bs[i];
        let local_here = (0x61 <= b && b <= 0x7a) || (0x41 <= b && b <= 0x5a) || (0x30 <= b && b
            <= 0x39) || b == 0x2e || b == 0x5f || b == 0x25 || b == 0x2b || b == 0x2d;
        proof {
            assert(local_here == is_local(bs@[i as int]));
        }
        let mut advanced = false;
        if local_here {
            let j = find_local_end(bs, i);
            if j < n && bs[j] == 0x40 {
                let d = find_domain_end(bs, j + 1);
                let dot = if d == 0 {
                    None
                } else {
                    find_last_good_dot(bs, j, d - 1)
                };
                proof {
                    if d == 0 {
                        assert(last_good_dot(bs@, j as int, d - 1 as int) < 0);
                    }
                }
                match dot {
                    Some(q) => {
                        proof {
                            lemma_last_good_dot(bs@, j as int, d - 1);
                        }
                        let ae = find_alpha_end(bs, q + 1);
                        let tld = ae - (q + 1);
                        let capped = if tld > 4 {
                            4
                        } else {
                            tld
                        };
                        let e = q + 1 + capped;
                        proof {
                            assert(good_dot(bs@, j as int, q as int));
                            assert(e == match_end_at(bs@, i as int));
                            assert(i < e <= bs@.len());
                        }
                        out.push(0x2a);
                        out.push(0x2a);
                        out.push(0x2a);
                        out.push(0x40);
                        out.push(0x2a);
                        out.push(0x2a);
                        out.push(0x2a);
                        out.push(0x2e);
                        out.push(0x2a);
                        out.push(0x2a);
                        out.push(0x2a);
                        proof {
                            assert(out@ =~= prev + mask_bytes());
                            assert(prev + (mask_bytes() + spec_mask_from(bs@, e as int)) =~= out@
                                + spec_mask_from(bs@, e as int));
                        }
                        i = e;
                        advanced = true;
                    }
                    None => {}
                }
            }
        }
        if !advanced {
            proof {
                assert(match_end_at(bs@, i as int) <= i);
            }
            out.push(b);
            proof {
                assert(out@ =~= prev + seq![bs@[i as int]]);
                assert(prev + (seq![bs@[i as int]] + spec_mask_from(bs@, i + 1 as int)) =~= out@
                    + spec_mask_from(bs@, i + 1 as int));
            }
            i = i + 1;
        }
    }
    proof {
        assert(spec_mask_from(bs@, n as int) =~= Seq::<u8>::empty());
        assert(out@ =~= spec_mask_from(bs@, 0));
    }
    match string_from_utf8(out) {
        Some(s) => s,
        None => {
            // unreachable: the masked bytes are always valid UTF-8
            proof {
                lemma_mask_chars_valid(input@);
                assert(false);
            }
            input.to_owned()
        }
    }
}


/// Class runs depend only on the text to the right: equal suffixes give
/// equally placed run ends.
proof fn lemma_local_shift(x: Seq<u8>, y: Seq<u8>, p: int, q: int)
    requires
        0 <= p <= x.len(),
        0 <= q <= y.len(),
        x.subrange(p, x.len() as int) == y.subrange(q, y.len() as int),
    ensures
        local_end(x, p) - p == local_end(y, q) - q,
    decreases x.len() - p,
{
    assert(x.len() - p == y.len() - q) by {
        assert(x.subrange(p, x.len() as int).len() == x.len() - p);
    }
    if p < x.len() {
        assert(x[p] == y[q]) by {
            assert(x.subrange(p, x.len() as int)[0] == x[p]);
            assert(y.subrange(q, y.len() as int)[0] == y[q]);
        }
        if is_local(x[p]) {
            assert(x.subrange(p + 1, x.len() as int) =~= y.subrange(q + 1, y.len() as int)) by {
                assert(forall|t: int|
                    0 <= t < x.len() - p - 1 ==> #[trigger] x.subrange(p + 1, x.len() as int)[t]
                        == x.subrange(p, x.len() as int)[t + 1]);
                assert(forall|t: int|
                    0 <= t < y.len() - q - 1 ==> #[trigger] y.subrange(q + 1, y.len() as int)[t]
                        == y.subrange(q, y.len() as int)[t + 1]);
            }
            lemma_local_shift(x, y, p + 1, q + 1);
        }
    }
}

/// Same as `lemma_local_shift`, for domain runs.
proof fn lemma_domain_shift(x: Seq<u8>, y: Seq<u8>, p: int, q: int)
    requires
        0 <= p <= x.len(),
        0 <= q <= y.len(),
        x.subrange(p, x.len() as int) == y.subrange(q, y.len() as int),
    ensures
        domain_end(x, p) - p == domain_end(y, q) - q,
    decreases x.len() - p,
{
    assert(x.len() - p == y.len() - q) by {
        assert(x.subrange(p, x.len() as int).len() == x.len() - p);
    }
    if p < x.len() {
        assert(x[p] == y[q]) by {
            assert(x.subrange(p, x.len() as int)[0] == x[p]);
            assert(y.subrange(q, y.len() as int)[0] == y[q]);
        }
        if is_domain(x[p]) {
            assert(x.subrange(p + 1, x.len() as int) =~= y.subrange(q + 1, y.len() as int)) by {
                assert(forall|t: int|
                    0 <= t < x.len() - p - 1 ==> #[trigger] x.subrange(p + 1, x.len() as int)[t]
                        == x.subrange(p, x.len() as int)[t + 1]);
                assert(forall|t: int|
                    0 <= t < y.len() - q - 1 ==> #[trigger] y.subrange(q + 1, y.len() as int)[t]
                        == y.subrange(q, y.len() as int)[t + 1]);
            }
            lemma_domain_shift(x, y, p + 1, q + 1);
        }
    }
}

/// Same as `lemma_local_shift`, for letter runs.
proof fn lemma_alpha_shift(x: Seq<u8>, y: Seq<u8>, p: int, q: int)
    requires
        0 <= p <= x.len(),
        0 <= q <= y.len(),
        x.subrange(p, x.len() as int) == y.subrange(q, y.len() as int),
    ensures
        alpha_end(x, p) - p == alpha_end(y, q) - q,
    decreases x.len() - p,
{
    assert(x.len() - p == y.len() - q) by {
        assert(x.subrange(p, x.len() as int).len() == x.len() - p);
    }
    if p < x.len() {
        assert(x[p] == y[q]) by {
            assert(x.subrange(p, x.len() as int)[0] == x[p]);
            assert(y.subrange(q, y.len() as int)[0] == y[q]);
        }
        if is_alpha(x[p]) {
            assert(x.subrange(p + 1, x.len() as int) =~= y.subrange(q + 1, y.len() as int)) by {
                assert(forall|t: int|
                    0 <= t < x.len() - p - 1 ==> #[trigger] x.subrange(p + 1, x.len() as int)[t]
                        == x.subrange(p, x.len() as int)[t + 1]);
                assert(forall|t: int|
                    0 <= t < y.len() - q - 1 ==> #[trigger] y.subrange(q + 1, y.len() as int)[t]
                        == y.subrange(q, y.len() as int)[t + 1]);
            }
            lemma_alpha_shift(x, y, p + 1, q + 1);
        }
    }
}

/// A closable dot reads only rightward text from the base position on,
/// so equal suffixes close equally under a shift.
proof fn lemma_lgd_shift(x: Seq<u8>, y: Seq<u8>, p: int, q: int, j: int, h: int)
    requires
        0 <= p <= x.len(),
        0 <= q <= y.len(),
        x.subrange(p, x.len() as int) == y.subrange(q, y.len() as int),
        j + 2 >= p,
    ensures
        last_good_dot(x, j, h) >= 0 ==> last_good_dot(y, j - p + q, h - p + q) == last_good_dot(
            x,
            j,
            h,
        ) - p + q && last_good_dot(x, j, h) >= p,
        last_good_dot(x, j, h) < 0 ==> last_good_dot(y, j - p + q, h - p + q) < 0,
    decreases h - j,
{
    assert(x.len() - p == y.len() - q) by {
        assert(x.subrange(p, x.len() as int).len() == x.len() - p);
    }
    if h >= j + 2 {
        // whether h itself closes is the same on both sides
        assert(good_dot(x, j, h) == good_dot(y, j - p + q, h - p + q)) by {
            if h < x.len() {
                assert(x[h] == y[h - p + q]) by {
                    assert(x.subrange(p, x.len() as int)[h - p] == x[h]);
                    assert(y.subrange(q, y.len() as int)[h - p] == y[h - p + q]);
                }
                if x[h] == 0x2e {
                    assert(x.subrange(h + 1, x.len() as int) =~= y.subrange(
                        h + 1 - p + q,
                        y.len() as int,
                    )) by {
                        assert(forall|t: int|
                            0 <= t < x.len() - h - 1 ==> #[trigger] x.subrange(
                                h + 1,
                                x.len() as int,
                            )[t] == x.subrange(p, x.len() as int)[h + 1 - p + t]);
                        assert(forall|t: int|
                            0 <= t < y.len() - (h + 1 - p + q) ==> #[trigger] y.subrange(
                                h + 1 - p + q,
                                y.len() as int,
                            )[t] == y.subrange(q, y.len() as int)[h + 1 - p + t]);
                    }
                    lemma_alpha_shift(x, y, h + 1, h + 1 - p + q);
                }
            } else {
                assert(h - p + q >= y.len());
            }
        }
        if !good_dot(x, j, h) {
            lemma_lgd_shift(x, y, p, q, j, h - 1);
        }
    }
}

/// The latest closable dot is at least any closable dot in range.
proof fn lemma_lgd_at_least(bs: Seq<u8>, j: int, h: int, t: int)
    requires
        good_dot(bs, j, t),
        t <= h,
    ensures
        last_good_dot(bs, j, h) >= t,
    decreases h - j,
{
    if !good_dot(bs, j, h) {
        lemma_lgd_at_least(bs, j, h - 1, t);
    }
}

/// A match depends only on the text to its right: equal suffixes match
/// equally far.
proof fn lemma_match_shift(x: Seq<u8>, y: Seq<u8>, p: int, q: int)
    requires
        0 <= p <= x.len(),
        0 <= q <= y.len(),
        x.subrange(p, x.len() as int) == y.subrange(q, y.len() as int),
    ensures
        match_end_at(x, p) > p ==> match_end_at(y, q) == match_end_at(x, p) - p + q,
        match_end_at(x, p) <= p ==> match_end_at(y, q) <= q,
    decreases 0int,
{
    assert(x.len() - p == y.len() - q) by {
        assert(x.subrange(p, x.len() as int).len() == x.len() - p);
    }
    assert forall|t: int| 0 <= t < x.len() - p implies #[trigger] x[p + t] == y[q + t] by {
        assert(x.subrange(p, x.len() as int)[t] == x[p + t]);
        assert(y.subrange(q, y.len() as int)[t] == y[q + t]);
    }
    if p < x.len() {
        assert(x[p] == y[q]) by {
            assert(x[p + 0] == y[q + 0]);
        }
        if is_local(x[p]) {
            lemma_local_shift(x, y, p, q);
            let jx = local_end(x, p);
            let jy = local_end(y, q);
            assert(jx - p == jy - q);
            lemma_local_end_bounds(x, p);
            if jx < x.len() {
                assert(x[jx] == y[jy]) by {
                    assert(x[p + (jx - p)] == y[q + (jx - p)]);
                }
                if x[jx] == 0x40 {
                    assert(x.subrange(jx + 1, x.len() as int) =~= y.subrange(
                        jy + 1,
                        y.len() as int,
                    )) by {
                        assert(forall|t: int|
                            0 <= t < x.len() - jx - 1 ==> #[trigger] x.subrange(
                                jx + 1,
                                x.len() as int,
                            )[t] == x[p + (jx + 1 - p + t)]);
                        assert(forall|t: int|
                            0 <= t < y.len() - jy - 1 ==> #[trigger] y.subrange(
                                jy + 1,
                                y.len() as int,
                            )[t] == y[q + (jx + 1 - p + t)]);
                    }
                    lemma_domain_shift(x, y, jx + 1, jy + 1);
                    let dx = domain_end(x, jx + 1);
                    let dy = domain_end(y, jy + 1);
                    assert(dx - p == dy - q);
                    lemma_lgd_shift(x, y, p, q, jx, dx - 1);
                    let qx = last_good_dot(x, jx, dx - 1);
                    let qy = last_good_dot(y, jy, dy - 1);
                    assert(jy == jx - p + q && dy - 1 == dx - 1 - p + q);
                    if qx >= 0 {
                        lemma_last_good_dot(x, jx, dx - 1);
                        assert(good_dot(x, jx, qx));
                        assert(qy == qx - p + q && qx >= p);
                        assert(qx < x.len());
                        assert(x.subrange(qx + 1, x.len() as int) =~= y.subrange(
                            qy + 1,
                            y.len() as int,
                        )) by {
                            assert(forall|t: int|
                                0 <= t < x.len() - qx - 1 ==> #[trigger] x.subrange(
                                    qx + 1,
                                    x.len() as int,
                                )[t] == x[p + (qx + 1 - p + t)]);
                            assert(forall|t: int|
                                0 <= t < y.len() - qy - 1 ==> #[trigger] y.subrange(
                                    qy + 1,
                                    y.len() as int,
                                )[t] == y[q + (qx + 1 - p + t)]);
                        }
                        lemma_alpha_shift(x, y, qx + 1, qy + 1);
                    } else {
                        assert(qy < 0);
                    }
                }
            }
        }
    }
}

/// Run ends stay within the text and never move left.
proof fn lemma_local_end_bounds(bs: Seq<u8>, i: int)
    requires
        0 <= i <= bs.len(),
    ensures
        i <= local_end(bs, i) <= bs.len(),
    decreases bs.len() - i,
{
    if i < bs.len() && is_local(bs[i]) {
        lemma_local_end_bounds(bs, i + 1);
    }
}


/// Domain runs stay within the text and never move left.
proof fn lemma_domain_end_bounds(bs: Seq<u8>, i: int)
    requires
        0 <= i <= bs.len(),
    ensures
        i <= domain_end(bs, i) <= bs.len(),
    decreases bs.len() - i,
{
    if i < bs.len() && is_domain(bs[i]) {
        lemma_domain_end_bounds(bs, i + 1);
    }
}

/// Letter runs stay within the text and never move left.
proof fn lemma_alpha_end_bounds(bs: Seq<u8>, i: int)
    requires
        0 <= i <= bs.len(),
    ensures
        i <= alpha_end(bs, i) <= bs.len(),
    decreases bs.len() - i,
{
    if i < bs.len() && is_alpha(bs[i]) {
        lemma_alpha_end_bounds(bs, i + 1);
    }
}

/// The latest closable dot never lies past the scan bound.
proof fn lemma_lgd_ub(bs: Seq<u8>, j: int, h: int)
    ensures
        last_good_dot(bs, j, h) >= 0 ==> last_good_dot(bs, j, h) <= h,
    decreases h - j,
{
    if h >= j + 2 && !good_dot(bs, j, h) {
        lemma_lgd_ub(bs, j, h - 1);
    }
}

/// A match never extends past the end of the text.
proof fn lemma_match_end_ub(bs: Seq<u8>, i: int)
    requires
        0 <= i <= bs.len(),
    ensures
        match_end_at(bs, i) <= bs.len(),
{
    if i < bs.len() && is_local(bs[i]) {
        lemma_local_end_bounds(bs, i);
        let j = local_end(bs, i);
        if j < bs.len() && bs[j] == 0x40 {
            lemma_domain_end_bounds(bs, j + 1);
            let d = domain_end(bs, j + 1);
            let q = last_good_dot(bs, j, d - 1);
            if q >= 0 {
                lemma_last_good_dot(bs, j, d - 1);
                lemma_alpha_end_bounds(bs, q + 1);
            }
        }
    }
}

/// The window hypothesis: the output's first `w` bytes copy the input
/// from `c`, and what follows the window (on either side that has more)
/// cannot continue any run: the output holds a masked block there.
spec fn window_match(out: Seq<u8>, bs: Seq<u8>, c: int, w: int) -> bool {
    &&& 0 <= w <= out.len()
    &&& 0 <= c && c + w <= bs.len()
    &&& (forall|t: int| 0 <= t < w ==> out[t] == bs[c + t])
    &&& (if w < out.len() {
        out[w] == 0x2a
    } else {
        c + w == bs.len()
    })
}

/// Local runs inside the window agree with the input, and a run that
/// reaches the window's edge continues at least that far in the input.
proof fn lemma_window_local(out: Seq<u8>, bs: Seq<u8>, c: int, w: int, t: int)
    requires
        window_match(out, bs, c, w),
        0 <= t <= w,
    ensures
        t <= local_end(out, t) <= w,
        local_end(out, t) < w ==> local_end(bs, c + t) == c + local_end(out, t),
        local_end(out, t) == w ==> local_end(bs, c + t) >= c + w,
    decreases w - t,
{
    if t < w {
        if is_local(out[t]) {
            lemma_window_local(out, bs, c, w, t + 1);
        }
    } else {
        if w < out.len() {
            assert(!is_local(out[w]));
        }
        lemma_local_end_bounds(bs, c + w);
    }
}

/// Same as `lemma_window_local`, for domain runs.
proof fn lemma_window_domain(out: Seq<u8>, bs: Seq<u8>, c: int, w: int, t: int)
    requires
        window_match(out, bs, c, w),
        0 <= t <= w,
    ensures
        t <= domain_end(out, t) <= w,
        domain_end(out, t) < w ==> domain_end(bs, c + t) == c + domain_end(out, t),
        domain_end(out, t) == w ==> domain_end(bs, c + t) >= c + w,
    decreases w - t,
{
    if t < w {
        if is_domain(out[t]) {
            lemma_window_domain(out, bs, c, w, t + 1);
        }
    } else {
        if w < out.len() {
            assert(!is_domain(out[w]));
        }
        lemma_domain_end_bounds(bs, c + w);
    }
}

/// Same as `lemma_window_local`, for letter runs.
proof fn lemma_window_alpha(out: Seq<u8>, bs: Seq<u8>, c: int, w: int, t: int)
    requires
        window_match(out, bs, c, w),
        0 <= t <= w,
    ensures
        t <= alpha_end(out, t) <= w,
        alpha_end(out, t) < w ==> alpha_end(bs, c + t) == c + alpha_end(out, t),
        alpha_end(out, t) == w ==> alpha_end(bs, c + t) >= c + w,
    decreases w - t,
{
    if t < w {
        if is_alpha(out[t]) {
            lemma_window_alpha(out, bs, c, w, t + 1);
        }
    } else {
        if w < out.len() {
            assert(!is_alpha(out[w]));
        }
        lemma_alpha_end_bounds(bs, c + w);
    }
}

/// An address match at the head of the window implies an address match
/// at the corresponding input position: the copied bytes carry the whole
/// local part, separator, dot, and top-level domain, and the input's
/// greedy domain run only reaches further.
proof fn lemma_window_match(out: Seq<u8>, bs: Seq<u8>, c: int, w: int)
    requires
        window_match(out, bs, c, w),
        match_end_at(out, 0) > 0,
    ensures
        match_end_at(bs, c) > c,
{
    assert(0 < out.len() && is_local(out[0]));
    if w == out.len() && c + w == bs.len() {
        // the window is the whole remaining text on both sides
        assert(out.subrange(0, out.len() as int) =~= bs.subrange(c, bs.len() as int)) by {
            assert(forall|t: int|
                0 <= t < w ==> #[trigger] out.subrange(0, out.len() as int)[t] == out[t]);
            assert(forall|t: int|
                0 <= t < w ==> #[trigger] bs.subrange(c, bs.len() as int)[t] == bs[c + t]);
        }
        lemma_match_shift(out, bs, 0, c);
    } else {
        assert(w < out.len() && out[w] == 0x2a);
        assert(0 < w);
        lemma_window_local(out, bs, c, w, 0);
        let je = local_end(out, 0);
        if je == w {
            assert(out[je] == 0x2a);
            assert(match_end_at(out, 0) <= 0);
        } else {
            assert(je < w);
            assert(out[je] == 0x40);
            assert(bs[c + je] == 0x40);
            assert(local_end(bs, c) == c + je);
            lemma_window_domain(out, bs, c, w, je + 1);
            let de = domain_end(out, je + 1);
            let qe = last_good_dot(out, je, de - 1);
            assert(qe >= 0);
            lemma_last_good_dot(out, je, de - 1);
            assert(good_dot(out, je, qe));
            lemma_lgd_ub(out, je, de - 1);
            assert(qe <= de - 1);
            assert(qe < w);
            // the dot and its two letters lie inside the window
            assert(alpha_end(out, qe + 1) >= qe + 3);
            if qe + 1 >= w {
                assert(qe + 1 == w);
                assert(!is_alpha(out[w]));
                assert(alpha_end(out, qe + 1) == qe + 1);
            }
            assert(qe + 1 < w);
            assert(is_alpha(out[qe + 1])) by {
                if !is_alpha(out[qe + 1]) {
                    assert(alpha_end(out, qe + 1) == qe + 1);
                }
            }
            assert(alpha_end(out, qe + 2) >= qe + 3);
            if qe + 2 >= w {
                assert(qe + 2 == w);
                assert(!is_alpha(out[w]));
                assert(alpha_end(out, qe + 2) == qe + 2);
            }
            assert(qe + 2 < w);
            assert(is_alpha(out[qe + 2])) by {
                if !is_alpha(out[qe + 2]) {
                    assert(alpha_end(out, qe + 2) == qe + 2);
                }
            }
            assert(bs[c + qe] == 0x2e && is_alpha(bs[c + qe + 1]) && is_alpha(bs[c + qe + 2]));
            lemma_alpha_end_bounds(bs, c + qe + 3);
            assert(alpha_end(bs, c + qe + 1) >= c + qe + 3) by {
                assert(alpha_end(bs, c + qe + 1) == alpha_end(bs, c + qe + 2));
                assert(alpha_end(bs, c + qe + 2) == alpha_end(bs, c + qe + 3));
            }
            assert(good_dot(bs, c + je, c + qe));
            let din = domain_end(bs, c + je + 1);
            assert(din - 1 >= c + qe) by {
                if de < w {
                    assert(din == c + de);
                } else {
                    assert(din >= c + w);
                }
            }
            lemma_lgd_at_least(bs, c + je, din - 1, c + qe);
            let qin = last_good_dot(bs, c + je, din - 1);
            assert(qin >= c + qe);
            lemma_last_good_dot(bs, c + je, din - 1);
            assert(good_dot(bs, c + je, qin));
            lemma_alpha_end_bounds(bs, qin + 1);
            let tin = alpha_end(bs, qin + 1) - (qin + 1);
            assert(match_end_at(bs, c) == qin + 1 + (if tin > 4 {
                4int
            } else {
                tin
            }));
            assert(match_end_at(bs, c) >= qin + 1);
        }
    }
}

/// Where the first masked position of the remaining text lies: the text
/// end when nothing matches, the earliest match start otherwise.
pub open spec fn first_match_pos(bs: Seq<u8>, i: int) -> int
    decreases bs.len() - i,
{
    if i < 0 || i >= bs.len() {
        bs.len() as int
    } else if i < match_end_at(bs, i) <= bs.len() {
        i
    } else {
        first_match_pos(bs, i + 1)
    }
}

/// No address survives masking: the masked text holds no address match
/// at any position. Alongside, the masked text copies the input
/// faithfully up to the first match, where a masked block begins.
pub proof fn lemma_mask_no_address(bs: Seq<u8>, i: int)
    requires
        0 <= i <= bs.len(),
    ensures
        forall|p: int| 0 <= p ==> #[trigger] match_end_at(spec_mask_from(bs, i), p) <= p,
        ({
            let out = spec_mask_from(bs, i);
            let m = first_match_pos(bs, i);
            &&& i <= m <= bs.len()
            &&& m - i <= out.len()
            &&& (forall|t: int| 0 <= t < m - i ==> out[t] == bs[i + t])
            &&& (if m < bs.len() {
                m - i < out.len() && out[m - i] == 0x2a
            } else {
                out.len() == m - i
            })
        }),
    decreases bs.len() - i,
{
    let out = spec_mask_from(bs, i);
    let m = first_match_pos(bs, i);
    lemma_fmp_bounds(bs, i);
    if i >= bs.len() {
        assert(out =~= Seq::<u8>::empty());
        assert forall|p: int| 0 <= p implies #[trigger] match_end_at(out, p) <= p by {}
    } else {
        let e = match_end_at(bs, i);
        if i < e <= bs.len() {
            // a masked block, and the rest
            lemma_mask_no_address(bs, e);
            let rest = spec_mask_from(bs, e);
            assert(out == mask_bytes() + rest);
            assert(out.len() == 11 + rest.len());
            assert forall|p: int| 0 <= p implies #[trigger] match_end_at(out, p) <= p by {
                if p < 11 {
                    assert(out[0] == 0x2a && out[1] == 0x2a && out[2] == 0x2a && out[3] == 0x40
                        && out[4] == 0x2a && out[5] == 0x2a && out[6] == 0x2a && out[7] == 0x2e
                        && out[8] == 0x2a && out[9] == 0x2a && out[10] == 0x2a) by {
                        assert(forall|t: int|
                            0 <= t < 11 ==> #[trigger] out[t] == mask_bytes()[t]);
                    }
                    if p == 7 {
                        assert(!is_local(out[8]));
                        assert(local_end(out, 8) == 8);
                        assert(local_end(out, 7) == 8);
                        assert(match_end_at(out, 7) <= 7);
                    } else {
                        assert(!is_local(out[p]));
                    }
                } else if p <= out.len() {
                    assert(out.subrange(p, out.len() as int) =~= rest.subrange(
                        p - 11,
                        rest.len() as int,
                    )) by {
                        assert(forall|t: int|
                            0 <= t < out.len() - p ==> #[trigger] out.subrange(
                                p,
                                out.len() as int,
                            )[t] == out[p + t]);
                        assert(forall|t: int|
                            0 <= t < rest.len() - (p - 11) ==> #[trigger] rest.subrange(
                                p - 11,
                                rest.len() as int,
                            )[t] == rest[p - 11 + t]);
                        assert(forall|t: int|
                            0 <= t < rest.len() ==> #[trigger] out[11 + t] == rest[t]);
                    }
                    lemma_match_shift(out, rest, p, p - 11);
                    assert(match_end_at(rest, p - 11) <= p - 11);
                } else {
                    assert(match_end_at(out, p) <= p);
                }
            }
            assert(m == i);
            assert(out[0] == mask_bytes()[0]);
        } else {
            // one copied byte, and the rest
            assert(e <= i) by {
                lemma_match_end_ub(bs, i);
            }
            lemma_mask_no_address(bs, i + 1);
            let rest = spec_mask_from(bs, i + 1);
            assert(out == seq![bs[i]] + rest);
            let mr = first_match_pos(bs, i + 1);
            assert(m == mr);
            // faithfulness of the combined text
            assert(forall|t: int| 0 <= t < mr - i - 1 ==> #[trigger] rest[t] == bs[i + 1 + t]);
            assert forall|t: int| 0 <= t < m - i implies #[trigger] out[t] == bs[i + t] by {
                if t > 0 {
                    assert(out[t] == rest[t - 1]);
                }
            }
            assert forall|p: int| 0 <= p implies #[trigger] match_end_at(out, p) <= p by {
                if p == 0 {
                    if match_end_at(out, 0) > 0 {
                        if mr < bs.len() {
                            assert(rest[mr - i - 1] == 0x2a);
                            assert(window_match(out, bs, i, mr - i)) by {
                                assert(out[mr - i] == rest[mr - i - 1]);
                            }
                            lemma_window_match(out, bs, i, mr - i);
                            assert(false);
                        } else {
                            assert(out.len() == mr - i);
                            assert(out.subrange(0, out.len() as int) =~= bs.subrange(
                                i,
                                bs.len() as int,
                            )) by {
                                assert(forall|t: int|
                                    0 <= t < out.len() ==> #[trigger] out.subrange(
                                        0,
                                        out.len() as int,
                                    )[t] == out[t]);
                                assert(forall|t: int|
                                    0 <= t < bs.len() - i ==> #[trigger] bs.subrange(
                                        i,
                                        bs.len() as int,
                                    )[t] == bs[i + t]);
                            }
                            lemma_match_shift(out, bs, 0, i);
                            assert(false);
                        }
                    }
                } else if p <= out.len() {
                    assert(out.subrange(p, out.len() as int) =~= rest.subrange(
                        p - 1,
                        rest.len() as int,
                    )) by {
                        assert(forall|t: int|
                            0 <= t < out.len() - p ==> #[trigger] out.subrange(
                                p,
                                out.len() as int,
                            )[t] == out[p + t]);
                        assert(forall|t: int|
                            0 <= t < rest.len() - (p - 1) ==> #[trigger] rest.subrange(
                                p - 1,
                                rest.len() as int,
                            )[t] == rest[p - 1 + t]);
                        assert(forall|t: int|
                            0 <= t < rest.len() ==> #[trigger] out[1 + t] == rest[t]);
                    }
                    lemma_match_shift(out, rest, p, p - 1);
                } else {
                    assert(match_end_at(out, p) <= p);
                }
            }
        }
    }
}

/// The first masked position lies between the scan point and the end.
proof fn lemma_fmp_bounds(bs: Seq<u8>, i: int)
    requires
        0 <= i <= bs.len(),
    ensures
        i <= first_match_pos(bs, i) <= bs.len(),
    decreases bs.len() - i,
{
    if i < bs.len() {
        let e = match_end_at(bs, i);
        if !(i < e <= bs.len()) {
            lemma_fmp_bounds(bs, i + 1);
        }
    }
}


/// Every byte strictly inside a letter run is a letter.
proof fn lemma_alpha_run(bs: Seq<u8>, i0: int, t: int)
    requires
        0 <= i0 <= t,
        t < alpha_end(bs, i0),
    ensures
        t < bs.len() && is_alpha(bs[t]),
    decreases t - i0,
{
    assert(is_alpha(bs[i0]));
    if i0 < t {
        lemma_alpha_run(bs, i0 + 1, t);
    }
}

/// A stretch of positions without a match copies through unchanged.
proof fn lemma_mask_copies(bs: Seq<u8>, a: int, b: int)
    requires
        0 <= a <= b <= bs.len(),
        forall|t: int| a <= t < b ==> #[trigger] match_end_at(bs, t) <= t,
    ensures
        spec_mask_from(bs, a) == bs.subrange(a, b) + spec_mask_from(bs, b),
    decreases b - a,
{
    if a < b {
        lemma_mask_copies(bs, a + 1, b);
        assert(match_end_at(bs, a) <= a);
        assert(seq![bs[a]] + (bs.subrange(a + 1, b) + spec_mask_from(bs, b)) =~= bs.subrange(a, b)
            + spec_mask_from(bs, b));
    } else {
        assert(bs.subrange(a, a) =~= Seq::<u8>::empty());
        assert(bs.subrange(a, a) + spec_mask_from(bs, a) =~= spec_mask_from(bs, a));
    }
}

/// In valid UTF-8, the position after an ASCII byte is a character
/// boundary.
proof fn lemma_ascii_boundary_next(bs: Seq<u8>, k: int)
    requires
        vstd::utf8::valid_utf8(bs),
        0 <= k < bs.len(),
        bs[k] < 0x80,
    ensures
        vstd::utf8::is_char_boundary(bs, k + 1),
{
    vstd::utf8::is_char_boundary_iff_is_leading_byte(bs, k);
    assert(vstd::utf8::is_char_boundary(bs, k));
    vstd::utf8::valid_utf8_split(bs, k);
    let suffix = bs.subrange(k, bs.len() as int);
    assert(vstd::utf8::valid_utf8(suffix));
    assert(suffix[0] == bs[k]);
    assert(vstd::utf8::valid_first_scalar(suffix));
    assert(vstd::utf8::length_of_first_scalar(suffix) == 1);
    assert(vstd::utf8::is_char_boundary(suffix, 1)) by {
        reveal_with_fuel(vstd::utf8::is_char_boundary, 2);
    }
    if k + 1 == bs.len() {
        vstd::utf8::is_char_boundary_start_end_of_seq(bs);
    } else {
        vstd::utf8::is_char_boundary_iff_not_is_continuation_byte(suffix, 1);
        assert(suffix[1] == bs[k + 1]);
        vstd::utf8::is_char_boundary_iff_not_is_continuation_byte(bs, k + 1);
    }
}

/// In valid UTF-8, the single byte at an ASCII position is itself valid.
proof fn lemma_ascii_byte_valid(bs: Seq<u8>, k: int)
    requires
        vstd::utf8::valid_utf8(bs),
        0 <= k < bs.len(),
        bs[k] < 0x80,
    ensures
        vstd::utf8::valid_utf8(seq![bs[k]]),
{
    vstd::utf8::is_char_boundary_iff_is_leading_byte(bs, k);
    vstd::utf8::valid_utf8_split(bs, k);
    let suffix = bs.subrange(k, bs.len() as int);
    lemma_ascii_boundary_next(bs, k);
    assert(vstd::utf8::is_char_boundary(suffix, 1)) by {
        assert(suffix[0] == bs[k]);
        assert(vstd::utf8::valid_first_scalar(suffix));
        assert(vstd::utf8::length_of_first_scalar(suffix) == 1);
        reveal_with_fuel(vstd::utf8::is_char_boundary, 2);
    }
    vstd::utf8::valid_utf8_split(suffix, 1);
    assert(suffix.subrange(0, 1) =~= seq![bs[k]]);
}

/// The replacement block is the encoding of its eleven ASCII characters.
proof fn lemma_mask_block_valid()
    ensures
        vstd::utf8::valid_utf8(mask_bytes()),
{
    reveal_strlit("***@***.***");
    let cs = "***@***.***"@;
    assert(cs.len() == 11);
    assert(vstd::utf8::is_ascii_chars(cs)) by {
        assert(forall|i: int| 0 <= i < 11 ==> '\0' <= #[trigger] cs[i] <= '\u{7f}');
    }
    vstd::utf8::is_ascii_chars_encode_utf8(cs);
    assert(mask_bytes() =~= vstd::utf8::encode_utf8(cs)) by {
        assert(forall|i: int|
            0 <= i < 11 ==> vstd::utf8::encode_utf8(cs)[i] == (cs[i] as u8));
    }
    vstd::utf8::encode_utf8_valid_utf8(cs);
}

/// Masked valid text stays valid UTF-8: matches start and end at ASCII
/// bytes, replacements are ASCII, and multi-byte characters are copied
/// whole.
proof fn lemma_mask_from_valid(bs: Seq<u8>, i: int)
    requires
        vstd::utf8::valid_utf8(bs),
        0 <= i <= bs.len(),
        vstd::utf8::is_char_boundary(bs, i),
    ensures
        vstd::utf8::valid_utf8(spec_mask_from(bs, i)),
    decreases bs.len() - i,
{
    if i >= bs.len() {
        assert(spec_mask_from(bs, i) =~= Seq::<u8>::empty());
        assert(vstd::utf8::valid_utf8(Seq::<u8>::empty()));
    } else {
        let e = match_end_at(bs, i);
        if i < e <= bs.len() {
            // the matched span ends right after a letter, an ASCII byte
            assert(is_local(bs[i]));
            let j = local_end(bs, i);
            lemma_local_end_bounds(bs, i);
            assert(j < bs.len() && bs[j] == 0x40);
            let d = domain_end(bs, j + 1);
            let q = last_good_dot(bs, j, d - 1);
            assert(q >= 0);
            lemma_last_good_dot(bs, j, d - 1);
            assert(good_dot(bs, j, q));
            lemma_alpha_run(bs, q + 1, e - 1);
            assert(is_alpha(bs[e - 1]) && bs[e - 1] < 0x80);
            if e == bs.len() {
                vstd::utf8::is_char_boundary_start_end_of_seq(bs);
            } else {
                lemma_ascii_boundary_next(bs, e - 1);
            }
            assert(vstd::utf8::is_char_boundary(bs, e));
            lemma_mask_from_valid(bs, e);
            lemma_mask_block_valid();
            vstd::utf8::valid_utf8_concat(mask_bytes(), spec_mask_from(bs, e));
        } else {
            if bs[i] < 0x80 {
                // one ASCII byte is copied
                lemma_ascii_byte_valid(bs, i);
                lemma_ascii_boundary_next(bs, i);
                lemma_mask_from_valid(bs, i + 1);
                vstd::utf8::valid_utf8_concat(seq![bs[i]], spec_mask_from(bs, i + 1));
                assert(spec_mask_from(bs, i) == seq![bs[i]] + spec_mask_from(bs, i + 1));
            } else {
                // a whole multi-byte character is copied: none of its bytes
                // can start a match, and its end is the next boundary
                vstd::utf8::valid_utf8_split(bs, i);
                let suffix = bs.subrange(i, bs.len() as int);
                assert(vstd::utf8::valid_utf8(suffix));
                assert(vstd::utf8::valid_first_scalar(suffix));
                let w = vstd::utf8::length_of_first_scalar(suffix);
                assert(suffix[0] == bs[i]);
                assert(2 <= w <= 4);
                assert(i + w <= bs.len()) by {
                    assert(vstd::utf8::valid_leading_and_continuation_bytes_first_codepoint(
                        suffix,
                    ));
                    assert(suffix.len() >= w);
                }
                assert(forall|t: int|
                    1 <= t < w ==> vstd::utf8::is_continuation_byte(#[trigger] suffix[t])) by {
                    assert(vstd::utf8::valid_leading_and_continuation_bytes_first_codepoint(
                        suffix,
                    ));
                }
                assert forall|t: int| i <= t < i + w implies #[trigger] match_end_at(bs, t)
                    <= t by {
                    if t > i {
                        assert(bs[t] == suffix[t - i]);
                        assert(vstd::utf8::is_continuation_byte(bs[t]));
                        assert(!is_local(bs[t]));
                    } else {
                        assert(!is_local(bs[i]));
                    }
                }
                lemma_mask_copies(bs, i, i + w);
                // the end of the character is a boundary
                assert(vstd::utf8::is_char_boundary(suffix, w)) by {
                    reveal_with_fuel(vstd::utf8::is_char_boundary, 2);
                }
                if i + w == bs.len() {
                    vstd::utf8::is_char_boundary_start_end_of_seq(bs);
                } else {
                    vstd::utf8::is_char_boundary_iff_not_is_continuation_byte(suffix, w);
                    assert(suffix[w] == bs[i + w]);
                    vstd::utf8::is_char_boundary_iff_not_is_continuation_byte(bs, i + w);
                }
                assert(vstd::utf8::is_char_boundary(bs, i + w));
                lemma_mask_from_valid(bs, i + w);
                // the copied character bytes are valid on their own
                vstd::utf8::valid_utf8_split(suffix, w);
                assert(suffix.subrange(0, w) =~= bs.subrange(i, i + w));
                vstd::utf8::valid_utf8_concat(bs.subrange(i, i + w), spec_mask_from(bs, i + w));
            }
        }
    }
}

/// The masked bytes of any text are valid UTF-8, so the masked text is
/// always the decoding of the masked bytes: the clean fallback in
/// `spec_mask_chars` is never taken.
pub proof fn lemma_mask_chars_valid(cs: Seq<char>)
    ensures
        vstd::utf8::valid_utf8(spec_mask_from(vstd::utf8::encode_utf8(cs), 0)),
{
    let bs = vstd::utf8::encode_utf8(cs);
    vstd::utf8::encode_utf8_valid_utf8(cs);
    vstd::utf8::is_char_boundary_start_end_of_seq(bs);
    lemma_mask_from_valid(bs, 0);
}

/// No address survives masking, end to end: the UTF-8 bytes of the
/// masked text hold no address match at any position.
pub proof fn lemma_mask_chars_no_address(cs: Seq<char>)
    ensures
        forall|p: int|
            0 <= p ==> #[trigger] match_end_at(
                vstd::utf8::encode_utf8(spec_mask_chars(cs)),
                p,
            ) <= p,
{
    let bs = vstd::utf8::encode_utf8(cs);
    vstd::utf8::encode_utf8_valid_utf8(cs);
    lemma_mask_chars_valid(cs);
    vstd::utf8::decode_utf8_encode_utf8(spec_mask_from(bs, 0));
    lemma_mask_no_address(bs, 0);
}

} // verus!

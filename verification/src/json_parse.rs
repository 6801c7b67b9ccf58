//! JSON parser.
//!
//! `parse_json` reads the byte form produced by `JsonValue::encode` (and
//! the whitespace-tolerant variants of it) back into a document tree. Its
//! contract is completeness over the canonical encoding: whenever the input
//! equals `spec_encode(m)` for some model `m`, parsing succeeds and returns
//! a tree whose model is exactly `m`. Together with the encoder's contract
//! this yields the decode-of-encode round trip for every message.
use vstd::prelude::*;

use crate::json::BACKSLASH;
use crate::json::COLON;
use crate::json::COMMA;
use crate::json::DOT;
use crate::json::JsonValue;
use crate::json::LBRACE;
use crate::json::LBRACKET;
use crate::json::MINUS;
use crate::json::QUOTE;
use crate::json::RBRACE;
use crate::json::RBRACKET;
use crate::json::SpecJson;
use crate::json::abs_i64;
use crate::json::digit_byte;
use crate::json::enc_i64;
use crate::json::enc_milli;
use crate::json::enc_str;
use crate::json::esc;
use crate::json::esc1;
use crate::json::hex_digit_byte;
use crate::json::jv_model;
use crate::json::jv_model_list;
use crate::json::jv_model_members;
use crate::json::lemma_jv_model_list;
use crate::json::lemma_jv_model_members;
use crate::json::spec_dec;
use crate::json::spec_dec3;
use crate::json::spec_encode;
use crate::json::spec_encode_list;
use crate::json::spec_encode_members;

verus! {

/// JSON insignificant whitespace.
pub open spec fn is_ws(b: u8) -> bool {
    b == 0x20 || b == 0x09 || b == 0x0a || b == 0x0d
}

/// Decimal digit byte.
pub open spec fn is_digit(b: u8) -> bool {
    0x30 <= b <= 0x39
}

/// The end of the whitespace run starting at `i`.
pub open spec fn spec_ws_end(s: Seq<u8>, i: int) -> int
    decreases s.len() - i,
{
    if 0 <= i < s.len() && is_ws(s[i]) {
        spec_ws_end(s, i + 1)
    } else {
        i
    }
}

/// A byte that can begin a JSON document.
pub open spec fn spec_doc_opener(b: u8) -> bool {
    b == 0x6e || b == 0x74 || b == 0x66 || b == QUOTE || b == MINUS || is_digit(b) || b
        == LBRACKET || b == LBRACE
}

/// A payload that is plainly not a JSON document: after any leading
/// whitespace it ends, starts with a byte no document starts with, or
/// opens a literal that is not `null`, `true` or `false`. Parsing such a
/// payload always fails.
pub open spec fn spec_plainly_malformed(s: Seq<u8>) -> bool {
    let i = spec_ws_end(s, 0);
    ||| i >= s.len()
    ||| !spec_doc_opener(s[i])
    ||| (s[i] == 0x6e && !(i + 4 <= s.len() && s[i + 1] == 0x75 && s[i + 2] == 0x6c && s[i + 3]
        == 0x6c))
    ||| (s[i] == 0x74 && !(i + 4 <= s.len() && s[i + 1] == 0x72 && s[i + 2] == 0x75 && s[i + 3]
        == 0x65))
    ||| (s[i] == 0x66 && !(i + 5 <= s.len() && s[i + 1] == 0x61 && s[i + 2] == 0x6c && s[i + 3]
        == 0x73 && s[i + 4] == 0x65))
}

/// The suffix of `s` from position `i`.
pub open spec fn tail_from(s: Seq<u8>, i: int) -> Seq<u8> {
    s.subrange(i, s.len() as int)
}

/// What may follow a complete value: nothing, or a separator or closer.
pub open spec fn can_follow(rest: Seq<u8>) -> bool {
    rest.len() == 0 || rest[0] == COMMA || rest[0] == RBRACKET || rest[0] == RBRACE
}

/// The end of the digit run starting at `i`.
pub open spec fn digits_end(bs: Seq<u8>, i: int) -> int
    decreases bs.len() - i,
{
    if 0 <= i < bs.len() && is_digit(bs[i]) {
        digits_end(bs, i + 1)
    } else {
        i
    }
}

/// Where a numeric lexeme's integer digits start: after its sign.
pub open spec fn num_int_start(bs: Seq<u8>) -> int {
    if bs.len() > 0 && bs[0] == MINUS {
        1
    } else {
        0
    }
}

/// Where a numeric lexeme's integer digits end.
pub open spec fn num_int_end(bs: Seq<u8>) -> int {
    digits_end(bs, num_int_start(bs))
}

/// Whether a numeric lexeme carries a fractional part.
pub open spec fn num_has_frac(bs: Seq<u8>) -> bool {
    num_int_end(bs) < bs.len() && bs[num_int_end(bs)] == DOT
}

/// Where a numeric lexeme's fractional digits end.
pub open spec fn num_frac_end(bs: Seq<u8>) -> int {
    if num_has_frac(bs) {
        digits_end(bs, num_int_end(bs) + 1)
    } else {
        num_int_end(bs)
    }
}

/// Whether a numeric lexeme carries an exponent.
pub open spec fn num_has_exp(bs: Seq<u8>) -> bool {
    num_frac_end(bs) < bs.len() && (bs[num_frac_end(bs)] == 0x65 || bs[num_frac_end(bs)] == 0x45)
}

/// Where a numeric lexeme's exponent digits start: after the marker and
/// its optional sign.
pub open spec fn num_exp_digits_start(bs: Seq<u8>) -> int {
    let q = num_frac_end(bs) + 1;
    if q < bs.len() && (bs[q] == 0x2b || bs[q] == MINUS) {
        q + 1
    } else {
        q
    }
}

/// Where a numeric lexeme's exponent digits end.
pub open spec fn num_exp_end(bs: Seq<u8>) -> int {
    digits_end(bs, num_exp_digits_start(bs))
}

/// The number of fractional digits of a numeric lexeme.
pub open spec fn num_frac_count(bs: Seq<u8>) -> int {
    num_frac_end(bs) - (num_int_end(bs) + 1)
}

/// The integer-part value of a numeric lexeme.
pub open spec fn num_units(bs: Seq<u8>) -> nat {
    digits_val(bs.subrange(num_int_start(bs), num_int_end(bs)))
}

/// Whether a numeric lexeme is negative.
pub open spec fn num_neg(bs: Seq<u8>) -> bool {
    num_int_start(bs) == 1
}

/// The signed bound a magnitude must meet.
pub open spec fn num_sign_bound(neg: bool) -> nat {
    if neg {
        0x8000000000000000
    } else {
        0x7fffffffffffffff
    }
}

/// The thousandths magnitude of a lexeme with one to three fractional
/// digits.
pub open spec fn num_milli_magnitude(bs: Seq<u8>) -> nat {
    let f = digits_val(bs.subrange(num_int_end(bs) + 1, num_frac_end(bs)));
    let scaled = if num_frac_count(bs) == 1 {
        f * 100
    } else if num_frac_count(bs) == 2 {
        f * 10
    } else {
        f
    };
    num_units(bs) * 1000 + scaled
}

/// Whether the parser holds this lexeme as a bounded number (`I64` or
/// `Milli`) rather than as a raw literal.
pub open spec fn num_is_bounded(bs: Seq<u8>) -> bool {
    if num_has_exp(bs) {
        false
    } else if num_has_frac(bs) {
        1 <= num_frac_count(bs) <= 3 && num_units(bs) <= (u64::MAX - 999) / 1000
            && num_milli_magnitude(bs) <= num_sign_bound(num_neg(bs))
    } else {
        num_units(bs) <= num_sign_bound(num_neg(bs))
    }
}

/// A well-formed raw numeric lexeme: a legal number shape that the
/// bounded model does not hold, spanning the whole sequence.
pub open spec fn wf_numlit(bs: Seq<u8>) -> bool {
    &&& num_int_end(bs) > num_int_start(bs)
    &&& (num_has_frac(bs) ==> num_frac_count(bs) >= 1)
    &&& (num_has_exp(bs) ==> num_exp_end(bs) > num_exp_digits_start(bs))
    &&& (if num_has_exp(bs) {
        num_exp_end(bs)
    } else {
        num_frac_end(bs)
    }) == bs.len()
    &&& !num_is_bounded(bs)
}

/// A well-formed document model: every raw numeric literal in it is one
/// the parser itself would produce.
pub open spec fn wf_json(m: SpecJson) -> bool
    decreases m,
{
    match m {
        SpecJson::NumLit(cs) => wf_numlit(vstd::utf8::encode_utf8(cs)),
        SpecJson::Arr(items) => wf_list(items),
        SpecJson::Obj(ms) => wf_members(ms),
        _ => true,
    }
}

/// Well-formedness of every item of a list.
pub open spec fn wf_list(items: Seq<SpecJson>) -> bool
    decreases items,
{
    if items.len() == 0 {
        true
    } else {
        wf_json(items[0]) && wf_list(items.drop_first())
    }
}

/// Well-formedness of every member value.
pub open spec fn wf_members(ms: Seq<(Seq<char>, SpecJson)>) -> bool
    decreases ms,
{
    if ms.len() == 0 {
        true
    } else {
        wf_json(ms[0].1) && wf_members(ms.drop_first())
    }
}

/// Every item of a well-formed list is well-formed.
pub proof fn lemma_wf_list(items: Seq<SpecJson>)
    requires
        wf_list(items),
    ensures
        forall|i: int| 0 <= i < items.len() ==> wf_json(#[trigger] items[i]),
    decreases items.len(),
{
    if items.len() > 0 {
        lemma_wf_list(items.drop_first());
        assert forall|i: int| 0 <= i < items.len() implies wf_json(#[trigger] items[i]) by {
            if i > 0 {
                assert(items.drop_first()[i - 1] == items[i]);
            }
        }
    }
}

/// Every member value of a well-formed member list is well-formed.
pub proof fn lemma_wf_members(ms: Seq<(Seq<char>, SpecJson)>)
    requires
        wf_members(ms),
    ensures
        forall|i: int| 0 <= i < ms.len() ==> wf_json(#[trigger] ms[i].1),
    decreases ms.len(),
{
    if ms.len() > 0 {
        lemma_wf_members(ms.drop_first());
        assert forall|i: int| 0 <= i < ms.len() implies wf_json(#[trigger] ms[i].1) by {
            if i > 0 {
                assert(ms.drop_first()[i - 1] == ms[i]);
            }
        }
    }
}

/// The input at position `i` starts with the canonical encoding of a
/// well-formed `m`, followed by `rest`, which cannot be mistaken for
/// more of the value.
pub open spec fn encodes_to(s: Seq<u8>, i: int, m: SpecJson, rest: Seq<u8>) -> bool {
    wf_json(m) && tail_from(s, i) == spec_encode(m) + rest && can_follow(rest)
}

/// The input at position `i` starts with a canonical string literal.
pub open spec fn str_encodes_to(s: Seq<u8>, i: int, cs: Seq<char>, rest: Seq<u8>) -> bool {
    tail_from(s, i) == enc_str(cs) + rest
}

/// Value of a digit byte; zero for anything else.
pub open spec fn digit_val(b: u8) -> nat {
    if is_digit(b) {
        (b - 0x30) as nat
    } else {
        0
    }
}

/// The number a digit sequence denotes, most significant digit first.
pub open spec fn digits_val(ds: Seq<u8>) -> nat
    decreases ds.len(),
{
    if ds.len() == 0 {
        0
    } else {
        digits_val(ds.drop_last()) * 10 + digit_val(ds.last())
    }
}

/// Decimal digits are digits, and at least one of them.
pub proof fn lemma_spec_dec_digits(n: nat)
    ensures
        spec_dec(n).len() >= 1,
        forall|t: int| 0 <= t < spec_dec(n).len() ==> is_digit(#[trigger] spec_dec(n)[t]),
    decreases n,
{
    if n >= 10 {
        lemma_spec_dec_digits(n / 10);
        assert forall|t: int| 0 <= t < spec_dec(n).len() implies is_digit(
            #[trigger] spec_dec(n)[t],
        ) by {
            if t < spec_dec(n / 10).len() {
                assert(spec_dec(n)[t] == spec_dec(n / 10)[t]);
            }
        }
    }
}

/// The decimal digits of `n` denote `n`.
pub proof fn lemma_digits_val_dec(n: nat)
    ensures
        digits_val(spec_dec(n)) == n,
    decreases n,
{
    if n < 10 {
        assert(spec_dec(n) == seq![digit_byte(n)]);
        assert(spec_dec(n).drop_last() =~= Seq::<u8>::empty());
        assert(digits_val(Seq::<u8>::empty()) == 0);
        assert(spec_dec(n).last() == digit_byte(n));
        assert(0x30 + n <= 0x39);
        assert(digit_val(digit_byte(n)) == n);
        assert(digits_val(spec_dec(n)) == 0 * 10 + n);
    } else {
        lemma_digits_val_dec(n / 10);
        assert(spec_dec(n).drop_last() =~= spec_dec(n / 10));
        assert(spec_dec(n).last() == digit_byte(n % 10));
        assert(digit_val(digit_byte(n % 10)) == n % 10);
        assert(digits_val(spec_dec(n)) == (n / 10) * 10 + n % 10);
        vstd::arithmetic::div_mod::lemma_fundamental_div_mod(n as int, 10);
    }
}

/// Splitting a suffix: when the input from `i` starts with `p`, the bytes
/// of `p` lie at `i`, and the input from `i + |p|` is the remainder.
pub proof fn lemma_tail_split(s: Seq<u8>, i: int, p: Seq<u8>, q: Seq<u8>)
    requires
        0 <= i <= s.len(),
        tail_from(s, i) == p + q,
    ensures
        i + p.len() + q.len() == s.len(),
        tail_from(s, i + p.len()) == q,
        forall|t: int| 0 <= t < p.len() ==> s[i + t] == p[t],
{
    assert(tail_from(s, i).len() == s.len() - i);
    assert forall|t: int| 0 <= t < p.len() implies s[i + t] == p[t] by {
        assert(tail_from(s, i)[t] == s[i + t]);
        assert((p + q)[t] == p[t]);
    }
    assert(tail_from(s, i + p.len()) =~= q) by {
        assert forall|t: int| 0 <= t < q.len() implies tail_from(s, i + p.len())[t] == q[t] by {
            assert(tail_from(s, i + p.len())[t] == s[i + p.len() + t]);
            assert(s[i + p.len() + t] == tail_from(s, i)[p.len() + t]);
            assert((p + q)[p.len() + t] == q[t]);
        }
    }
}

/// Short digit runs are bounded by their width.
pub proof fn lemma_digits_val_small(ds: Seq<u8>)
    ensures
        ds.len() <= 1 ==> digits_val(ds) <= 9,
        ds.len() <= 2 ==> digits_val(ds) <= 99,
        ds.len() <= 3 ==> digits_val(ds) <= 999,
{
    if ds.len() == 1 {
        assert(digits_val(ds.drop_last()) == 0);
    } else if ds.len() == 2 {
        assert(digits_val(ds.drop_last().drop_last()) == 0);
        assert(digits_val(ds.drop_last()) <= 9);
    } else if ds.len() == 3 {
        assert(digits_val(ds.drop_last().drop_last().drop_last()) == 0);
        assert(digits_val(ds.drop_last().drop_last()) <= 9);
        assert(digits_val(ds.drop_last()) <= 99);
    }
}

/// Three zero-padded digits denote their value.
pub proof fn lemma_dec3_val(f: nat)
    requires
        f < 1000,
    ensures
        digits_val(spec_dec3(f)) == f,
        spec_dec3(f).len() == 3,
        forall|t: int| 0 <= t < 3 ==> is_digit(#[trigger] spec_dec3(f)[t]),
{
    let ds = spec_dec3(f);
    let b2 = digit_byte(f / 100 % 10);
    let b1 = digit_byte(f / 10 % 10);
    let b0 = digit_byte(f % 10);
    assert(ds == seq![b2, b1, b0]);
    assert(ds.last() == b0);
    assert(ds.drop_last() =~= seq![b2, b1]);
    assert(seq![b2, b1].last() == b1);
    assert(seq![b2, b1].drop_last() =~= seq![b2]);
    assert(seq![b2].last() == b2);
    assert(seq![b2].drop_last() =~= Seq::<u8>::empty());
    assert(digits_val(Seq::<u8>::empty()) == 0);
    assert(digit_val(b2) == f / 100 % 10);
    assert(digit_val(b1) == f / 10 % 10);
    assert(digit_val(b0) == f % 10);
    assert(digits_val(seq![b2]) == f / 100 % 10);
    assert(digits_val(seq![b2, b1]) == (f / 100 % 10) * 10 + f / 10 % 10);
    assert(digits_val(ds) == ((f / 100 % 10) * 10 + f / 10 % 10) * 10 + f % 10);
    assert(((f / 100 % 10) * 10 + f / 10 % 10) * 10 + f % 10 == f) by (nonlinear_arith)
        requires
            f < 1000,
    ;
}

/// The first byte of a canonical encoding names its shape; no encoding is
/// empty, and none starts with whitespace or a separator.
pub proof fn lemma_enc_first(m: SpecJson)
    requires
        wf_json(m),
    ensures
        spec_encode(m).len() >= 1,
        m is Null <==> spec_encode(m)[0] == 0x6e,
        m is Bool && m->Bool_0 <==> spec_encode(m)[0] == 0x74,
        m is Bool && !m->Bool_0 <==> spec_encode(m)[0] == 0x66,
        (m is I64 || m is Milli || m is NumLit) <==> (spec_encode(m)[0] == MINUS || is_digit(
            spec_encode(m)[0],
        )),
        m is Str <==> spec_encode(m)[0] == QUOTE,
        m is Arr <==> spec_encode(m)[0] == LBRACKET,
        m is Obj <==> spec_encode(m)[0] == LBRACE,
        !is_ws(spec_encode(m)[0]),
        spec_encode(m)[0] != COMMA,
        spec_encode(m)[0] != RBRACKET,
        spec_encode(m)[0] != RBRACE,
        spec_encode(m)[0] != COLON,
{
    match m {
        SpecJson::I64(i) => {
            lemma_spec_dec_digits(abs_i64(i));
            if i >= 0 {
                assert(spec_encode(m)[0] == spec_dec(abs_i64(i))[0]);
            }
        }
        SpecJson::Milli(v) => {
            lemma_spec_dec_digits(abs_i64(v) / 1000);
            if v >= 0 {
                assert(spec_encode(m)[0] == spec_dec(abs_i64(v) / 1000)[0]);
            }
        }
        SpecJson::NumLit(cs) => {
            let bs = vstd::utf8::encode_utf8(cs);
            assert(num_int_end(bs) > num_int_start(bs));
            if num_int_start(bs) == 0 {
                assert(digits_end(bs, 0) > 0);
                assert(is_digit(bs[0]));
            } else {
                assert(bs[0] == MINUS);
            }
        }
        _ => {}
    }
}

/// Skips insignificant whitespace.
fn skip_ws(s: &[u8], i: usize) -> (j: usize)
    requires
        i <= s@.len(),
    ensures
        i <= j <= s@.len(),
        forall|t: int| i <= t < j ==> is_ws(s@[t]),
        j < s@.len() ==> !is_ws(s@[j as int]),
        (i < s@.len() && !is_ws(s@[i as int])) ==> j == i,
{
    let mut j: usize = i;
    while j < s.len() && (s[j] == 0x20 || s[j] == 0x09 || s[j] == 0x0a || s[j] == 0x0d)
        invariant
            i <= j <= s@.len(),
            forall|t: int| i <= t < j ==> is_ws(s@[t]),
        decreases s@.len() - j,
    {
        j = j + 1;
    }
    j
}

/// A scanned whitespace run is the whole run.
proof fn lemma_ws_end_run(s: Seq<u8>, a: int, j: int)
    requires
        0 <= a <= j <= s.len(),
        forall|t: int| a <= t < j ==> is_ws(s[t]),
        j == s.len() || !is_ws(s[j]),
    ensures
        spec_ws_end(s, a) == j,
    decreases j - a,
{
    if a < j {
        lemma_ws_end_run(s, a + 1, j);
    }
}

/// Scans a run of decimal digits, accumulating their value.
///
/// Returns the end of the run, whether the value fits in a `u64`, and the
/// value when it fits.
pub fn scan_digits(s: &[u8], i: usize) -> (r: (usize, bool, u64))
    requires
        i <= s@.len(),
    ensures
        ({
            let (j, ok, acc) = r;
            &&& i <= j <= s@.len()
            &&& forall|t: int| i <= t < j ==> is_digit(s@[t])
            &&& (j < s@.len() ==> !is_digit(s@[j as int]))
            &&& (ok ==> acc as nat == digits_val(s@.subrange(i as int, j as int)))
            &&& (!ok ==> digits_val(s@.subrange(i as int, j as int)) > u64::MAX)
        }),
{
    let mut j: usize = i;
    let mut ok: bool = true;
    let mut acc: u64 = 0;
    proof {
        assert(s@.subrange(i as int, i as int) =~= Seq::<u8>::empty());
    }
    while j < s.len() && 0x30 <= s[j] && s[j] <= 0x39
        invariant
            i <= j <= s@.len(),
            forall|t: int| i <= t < j ==> is_digit(s@[t]),
            ok ==> acc as nat == digits_val(s@.subrange(i as int, j as int)),
            !ok ==> digits_val(s@.subrange(i as int, j as int)) > u64::MAX,
        decreases s@.len() - j,
    {
        let d: u64 = (s[j] - 0x30) as u64;
        let ghost prev = s@.subrange(i as int, j as int);
        proof {
            assert(s@.subrange(i as int, j + 1 as int) =~= prev + seq![s@[j as int]]);
            assert((prev + seq![s@[j as int]]).drop_last() =~= prev);
            assert(digits_val(s@.subrange(i as int, j + 1 as int)) == digits_val(prev) * 10
                + digit_val(s@[j as int]));
        }
        if ok {
            if acc <= (u64::MAX - d) / 10 {
                proof {
                    assert(acc * 10 + d <= u64::MAX) by (nonlinear_arith)
                        requires
                            acc <= (u64::MAX - d) / 10,
                            d <= 9,
                    ;
                }
                acc = acc * 10 + d;
            } else {
                proof {
                    assert(acc * 10 + d > u64::MAX) by (nonlinear_arith)
                        requires
                            acc > (u64::MAX - d) / 10,
                            d <= 9,
                    ;
                }
                ok = false;
            }
        } else {
            proof {
                assert(digits_val(prev) * 10 + digit_val(s@[j as int]) > u64::MAX)
                    by (nonlinear_arith)
                    requires
                        digits_val(prev) > u64::MAX,
                ;
            }
        }
        j = j + 1;
    }
    (j, ok, acc)
}

/// Converts a parsed magnitude and sign into an `i64`, when it fits.
fn signed_of(neg: bool, magnitude: u64) -> (r: Option<i64>)
    ensures
        match r {
            Some(v) => (v < 0 <==> (neg && magnitude > 0)) && abs_i64(v) == magnitude as nat,
            None => (neg && magnitude > 9223372036854775808u64) || (!neg && magnitude
                > i64::MAX as u64),
        },
{
    if neg {
        if magnitude > 9223372036854775808u64 {
            None
        } else if magnitude == 9223372036854775808u64 {
            Some(i64::MIN)
        } else {
            Some(-(magnitude as i64))
        }
    } else {
        if magnitude > i64::MAX as u64 {
            None
        } else {
            Some(magnitude as i64)
        }
    }
}

/// When the input carries a canonical number, the digit run ends exactly at
/// the end of its digits, and carries its value.
proof fn lemma_digit_run(s: Seq<u8>, start: int, ds: Seq<u8>, after: Seq<u8>, j: int)
    requires
        0 <= start <= j <= s.len(),
        tail_from(s, start) == ds + after,
        ds.len() >= 1,
        forall|t: int| 0 <= t < ds.len() ==> is_digit(#[trigger] ds[t]),
        after.len() > 0 ==> !is_digit(after[0]),
        forall|t: int| start <= t < j ==> is_digit(s[t]),
        j < s.len() ==> !is_digit(s[j]),
    ensures
        j == start + ds.len(),
        s.subrange(start, j) == ds,
{
    lemma_tail_split(s, start, ds, after);
    let run_end = start + ds.len();
    if j < run_end {
        assert(is_digit(ds[j - start]));
        assert(s[start + (j - start)] == ds[j - start]);
    }
    if j > run_end {
        if after.len() == 0 {
        } else {
            assert(tail_from(s, run_end)[0] == s[run_end]);
            assert(is_digit(s[run_end]));
        }
    }
    assert(s.subrange(start, j) =~= ds);
}

/// ASCII bytes alone always form valid UTF-8.
proof fn lemma_ascii_bytes_valid(bs: Seq<u8>)
    requires
        forall|t: int| 0 <= t < bs.len() ==> #[trigger] bs[t] < 0x80,
    ensures
        vstd::utf8::valid_utf8(bs),
    decreases bs.len(),
{
    if bs.len() > 0 {
        assert(vstd::utf8::is_leading_byte_width_1(bs[0]));
        assert(vstd::utf8::valid_leading_and_continuation_bytes_first_codepoint(bs));
        assert(vstd::utf8::length_of_first_codepoint(bs) == 1);
        let b0 = bs[0];
        assert(vstd::utf8::codepoint_width_1(b0) < 0x80) by {
            assert(b0 & 0x7f < 0x80) by (bit_vector);
        }
        assert(vstd::utf8::valid_first_scalar(bs));
        let rest = vstd::utf8::pop_first_scalar(bs);
        assert(rest =~= bs.subrange(1, bs.len() as int));
        assert(forall|t: int| 0 <= t < rest.len() ==> #[trigger] rest[t] < 0x80) by {
            assert(forall|t: int|
                0 <= t < rest.len() ==> rest[t] == #[trigger] bs[t + 1]);
        }
        lemma_ascii_bytes_valid(rest);
    }
}

/// Copies an all-ASCII span of the input into a string whose encoding is
/// exactly that span.
fn take_lexeme(s: &[u8], i: usize, end: usize) -> (r: String)
    requires
        i <= end <= s@.len(),
        forall|t: int| i <= t < end ==> s@[t] < 0x80,
    ensures
        vstd::utf8::encode_utf8(r@) == s@.subrange(i as int, end as int),
{
    let mut buf: Vec<u8> = Vec::new();
    let mut k: usize = i;
    proof {
        assert(buf@ =~= s@.subrange(i as int, i as int));
    }
    while k < end
        invariant
            i <= k <= end <= s@.len(),
            buf@ == s@.subrange(i as int, k as int),
            forall|t: int| i <= t < end ==> s@[t] < 0x80,
        decreases end - k,
    {
        buf.push(s[k]);
        proof {
            assert(buf@ =~= s@.subrange(i as int, k + 1 as int));
        }
        k = k + 1;
    }
    let ghost bytes = buf@;
    proof {
        assert(forall|t: int| 0 <= t < bytes.len() ==> #[trigger] bytes[t] < 0x80) by {
            assert(forall|t: int|
                0 <= t < bytes.len() ==> bytes[t] == #[trigger] s@[i + t]);
        }
        lemma_ascii_bytes_valid(bytes);
    }
    match string_from_utf8(buf) {
        Some(st) => {
            proof {
                vstd::utf8::decode_utf8_encode_utf8(bytes);
            }
            st
        }
        None => {
            proof {
                assert(false);
            }
            String::new()
        }
    }
}

/// Properties of a digit run's end.
proof fn lemma_digits_end_props(bs: Seq<u8>, a: int)
    requires
        0 <= a <= bs.len(),
    ensures
        a <= digits_end(bs, a) <= bs.len(),
        forall|t: int| a <= t < digits_end(bs, a) ==> is_digit(#[trigger] bs[t]),
        digits_end(bs, a) < bs.len() ==> !is_digit(bs[digits_end(bs, a)]),
    decreases bs.len() - a,
{
    if a < bs.len() && is_digit(bs[a]) {
        lemma_digits_end_props(bs, a + 1);
    }
}

/// Aligns one scanned digit run of the input with a digit run inside the
/// encoded lexeme window: the scan stops exactly at the lexeme's run end
/// and carries its value.
proof fn lemma_scan_in_window(
    s: Seq<u8>,
    i: int,
    bs: Seq<u8>,
    rest: Seq<u8>,
    a: int,
    j: int,
    ok: bool,
    acc: u64,
)
    requires
        0 <= i,
        i + bs.len() + rest.len() == s.len(),
        forall|t: int| 0 <= t < bs.len() ==> s[i + t] == #[trigger] bs[t],
        forall|t: int| 0 <= t < rest.len() ==> s[i + bs.len() + t] == #[trigger] rest[t],
        can_follow(rest),
        0 <= a <= bs.len(),
        i + a <= j <= s.len(),
        forall|t: int| i + a <= t < j ==> is_digit(s[t]),
        j < s.len() ==> !is_digit(s[j]),
        ok ==> acc as nat == digits_val(s.subrange(i + a, j)),
        !ok ==> digits_val(s.subrange(i + a, j)) > u64::MAX,
    ensures
        j == i + digits_end(bs, a),
        ok ==> acc as nat == digits_val(bs.subrange(a, digits_end(bs, a))),
        !ok ==> digits_val(bs.subrange(a, digits_end(bs, a))) > u64::MAX,
    decreases 0int,
{
    lemma_digits_end_props(bs, a);
    let de = digits_end(bs, a);
    if j < i + de {
        assert(is_digit(bs[j - i]));
        assert(s[i + (j - i)] == bs[j - i]);
    }
    if j > i + de {
        if de < bs.len() {
            assert(s[i + de] == bs[de]);
            assert(is_digit(s[i + de]));
        } else {
            if rest.len() == 0 {
                assert(i + de == s.len());
            } else {
                assert(s[i + bs.len() + 0] == rest[0]);
                assert(is_digit(s[i + de]));
            }
        }
    }
    assert(j == i + de);
    assert(s.subrange(i + a, j) =~= bs.subrange(a, de));
}

/// Parses a number at `i`: a bounded integer or thousandths value when
/// the lexeme fits the model, the raw lexeme otherwise.
#[verifier::loop_isolation(false)]
#[verifier::rlimit(100)]
#[verifier::spinoff_prover]
fn parse_number(s: &[u8], i: usize) -> (r: Option<(JsonValue, usize)>)
    requires
        i <= s@.len(),
    ensures
        (match r {
            Some((v, j)) => i < j <= s@.len(),
            None => true,
        }),
        forall|m: SpecJson, rest: Seq<u8>|
            (encodes_to(s@, i as int, m, rest) && (m is I64 || m is Milli || m is NumLit)) ==> (
            match r {
                Some((v, j)) => v.deep_view() == m && j == i + spec_encode(m).len(),
                None => false,
            }),
{
    let slen = s.len();
    if i >= slen {
        proof {
            assert forall|m: SpecJson, rest: Seq<u8>|
                (encodes_to(s@, i as int, m, rest) && (m is I64 || m is Milli || m is NumLit))
                implies false by {
                lemma_enc_first(m);
                assert(tail_from(s@, i as int).len() == 0);
                assert((spec_encode(m) + rest).len() >= 1);
            }
        }
        return None;
    }
    let neg = s[i] == MINUS;
    let start = if neg {
        i + 1
    } else {
        i
    };
    let (j, ok, units) = scan_digits(s, start);
    if j == start {
        proof {
            assert forall|m: SpecJson, rest: Seq<u8>|
                (encodes_to(s@, i as int, m, rest) && (m is I64 || m is Milli || m is NumLit))
                implies false by {
                if m is NumLit {
                    lemma_numlit_scan(s@, i as int, m, rest, neg, start as int, j as int, ok, units);
                } else {
                    lemma_number_agrees(s@, i as int, m, rest, neg, start as int, j as int, ok, units);
                }
            }
        }
        return None;
    }
    let has_frac = j < slen && s[j] == DOT;
    let (j2, ok2, frac) = if has_frac {
        scan_digits(s, j + 1)
    } else {
        (j, true, 0u64)
    };
    let count = j2 - (if has_frac {
        j + 1
    } else {
        j
    });
    if has_frac && count < 1 {
        proof {
            assert forall|m: SpecJson, rest: Seq<u8>|
                (encodes_to(s@, i as int, m, rest) && (m is I64 || m is Milli || m is NumLit))
                implies false by {
                lemma_number_case(
                    s@, i as int, m, rest, neg, start as int, j as int, ok, units, j2 as int,
                    ok2, frac,
                );
            }
        }
        return None;
    }
    let pos = j2;
    let has_exp = pos < slen && (s[pos] == 0x65 || s[pos] == 0x45);
    if has_exp {
        let es0 = pos + 1;
        let es = if es0 < slen && (s[es0] == 0x2b || s[es0] == MINUS) {
            es0 + 1
        } else {
            es0
        };
        let (j3, ok3, acc3) = scan_digits(s, es);
        if j3 == es {
            proof {
                assert forall|m: SpecJson, rest: Seq<u8>|
                    (encodes_to(s@, i as int, m, rest) && (m is I64 || m is Milli || m is NumLit))
                    implies false by {
                    lemma_number_case(
                        s@, i as int, m, rest, neg, start as int, j as int, ok, units,
                        j2 as int, ok2, frac,
                    );
                    if m is NumLit {
                        lemma_numlit_exp(
                            s@, i as int, m, rest, pos as int, es as int, j3 as int, ok3, acc3,
                        );
                    }
                }
            }
            return None;
        }
        let lexeme = take_lexeme(s, i, j3);
        proof {
            assert forall|m: SpecJson, rest: Seq<u8>|
                (encodes_to(s@, i as int, m, rest) && (m is I64 || m is Milli || m is NumLit))
                implies (JsonValue::NumLit(lexeme).deep_view() == m && j3 == i + spec_encode(
                m,
            ).len()) by {
                lemma_number_case(
                    s@, i as int, m, rest, neg, start as int, j as int, ok, units, j2 as int,
                    ok2, frac,
                );
                if m is NumLit {
                    lemma_numlit_exp(
                        s@, i as int, m, rest, pos as int, es as int, j3 as int, ok3, acc3,
                    );
                    let bs = vstd::utf8::encode_utf8(m->NumLit_0);
                    assert(s@.subrange(i as int, j3 as int) =~= bs);
                    vstd::utf8::encode_utf8_decode_utf8(m->NumLit_0);
                    vstd::utf8::encode_utf8_decode_utf8(lexeme@);
                }
            }
        }
        return Some((JsonValue::NumLit(lexeme), j3));
    }
    // no exponent: bounded when the fraction is short and the value fits
    let end_no_exp = j2;
    if has_frac && count > 3 {
        let lexeme = take_lexeme(s, i, end_no_exp);
        proof {
            assert forall|m: SpecJson, rest: Seq<u8>|
                (encodes_to(s@, i as int, m, rest) && (m is I64 || m is Milli || m is NumLit))
                implies (JsonValue::NumLit(lexeme).deep_view() == m && end_no_exp == i
                + spec_encode(m).len()) by {
                lemma_number_case(
                    s@, i as int, m, rest, neg, start as int, j as int, ok, units, j2 as int,
                    ok2, frac,
                );
                if m is NumLit {
                    let bs = vstd::utf8::encode_utf8(m->NumLit_0);
                    assert(s@.subrange(i as int, end_no_exp as int) =~= bs);
                    vstd::utf8::encode_utf8_decode_utf8(m->NumLit_0);
                    vstd::utf8::encode_utf8_decode_utf8(lexeme@);
                }
            }
        }
        return Some((JsonValue::NumLit(lexeme), end_no_exp));
    }
    let bounded: Option<i64> = if has_frac {
        proof {
            lemma_digits_val_small(s@.subrange(j + 1 as int, j2 as int));
        }
        if ok && units <= (u64::MAX - 999) / 1000 {
            let scaled: u64 = if count == 1 {
                frac * 100
            } else if count == 2 {
                frac * 10
            } else {
                frac
            };
            proof {
                assert(units * 1000 + scaled <= u64::MAX) by (nonlinear_arith)
                    requires
                        units <= (u64::MAX - 999) / 1000,
                        scaled <= 999,
                ;
            }
            signed_of(neg, units * 1000 + scaled)
        } else {
            None
        }
    } else {
        if ok {
            signed_of(neg, units)
        } else {
            None
        }
    };
    match bounded {
        Some(n) => {
            let v = if has_frac {
                JsonValue::Milli(n)
            } else {
                JsonValue::I64(n)
            };
            proof {
                assert forall|m: SpecJson, rest: Seq<u8>|
                    (encodes_to(s@, i as int, m, rest) && (m is I64 || m is Milli || m is NumLit))
                    implies (v.deep_view() == m && end_no_exp == i + spec_encode(m).len()) by {
                    lemma_number_case(
                        s@, i as int, m, rest, neg, start as int, j as int, ok, units,
                        j2 as int, ok2, frac,
                    );
                }
            }
            Some((v, end_no_exp))
        }
        None => {
            let lexeme = take_lexeme(s, i, end_no_exp);
            proof {
                assert forall|m: SpecJson, rest: Seq<u8>|
                    (encodes_to(s@, i as int, m, rest) && (m is I64 || m is Milli || m is NumLit))
                    implies (JsonValue::NumLit(lexeme).deep_view() == m && end_no_exp == i
                    + spec_encode(m).len()) by {
                    lemma_number_case(
                        s@, i as int, m, rest, neg, start as int, j as int, ok, units,
                        j2 as int, ok2, frac,
                    );
                    if m is NumLit {
                        let bs = vstd::utf8::encode_utf8(m->NumLit_0);
                        assert(s@.subrange(i as int, end_no_exp as int) =~= bs);
                        vstd::utf8::encode_utf8_decode_utf8(m->NumLit_0);
                        vstd::utf8::encode_utf8_decode_utf8(lexeme@);
                    }
                }
            }
            Some((JsonValue::NumLit(lexeme), end_no_exp))
        }
    }
}

/// Under a raw-lexeme antecedent, aligns the first scanned digit run
/// with the lexeme's integer part.
proof fn lemma_numlit_scan(
    s: Seq<u8>,
    i: int,
    m: SpecJson,
    rest: Seq<u8>,
    neg: bool,
    start: int,
    j: int,
    ok: bool,
    units: u64,
)
    requires
        encodes_to(s, i, m, rest),
        m is NumLit,
        0 <= i <= s.len(),
        neg == (i < s.len() && s[i] == MINUS),
        start == if neg {
            i + 1
        } else {
            i
        },
        start <= j <= s.len(),
        forall|t: int| start <= t < j ==> is_digit(s[t]),
        j < s.len() ==> !is_digit(s[j]),
        ok ==> units as nat == digits_val(s.subrange(start, j)),
        !ok ==> digits_val(s.subrange(start, j)) > u64::MAX,
    ensures
        ({
            let bs = vstd::utf8::encode_utf8(m->NumLit_0);
            &&& wf_numlit(bs)
            &&& i + bs.len() + rest.len() == s.len()
            &&& (forall|t: int| 0 <= t < bs.len() ==> s[i + t] == #[trigger] bs[t])
            &&& neg == num_neg(bs)
            &&& start == i + num_int_start(bs)
            &&& j == i + num_int_end(bs)
            &&& j > start
            &&& (ok ==> units as nat == num_units(bs))
            &&& (!ok ==> num_units(bs) > u64::MAX)
        }),
{
    let bs = vstd::utf8::encode_utf8(m->NumLit_0);
    assert(spec_encode(m) == bs);
    lemma_tail_split(s, i, bs, rest);
    assert(wf_numlit(bs));
    lemma_digits_end_props(bs, num_int_start(bs));
    // the sign agrees
    if num_neg(bs) {
        assert(s[i + 0] == bs[0]);
        assert(neg);
    } else {
        assert(digits_end(bs, 0) > 0);
        assert(is_digit(bs[0]));
        assert(s[i + 0] == bs[0]);
        assert(!neg);
    }
    assert(start == i + num_int_start(bs));
    assert forall|t: int| 0 <= t < rest.len() implies s[i + bs.len() + t]
        == #[trigger] rest[t] by {
        assert(tail_from(s, i + bs.len())[t] == s[i + bs.len() + t]);
    }
    lemma_scan_in_window(s, i, bs, rest, num_int_start(bs), j, ok, units);
}

/// Under a raw-lexeme antecedent with a fractional part, aligns the
/// second scanned digit run with the lexeme's fraction.
proof fn lemma_numlit_frac(
    s: Seq<u8>,
    i: int,
    m: SpecJson,
    rest: Seq<u8>,
    j: int,
    j2: int,
    ok2: bool,
    frac: u64,
)
    requires
        encodes_to(s, i, m, rest),
        m is NumLit,
        0 <= i <= s.len(),
        j == i + num_int_end(vstd::utf8::encode_utf8(m->NumLit_0)),
        num_has_frac(vstd::utf8::encode_utf8(m->NumLit_0)),
        j + 1 <= j2 <= s.len(),
        forall|t: int| j + 1 <= t < j2 ==> is_digit(s[t]),
        j2 < s.len() ==> !is_digit(s[j2]),
        ok2 ==> frac as nat == digits_val(s.subrange(j + 1, j2)),
        !ok2 ==> digits_val(s.subrange(j + 1, j2)) > u64::MAX,
    ensures
        ({
            let bs = vstd::utf8::encode_utf8(m->NumLit_0);
            &&& j2 == i + num_frac_end(bs)
            &&& j2 - (j + 1) == num_frac_count(bs)
            &&& (ok2 ==> frac as nat == digits_val(
                bs.subrange(num_int_end(bs) + 1, num_frac_end(bs)),
            ))
        }),
{
    let bs = vstd::utf8::encode_utf8(m->NumLit_0);
    assert(spec_encode(m) == bs);
    lemma_tail_split(s, i, bs, rest);
    assert forall|t: int| 0 <= t < rest.len() implies s[i + bs.len() + t]
        == #[trigger] rest[t] by {
        assert(tail_from(s, i + bs.len())[t] == s[i + bs.len() + t]);
    }
    lemma_digits_end_props(bs, num_int_end(bs) + 1);
    lemma_scan_in_window(s, i, bs, rest, num_int_end(bs) + 1, j2, ok2, frac);
}

/// Under a raw-lexeme antecedent with an exponent, aligns the exponent
/// scan with the lexeme's exponent digits; the lexeme ends there.
proof fn lemma_numlit_exp(
    s: Seq<u8>,
    i: int,
    m: SpecJson,
    rest: Seq<u8>,
    pos: int,
    es: int,
    j3: int,
    ok3: bool,
    acc3: u64,
)
    requires
        encodes_to(s, i, m, rest),
        m is NumLit,
        0 <= i <= s.len(),
        pos == i + num_frac_end(vstd::utf8::encode_utf8(m->NumLit_0)),
        num_has_exp(vstd::utf8::encode_utf8(m->NumLit_0)),
        es == if pos + 1 < s.len() && (s[pos + 1] == 0x2b || s[pos + 1] == MINUS) {
            pos + 2
        } else {
            pos + 1
        },
        es <= j3 <= s.len(),
        forall|t: int| es <= t < j3 ==> is_digit(s[t]),
        j3 < s.len() ==> !is_digit(s[j3]),
        ok3 ==> acc3 as nat == digits_val(s.subrange(es, j3)),
        !ok3 ==> digits_val(s.subrange(es, j3)) > u64::MAX,
    ensures
        ({
            let bs = vstd::utf8::encode_utf8(m->NumLit_0);
            &&& es == i + num_exp_digits_start(bs)
            &&& j3 == i + num_exp_end(bs)
            &&& j3 == i + bs.len()
            &&& j3 > es
        }),
{
    let bs = vstd::utf8::encode_utf8(m->NumLit_0);
    assert(spec_encode(m) == bs);
    lemma_tail_split(s, i, bs, rest);
    assert forall|t: int| 0 <= t < rest.len() implies s[i + bs.len() + t]
        == #[trigger] rest[t] by {
        assert(tail_from(s, i + bs.len())[t] == s[i + bs.len() + t]);
    }
    assert(wf_numlit(bs));
    // the optional exponent sign agrees: it sits inside the lexeme, since
    // at least one exponent digit follows it
    let q = num_frac_end(bs) + 1;
    assert(num_exp_end(bs) == bs.len());
    lemma_digits_end_props(bs, num_exp_digits_start(bs));
    assert(num_exp_end(bs) > num_exp_digits_start(bs));
    assert(num_exp_digits_start(bs) < bs.len());
    if q < bs.len() && (bs[q] == 0x2b || bs[q] == MINUS) {
        assert(s[i + q] == bs[q]);
        assert(es == pos + 2);
    } else {
        assert(num_exp_digits_start(bs) == q);
        assert(q < bs.len());
        assert(is_digit(bs[q]));
        assert(s[i + q] == bs[q]);
        assert(pos + 1 < s.len() ==> !(s[pos + 1] == 0x2b || s[pos + 1] == MINUS));
        assert(es == pos + 1);
    }
    lemma_scan_in_window(s, i, bs, rest, num_exp_digits_start(bs), j3, ok3, acc3);
}

/// The umbrella fact at each of the number parser's returns: for each of
/// the three number shapes, how the scans, the branch conditions, and
/// the final positions line up with the encoded form.
#[verifier::rlimit(100)]
#[verifier::spinoff_prover]
proof fn lemma_number_case(
    s: Seq<u8>,
    i: int,
    m: SpecJson,
    rest: Seq<u8>,
    neg: bool,
    start: int,
    j: int,
    ok: bool,
    units: u64,
    j2: int,
    ok2: bool,
    frac: u64,
)
    requires
        encodes_to(s, i, m, rest),
        m is I64 || m is Milli || m is NumLit,
        0 <= i <= s.len(),
        neg == (i < s.len() && s[i] == MINUS),
        start == if neg {
            i + 1
        } else {
            i
        },
        start < j <= s.len(),
        forall|t: int| start <= t < j ==> is_digit(s[t]),
        j < s.len() ==> !is_digit(s[j]),
        ok ==> units as nat == digits_val(s.subrange(start, j)),
        !ok ==> digits_val(s.subrange(start, j)) > u64::MAX,
        (j < s.len() && s[j] == DOT) ==> {
            &&& j + 1 <= j2 <= s.len()
            &&& (forall|t: int| j + 1 <= t < j2 ==> is_digit(s[t]))
            &&& (j2 < s.len() ==> !is_digit(s[j2]))
            &&& (ok2 ==> frac as nat == digits_val(s.subrange(j + 1, j2)))
            &&& (!ok2 ==> digits_val(s.subrange(j + 1, j2)) > u64::MAX)
        },
        !(j < s.len() && s[j] == DOT) ==> j2 == j,
    ensures
        m is I64 ==> ({
            &&& ok
            &&& units as nat == abs_i64(m->I64_0)
            &&& neg == (m->I64_0 < 0)
            &&& !(j < s.len() && s[j] == DOT)
            &&& j2 == j
            &&& (j2 < s.len() ==> s[j2] != 0x65 && s[j2] != 0x45)
            &&& j2 == i + spec_encode(m).len()
        }),
        m is Milli ==> ({
            let a = abs_i64(m->Milli_0);
            &&& ok
            &&& j < s.len() && s[j] == DOT
            &&& ok2
            &&& j2 == j + 1 + 3
            &&& units as nat == a / 1000
            &&& frac as nat == a % 1000
            &&& a / 1000 <= (u64::MAX - 999) / 1000
            &&& a == (a / 1000) * 1000 + a % 1000
            &&& a <= num_sign_bound(neg)
            &&& neg == (m->Milli_0 < 0)
            &&& (j2 < s.len() ==> s[j2] != 0x65 && s[j2] != 0x45)
            &&& j2 == i + spec_encode(m).len()
        }),
        m is NumLit ==> ({
            let bs = vstd::utf8::encode_utf8(m->NumLit_0);
            &&& wf_numlit(bs)
            &&& neg == num_neg(bs)
            &&& start == i + num_int_start(bs)
            &&& j == i + num_int_end(bs)
            &&& (j < s.len() && s[j] == DOT) == num_has_frac(bs)
            &&& j2 == i + num_frac_end(bs)
            &&& (num_has_frac(bs) ==> j2 - (j + 1) == num_frac_count(bs))
            &&& (j2 < s.len() && (s[j2] == 0x65 || s[j2] == 0x45)) == num_has_exp(bs)
            &&& (!num_has_exp(bs) ==> j2 == i + bs.len() && spec_encode(m).len() == bs.len())
            &&& (num_has_exp(bs) ==> num_frac_end(bs) + 1 <= bs.len())
            &&& (ok ==> units as nat == num_units(bs))
            &&& (!ok ==> num_units(bs) > u64::MAX)
            &&& (num_has_frac(bs) && !num_has_exp(bs) && ok2 && 1 <= j2 - (j + 1) <= 3 && ok
                && units <= (u64::MAX - 999) / 1000 ==> num_milli_magnitude(bs) == units * 1000 + (
            if j2 - (j + 1) == 1 {
                frac * 100
            } else if j2 - (j + 1) == 2 {
                frac * 10
            } else {
                frac as int * 1
            }))
            &&& !num_is_bounded(bs)
        }),
{
    if m is I64 || m is Milli {
        lemma_number_agrees(s, i, m, rest, neg, start, j, ok, units);
        if m is Milli {
            lemma_frac_agrees(s, i, m, rest, j, j2, ok2, frac);
            let a = abs_i64(m->Milli_0);
            assert(tail_from(s, i) == spec_encode(m) + rest);
            lemma_tail_split(s, i, spec_encode(m), rest);
            if j2 < s.len() {
                assert(tail_from(s, j2)[0] == s[j2]);
                assert(s[j2] == rest[0]);
            }
        } else {
            if j2 < s.len() {
                lemma_tail_split(s, i, spec_encode(m), rest);
                assert(tail_from(s, j2)[0] == s[j2]);
                assert(s[j2] == rest[0]);
            }
        }
    } else {
        let bs = vstd::utf8::encode_utf8(m->NumLit_0);
        lemma_numlit_scan(s, i, m, rest, neg, start, j, ok, units);
        lemma_tail_split(s, i, bs, rest);
        let ie = num_int_end(bs);
        // whether the lexeme has a fraction is visible at position j
        assert((j < s.len() && s[j] == DOT) == num_has_frac(bs)) by {
            if ie < bs.len() {
                assert(s[i + ie] == bs[ie]);
            } else {
                assert(!num_has_frac(bs));
                if j < s.len() {
                    assert(tail_from(s, i + bs.len())[j - i - bs.len()] == s[j]);
                    assert(s[j] == rest[0]);
                }
            }
        }
        if num_has_frac(bs) {
            lemma_numlit_frac(s, i, m, rest, j, j2, ok2, frac);
        }
        // whether the lexeme has an exponent is visible at position j2
        assert(j2 == i + num_frac_end(bs));
        let fe = num_frac_end(bs);
        // the shape ends the lexeme at the fraction when no exponent
        // follows
        assert(num_has_exp(bs) || fe == bs.len());
        assert((j2 < s.len() && (s[j2] == 0x65 || s[j2] == 0x45)) == num_has_exp(bs)) by {
            if fe < bs.len() {
                assert(s[i + fe] == bs[fe]);
                assert(num_has_exp(bs));
            } else {
                assert(!num_has_exp(bs));
                if j2 < s.len() {
                    assert(tail_from(s, i + bs.len())[j2 - i - bs.len()] == s[j2]);
                    assert(s[j2] == rest[0]);
                }
            }
        }
        if num_has_exp(bs) {
            assert(num_exp_digits_start(bs) <= bs.len()) by {
                assert(fe < bs.len());
            }
        }
        // the bounded magnitude agrees with the model's
        if num_has_frac(bs) && !num_has_exp(bs) && ok2 && 1 <= j2 - (j + 1) <= 3 && ok && units
            <= (u64::MAX - 999) / 1000 {
            assert(num_milli_magnitude(bs) == num_units(bs) * 1000 + (if num_frac_count(bs) == 1 {
                digits_val(bs.subrange(ie + 1, fe)) * 100
            } else if num_frac_count(bs) == 2 {
                digits_val(bs.subrange(ie + 1, fe)) * 10
            } else {
                digits_val(bs.subrange(ie + 1, fe))
            }));
        }
    }
}

/// Under a canonical integer-part antecedent, relates the scanned run to
/// the encoded number: the sign matches, the run is the whole digit part,
/// and the accumulator carries its value.
proof fn lemma_number_agrees(
    s: Seq<u8>,
    i: int,
    m: SpecJson,
    rest: Seq<u8>,
    neg: bool,
    start: int,
    j: int,
    ok: bool,
    units: u64,
)
    requires
        encodes_to(s, i, m, rest),
        m is I64 || m is Milli,
        0 <= i <= s.len(),
        neg == (i < s.len() && s[i] == MINUS),
        start == if neg {
            i + 1
        } else {
            i
        },
        start <= j <= s.len(),
        forall|t: int| start <= t < j ==> is_digit(s[t]),
        j < s.len() ==> !is_digit(s[j]),
        ok ==> units as nat == digits_val(s.subrange(start, j)),
        !ok ==> digits_val(s.subrange(start, j)) > u64::MAX,
    ensures
        ({
            let a = if m is I64 {
                abs_i64(m->I64_0)
            } else {
                abs_i64(m->Milli_0)
            };
            let negm = if m is I64 {
                m->I64_0 < 0
            } else {
                m->Milli_0 < 0
            };
            let units_m = if m is I64 {
                a
            } else {
                a / 1000
            };
            &&& neg == negm
            &&& ok
            &&& j == start + spec_dec(units_m).len()
            &&& units as nat == units_m
            &&& (m is I64 ==> j == i + spec_encode(m).len() && (j < s.len() ==> s[j] != DOT))
            &&& (m is Milli ==> j < s.len() && s[j] == DOT)
        }),
{
    lemma_enc_first(m);
    let a = if m is I64 {
        abs_i64(m->I64_0)
    } else {
        abs_i64(m->Milli_0)
    };
    let negm = if m is I64 {
        m->I64_0 < 0
    } else {
        m->Milli_0 < 0
    };
    let units_m = if m is I64 {
        a
    } else {
        a / 1000
    };
    let ds = spec_dec(units_m);
    lemma_spec_dec_digits(units_m);
    // after the optional sign: the digits, and what follows them
    let after: Seq<u8> = if m is I64 {
        rest
    } else {
        seq![DOT] + spec_dec3(a % 1000) + rest
    };
    if m is I64 {
        if negm {
            assert(spec_encode(m) + rest =~= seq![MINUS] + (ds + rest));
            lemma_tail_split(s, i, seq![MINUS], ds + rest);
            assert(s[i] == MINUS);
        } else {
            assert(spec_encode(m) + rest =~= ds + rest);
            lemma_tail_split(s, i, ds, rest);
            assert(s[i + 0] == ds[0]);
            assert(is_digit(ds[0]));
        }
    } else {
        vstd::arithmetic::div_mod::lemma_fundamental_div_mod(a as int, 1000);
        assert(a % 1000 < 1000);
        if negm {
            assert(spec_encode(m) + rest =~= seq![MINUS] + (ds + after));
            lemma_tail_split(s, i, seq![MINUS], ds + after);
            assert(s[i] == MINUS);
        } else {
            assert(spec_encode(m) + rest =~= ds + after);
            lemma_tail_split(s, i, ds, after);
            assert(s[i + 0] == ds[0]);
            assert(is_digit(ds[0]));
        }
    }
    assert(neg == negm);
    assert(tail_from(s, start) == ds + after) by {
        if negm {
            assert(tail_from(s, i) == seq![MINUS] + (ds + after));
            lemma_tail_split(s, i, seq![MINUS], ds + after);
        } else {
            assert(tail_from(s, start) == spec_encode(m) + rest);
            if m is I64 {
                assert(spec_encode(m) + rest =~= ds + after);
            } else {
                assert(spec_encode(m) + rest =~= ds + after);
            }
        }
    }
    assert(after.len() > 0 ==> !is_digit(after[0])) by {
        if m is I64 {
            if rest.len() > 0 {
                assert(rest[0] == COMMA || rest[0] == RBRACKET || rest[0] == RBRACE);
            }
        } else {
            assert(after[0] == DOT);
        }
    }
    lemma_digit_run(s, start, ds, after, j);
    lemma_digits_val_dec(units_m);
    assert(digits_val(s.subrange(start, j)) == units_m);
    assert(units_m <= a) by {
        if m is Milli {
            assert(a / 1000 <= a) by (nonlinear_arith);
        }
    }
    assert(a <= 9223372036854775808u64 as nat);
    assert(ok);
    lemma_tail_split(s, start, ds, after);
    if m is I64 {
        assert(j == i + spec_encode(m).len());
        if j < s.len() {
            assert(tail_from(s, j)[0] == s[j]);
            assert(s[j] == after[0]);
            assert(s[j] != DOT);
        }
    } else {
        assert(tail_from(s, j)[0] == s[j]);
        assert(s[j] == after[0]);
        assert(s[j] == DOT);
    }
}

/// Under a canonical fractional antecedent, the second digit run is the
/// three padded digits and carries the fractional value.
proof fn lemma_frac_agrees(
    s: Seq<u8>,
    i: int,
    m: SpecJson,
    rest: Seq<u8>,
    j: int,
    j2: int,
    ok2: bool,
    frac: u64,
)
    requires
        encodes_to(s, i, m, rest),
        m is Milli,
        0 <= i <= s.len(),
        j < s.len() && s[j] == DOT,
        j == i + (if m->Milli_0 < 0 {
            1int
        } else {
            0int
        }) + spec_dec(abs_i64(m->Milli_0) / 1000).len(),
        j + 1 <= j2 <= s.len(),
        forall|t: int| j + 1 <= t < j2 ==> is_digit(s[t]),
        j2 < s.len() ==> !is_digit(s[j2]),
        ok2 ==> frac as nat == digits_val(s.subrange(j + 1, j2)),
        !ok2 ==> digits_val(s.subrange(j + 1, j2)) > u64::MAX,
    ensures
        ({
            let a = abs_i64(m->Milli_0);
            &&& j2 == j + 1 + 3
            &&& ok2
            &&& frac as nat == a % 1000
            &&& a / 1000 <= (u64::MAX - 999) / 1000
            &&& a == (a / 1000) * 1000 + a % 1000
            &&& j2 == i + spec_encode(m).len()
        }),
{
    let a = abs_i64(m->Milli_0);
    let negm = m->Milli_0 < 0;
    let ds = spec_dec(a / 1000);
    lemma_spec_dec_digits(a / 1000);
    vstd::arithmetic::div_mod::lemma_fundamental_div_mod(a as int, 1000);
    lemma_dec3_val(a % 1000);
    let head: Seq<u8> = if negm {
        seq![MINUS] + ds + seq![DOT]
    } else {
        ds + seq![DOT]
    };
    assert(spec_encode(m) + rest =~= head + (spec_dec3(a % 1000) + rest));
    lemma_tail_split(s, i, head, spec_dec3(a % 1000) + rest);
    assert(head.len() == j + 1 - i);
    assert(tail_from(s, j + 1) == spec_dec3(a % 1000) + rest);
    assert(rest.len() > 0 ==> !is_digit(rest[0]));
    lemma_digit_run(s, j + 1, spec_dec3(a % 1000), rest, j2);
    assert(frac as nat == a % 1000);
    assert(a <= 9223372036854775808u64 as nat);
    assert(a / 1000 <= (u64::MAX - 999) / 1000) by (nonlinear_arith)
        requires
            a <= 9223372036854775808u64 as nat,
    ;
    lemma_tail_split(s, j + 1, spec_dec3(a % 1000), rest);
    assert(j2 == i + spec_encode(m).len());
}


/// Relies on String::from_utf8: builds the string whose UTF-8 encoding is
/// the given bytes, and refuses bytes that are not valid UTF-8.
#[verifier::external_body]
pub(crate) fn string_from_utf8(v: Vec<u8>) -> (r: Option<String>)
    ensures
        match r {
            Some(st) => vstd::utf8::valid_utf8(v@) && st@ == vstd::utf8::decode_utf8(v@),
            None => !vstd::utf8::valid_utf8(v@),
        },
{
    match String::from_utf8(v) {
        Ok(st) => Some(st),
        Err(_) => None,
    }
}

/// Shape of a single escape unit.
proof fn lemma_esc1_shape(c: u8)
    ensures
        esc1(c).len() == if c == QUOTE || c == BACKSLASH {
            2int
        } else if c < 0x20 {
            6int
        } else {
            1int
        },
        esc1(c)[0] == if c == QUOTE || c == BACKSLASH || c < 0x20 {
            BACKSLASH
        } else {
            c
        },
        c == QUOTE ==> esc1(c)[1] == QUOTE,
        c == BACKSLASH ==> esc1(c)[1] == BACKSLASH,
        c < 0x20 ==> esc1(c)[1] == 0x75 && esc1(c)[2] == 0x30 && esc1(c)[3] == 0x30 && esc1(c)[4]
            == hex_digit_byte((c / 16) as nat) && esc1(c)[5] == hex_digit_byte((c % 16) as nat),
        esc1(c)[0] != QUOTE,
{
}

/// Escape units are a prefix code: equal streams begin with equal units.
proof fn lemma_esc_unit(a0: u8, b0: u8, p: Seq<u8>, q: Seq<u8>)
    requires
        esc1(a0) + p == esc1(b0) + q,
    ensures
        a0 == b0,
        p == q,
{
    lemma_esc1_shape(a0);
    lemma_esc1_shape(b0);
    let u = esc1(a0);
    let v = esc1(b0);
    assert(forall|t: int| 0 <= t < u.len() ==> (esc1(a0) + p)[t] == u[t]);
    assert(forall|t: int| 0 <= t < v.len() ==> (esc1(b0) + q)[t] == v[t]);
    assert(u[0] == v[0]);
    if a0 == QUOTE || a0 == BACKSLASH || a0 < 0x20 {
        assert(b0 == QUOTE || b0 == BACKSLASH || b0 < 0x20);
        assert(u[1] == v[1]);
        if a0 == QUOTE {
            assert(u[1] == QUOTE);
            assert(b0 == QUOTE);
        }
        if a0 == BACKSLASH {
            assert(b0 == BACKSLASH);
        }
        if a0 < 0x20 {
            assert(b0 < 0x20);
            assert(u[4] == v[4] && u[5] == v[5]);
            assert(hex_digit_byte((a0 / 16) as nat) == hex_digit_byte((b0 / 16) as nat));
            assert(hex_digit_byte((a0 % 16) as nat) == hex_digit_byte((b0 % 16) as nat));
            assert(a0 / 16 == b0 / 16);
            assert(a0 % 16 == b0 % 16);
            assert(a0 == b0) by {
                vstd::arithmetic::div_mod::lemma_fundamental_div_mod(a0 as int, 16);
                vstd::arithmetic::div_mod::lemma_fundamental_div_mod(b0 as int, 16);
            }
        }
    } else {
        assert(u[0] == a0 && a0 != BACKSLASH);
        assert(!(b0 == QUOTE || b0 == BACKSLASH || b0 < 0x20));
        assert(a0 == b0);
    }
    assert(u.len() == v.len());
    assert(esc1(a0) + p == esc1(b0) + q);
    assert((esc1(a0) + p).len() == u.len() + p.len());
    assert((esc1(b0) + q).len() == v.len() + q.len());
    assert(p.len() == q.len());
    assert(p =~= q) by {
        assert forall|t: int| 0 <= t < p.len() implies p[t] == q[t] by {
            assert((esc1(a0) + p)[u.len() + t] == p[t]);
            assert((esc1(b0) + q)[v.len() + t] == q[t]);
        }
    }
}

/// An escaped stream closed by a quote determines the bytes it escapes:
/// whenever `esc(a) + x` equals `esc(b)` closed by a quote, `a` is a prefix
/// of `b` and `x` continues the stream.
proof fn lemma_esc_align(a: Seq<u8>, b: Seq<u8>, x: Seq<u8>, y: Seq<u8>)
    requires
        esc(a) + x == esc(b) + seq![QUOTE] + y,
    ensures
        a.len() <= b.len(),
        b.take(a.len() as int) == a,
        x == esc(b.skip(a.len() as int)) + seq![QUOTE] + y,
    decreases a.len(),
{
    if a.len() == 0 {
        assert(x =~= esc(b) + seq![QUOTE] + y);
        assert(b.skip(0) =~= b);
        assert(b.take(0) =~= a);
    } else {
        if b.len() == 0 {
            lemma_esc1_shape(a[0]);
            assert((esc(a) + x)[0] == esc1(a[0])[0]);
            assert((esc(b) + seq![QUOTE] + y)[0] == QUOTE);
            assert(false);
        }
        assert(esc(a) + x =~= esc1(a[0]) + (esc(a.drop_first()) + x));
        assert(esc(b) + seq![QUOTE] + y =~= esc1(b[0]) + (esc(b.drop_first()) + seq![QUOTE] + y));
        lemma_esc_unit(
            a[0],
            b[0],
            esc(a.drop_first()) + x,
            esc(b.drop_first()) + seq![QUOTE] + y,
        );
        lemma_esc_align(a.drop_first(), b.drop_first(), x, y);
        assert(b.take(a.len() as int) =~= a) by {
            assert(b.drop_first().take(a.len() - 1) == a.drop_first());
            assert(forall|t: int|
                1 <= t < a.len() ==> b.take(a.len() as int)[t] == b.drop_first().take(
                    a.len() - 1,
                )[t - 1]);
            assert(forall|t: int| 1 <= t < a.len() ==> a[t] == a.drop_first()[t - 1]);
        }
        assert(b.skip(a.len() as int) =~= b.drop_first().skip(a.len() - 1));
    }
}

/// Relates the parser's progress inside a string literal to a canonical
/// antecedent: the bytes read so far are a prefix of the encoded contents,
/// and the rest of the literal follows at the cursor.
proof fn lemma_string_state(s: Seq<u8>, i: int, k: int, bufv: Seq<u8>, cs: Seq<char>, rest: Seq<u8>)
    requires
        0 <= i < s.len(),
        i + 1 <= k <= s.len(),
        esc(bufv) == s.subrange(i + 1, k),
        str_encodes_to(s, i, cs, rest),
    ensures
        ({
            let bytes = vstd::utf8::encode_utf8(cs);
            &&& bufv.len() <= bytes.len()
            &&& bytes.take(bufv.len() as int) == bufv
            &&& tail_from(s, k) == esc(bytes.skip(bufv.len() as int)) + seq![QUOTE] + rest
        }),
{
    let bytes = vstd::utf8::encode_utf8(cs);
    assert(enc_str(cs) + rest =~= seq![QUOTE] + (esc(bytes) + seq![QUOTE] + rest));
    lemma_tail_split(s, i, seq![QUOTE], esc(bytes) + seq![QUOTE] + rest);
    assert(tail_from(s, i + 1) =~= s.subrange(i + 1, k) + tail_from(s, k));
    assert(esc(bufv) + tail_from(s, k) == esc(bytes) + seq![QUOTE] + rest);
    lemma_esc_align(bufv, bytes, tail_from(s, k), rest);
}

/// Parses a string literal at `i`; the opening quote is at `i`.
#[verifier::loop_isolation(false)]
#[verifier::rlimit(100)]
#[verifier::spinoff_prover]
fn parse_string(s: &[u8], i: usize) -> (r: Option<(String, usize)>)
    requires
        i < s@.len(),
        s@[i as int] == QUOTE,
    ensures
        (match r {
            Some((st, j)) => i + 1 < j <= s@.len(),
            None => true,
        }),
        forall|cs: Seq<char>, rest: Seq<u8>|
            str_encodes_to(s@, i as int, cs, rest) ==> (match r {
                Some((st, j)) => st@ == cs && j == i + enc_str(cs).len(),
                None => false,
            }),
{
    let slen = s.len();
    let mut buf: Vec<u8> = Vec::new();
    let mut k: usize = i + 1;
    proof {
        assert(esc(buf@) =~= s@.subrange(i + 1 as int, i + 1 as int));
    }
    loop
        invariant
            i + 1 <= k <= s@.len(),
            esc(buf@) == s@.subrange(i + 1 as int, k as int),
        decreases s@.len() - k,
    {
        if k >= s.len() {
            proof {
                assert forall|cs: Seq<char>, rest: Seq<u8>|
                    str_encodes_to(s@, i as int, cs, rest) implies false by {
                    lemma_string_state(s@, i as int, k as int, buf@, cs, rest);
                    let tailseq = esc(
                        vstd::utf8::encode_utf8(cs).skip(buf@.len() as int),
                    ) + seq![QUOTE] + rest;
                    assert(tail_from(s@, k as int).len() == 0);
                    assert(tailseq.len() >= 1);
                }
            }
            return None;
        }
        let b = s[k];
        if b == QUOTE {
            let ghost bufv = buf@;
            let st_opt = string_from_utf8(buf);
            match st_opt {
                Some(st) => {
                    proof {
                        assert forall|cs: Seq<char>, rest: Seq<u8>|
                            str_encodes_to(s@, i as int, cs, rest) implies (st@ == cs && k + 1 == i
                            + enc_str(cs).len()) by {
                            lemma_string_state(s@, i as int, k as int, bufv, cs, rest);
                            let bytes = vstd::utf8::encode_utf8(cs);
                            let bs_rest = bytes.skip(bufv.len() as int);
                            if bs_rest.len() > 0 {
                                lemma_esc1_shape(bs_rest[0]);
                                assert(esc(bs_rest) == esc1(bs_rest[0]) + esc(bs_rest.drop_first()));
                                assert(tail_from(s@, k as int)[0] == s@[k as int]);
                                assert(false);
                            }
                            assert(bytes =~= bufv);
                            vstd::utf8::encode_utf8_valid_utf8(cs);
                            vstd::utf8::encode_utf8_decode_utf8(cs);
                            assert(tail_from(s@, k as int).len() == 1 + rest.len());
                        }
                    }
                    return Some((st, k + 1));
                }
                None => {
                    proof {
                        assert forall|cs: Seq<char>, rest: Seq<u8>|
                            str_encodes_to(s@, i as int, cs, rest) implies false by {
                            lemma_string_state(s@, i as int, k as int, bufv, cs, rest);
                            let bytes = vstd::utf8::encode_utf8(cs);
                            let bs_rest = bytes.skip(bufv.len() as int);
                            if bs_rest.len() > 0 {
                                lemma_esc1_shape(bs_rest[0]);
                                assert(esc(bs_rest) == esc1(bs_rest[0]) + esc(bs_rest.drop_first()));
                                assert(tail_from(s@, k as int)[0] == s@[k as int]);
                            }
                            assert(bytes =~= bufv);
                            vstd::utf8::encode_utf8_valid_utf8(cs);
                        }
                    }
                    return None;
                }
            }
        } else if b == BACKSLASH {
            proof {
                assert forall|cs: Seq<char>, rest: Seq<u8>|
                    str_encodes_to(s@, i as int, cs, rest) implies unit_is_escape(
                    s@,
                    k as int,
                    vstd::utf8::encode_utf8(cs).skip(buf@.len() as int),
                ) by {
                    lemma_string_state(s@, i as int, k as int, buf@, cs, rest);
                    lemma_unit_facts(
                        s@,
                        k as int,
                        vstd::utf8::encode_utf8(cs).skip(buf@.len() as int),
                        rest,
                    );
                }
            }
            if k + 1 >= s.len() {
                proof {
                    assert forall|cs: Seq<char>, rest: Seq<u8>|
                        str_encodes_to(s@, i as int, cs, rest) implies false by {
                        lemma_string_state(s@, i as int, k as int, buf@, cs, rest);
                        lemma_unit_facts(
                            s@,
                            k as int,
                            vstd::utf8::encode_utf8(cs).skip(buf@.len() as int),
                            rest,
                        );
                    }
                }
                return None;
            }
            let e = s[k + 1];
            if e == QUOTE {
                let ghost prev = buf@;
                buf.push(QUOTE);
                proof {
                    lemma_esc1_shape(QUOTE);
                    assert(esc1(QUOTE) =~= seq![BACKSLASH, QUOTE]);
                    assert(buf@ =~= prev + seq![QUOTE]);
                    crate::json::lemma_esc_snoc(prev, QUOTE);
                    assert(s@.subrange(i + 1 as int, k + 2 as int) =~= s@.subrange(
                        i + 1 as int,
                        k as int,
                    ) + seq![s@[k as int], s@[k + 1 as int]]);
                    assert(esc(buf@) =~= s@.subrange(i + 1 as int, k + 2 as int));
                }
                k = k + 2;
            } else if e == BACKSLASH {
                let ghost prev = buf@;
                buf.push(BACKSLASH);
                proof {
                    lemma_esc1_shape(BACKSLASH);
                    assert(esc1(BACKSLASH) =~= seq![BACKSLASH, BACKSLASH]);
                    assert(buf@ =~= prev + seq![BACKSLASH]);
                    crate::json::lemma_esc_snoc(prev, BACKSLASH);
                    assert(s@.subrange(i + 1 as int, k + 2 as int) =~= s@.subrange(
                        i + 1 as int,
                        k as int,
                    ) + seq![s@[k as int], s@[k + 1 as int]]);
                    assert(esc(buf@) =~= s@.subrange(i + 1 as int, k + 2 as int));
                }
                k = k + 2;
            } else if e == 0x75 {
                if s.len() - k < 6 || s[k + 2] != 0x30 || s[k + 3] != 0x30 {
                    proof {
                        assert forall|cs: Seq<char>, rest: Seq<u8>|
                            str_encodes_to(s@, i as int, cs, rest) implies false by {
                            lemma_string_state(s@, i as int, k as int, buf@, cs, rest);
                            lemma_unit_facts(
                                s@,
                                k as int,
                                vstd::utf8::encode_utf8(cs).skip(buf@.len() as int),
                                rest,
                            );
                        }
                    }
                    return None;
                }
                let h1 = s[k + 4];
                let h2 = s[k + 5];
                let ok1 = h1 == 0x30 || h1 == 0x31;
                let lo_opt: Option<u8> = if 0x30 <= h2 && h2 <= 0x39 {
                    Some(h2 - 0x30)
                } else if 0x61 <= h2 && h2 <= 0x66 {
                    Some(h2 - 0x57)
                } else {
                    None
                };
                if !ok1 || lo_opt.is_none() {
                    proof {
                        assert forall|cs: Seq<char>, rest: Seq<u8>|
                            str_encodes_to(s@, i as int, cs, rest) implies false by {
                            lemma_string_state(s@, i as int, k as int, buf@, cs, rest);
                            lemma_unit_facts(
                                s@,
                                k as int,
                                vstd::utf8::encode_utf8(cs).skip(buf@.len() as int),
                                rest,
                            );
                        }
                    }
                    return None;
                }
                let lo = lo_opt.unwrap();
                let v: u8 = (h1 - 0x30) * 16 + lo;
                let ghost prev = buf@;
                buf.push(v);
                proof {
                    assert(v < 0x20);
                    vstd::arithmetic::div_mod::lemma_fundamental_div_mod_converse(
                        v as int,
                        16,
                        (h1 - 0x30) as int,
                        lo as int,
                    );
                    lemma_esc1_shape(v);
                    assert(hex_digit_byte((v / 16) as nat) == h1);
                    assert(hex_digit_byte((v % 16) as nat) == h2);
                    assert(buf@ =~= prev + seq![v]);
                    assert(esc1(v) =~= seq![
                        s@[k as int],
                        s@[k + 1 as int],
                        s@[k + 2 as int],
                        s@[k + 3 as int],
                        s@[k + 4 as int],
                        s@[k + 5 as int],
                    ]);
                    crate::json::lemma_esc_snoc(prev, v);
                    assert(s@.subrange(i + 1 as int, k + 6 as int) =~= s@.subrange(
                        i + 1 as int,
                        k as int,
                    ) + seq![
                        s@[k as int],
                        s@[k + 1 as int],
                        s@[k + 2 as int],
                        s@[k + 3 as int],
                        s@[k + 4 as int],
                        s@[k + 5 as int],
                    ]);
                    assert(esc(buf@) =~= s@.subrange(i + 1 as int, k + 6 as int));
                }
                k = k + 6;
            } else {
                proof {
                    assert forall|cs: Seq<char>, rest: Seq<u8>|
                        str_encodes_to(s@, i as int, cs, rest) implies false by {
                        lemma_string_state(s@, i as int, k as int, buf@, cs, rest);
                        lemma_unit_facts(
                            s@,
                            k as int,
                            vstd::utf8::encode_utf8(cs).skip(buf@.len() as int),
                            rest,
                        );
                    }
                }
                return None;
            }
        } else if b < 0x20 {
            proof {
                assert forall|cs: Seq<char>, rest: Seq<u8>|
                    str_encodes_to(s@, i as int, cs, rest) implies false by {
                    lemma_string_state(s@, i as int, k as int, buf@, cs, rest);
                    lemma_unit_facts(
                        s@,
                        k as int,
                        vstd::utf8::encode_utf8(cs).skip(buf@.len() as int),
                        rest,
                    );
                }
            }
            return None;
        } else {
            let ghost prev = buf@;
            buf.push(b);
            proof {
                lemma_esc1_shape(b);
                assert(esc1(b) =~= seq![b]);
                assert(buf@ =~= prev + seq![b]);
                crate::json::lemma_esc_snoc(prev, b);
                assert(s@.subrange(i + 1 as int, k + 1 as int) =~= s@.subrange(
                    i + 1 as int,
                    k as int,
                ) + seq![s@[k as int]]);
                assert(esc(buf@) =~= s@.subrange(i + 1 as int, k + 1 as int));
            }
            k = k + 1;
        }
    }
}

/// At an escape-unit boundary the input bytes spell out a canonical unit.
pub open spec fn unit_is_escape(s: Seq<u8>, k: int, bs_rest: Seq<u8>) -> bool {
    bs_rest.len() > 0 && (bs_rest[0] == QUOTE || bs_rest[0] == BACKSLASH || bs_rest[0] < 0x20)
}

/// When the remaining literal is `esc(bs_rest)` closed by a quote, the
/// bytes at the cursor spell the first escape unit (or the closing quote).
proof fn lemma_unit_facts(s: Seq<u8>, k: int, bs_rest: Seq<u8>, rest: Seq<u8>)
    requires
        0 <= k <= s.len(),
        tail_from(s, k) == esc(bs_rest) + seq![QUOTE] + rest,
    ensures
        bs_rest.len() == 0 ==> k < s.len() && s[k] == QUOTE,
        bs_rest.len() > 0 ==> ({
            let c = bs_rest[0];
            let u = esc1(c);
            &&& k + u.len() <= s.len()
            &&& forall|t: int| 0 <= t < u.len() ==> s[k + t] == u[t]
            &&& (s[k] == BACKSLASH <==> (c == QUOTE || c == BACKSLASH || c < 0x20))
            &&& (s[k] == BACKSLASH ==> k + 1 < s.len())
            &&& s[k] != QUOTE
            &&& (c != QUOTE && c != BACKSLASH && c >= 0x20 ==> s[k] == c)
        }),
{
    if bs_rest.len() == 0 {
        assert(esc(bs_rest) =~= Seq::<u8>::empty());
        assert(tail_from(s, k) =~= seq![QUOTE] + rest);
        assert(tail_from(s, k).len() == s.len() - k);
        assert(k < s.len());
        assert(tail_from(s, k)[0] == s[k + 0]);
        assert(s[k] == QUOTE);
    } else {
        let c = bs_rest[0];
        let u = esc1(c);
        lemma_esc1_shape(c);
        assert(esc(bs_rest) == u + esc(bs_rest.drop_first()));
        assert(tail_from(s, k) =~= u + (esc(bs_rest.drop_first()) + seq![QUOTE] + rest));
        lemma_tail_split(s, k, u, esc(bs_rest.drop_first()) + seq![QUOTE] + rest);
        assert(forall|t: int| 0 <= t < u.len() ==> s[k + t] == u[t]);
        assert(s[k + 0] == u[0]);
        if c == QUOTE || c == BACKSLASH || c < 0x20 {
            assert(s[k] == BACKSLASH);
            assert(k + 1 < s.len());
        } else {
            assert(s[k] == c);
            assert(c != BACKSLASH);
        }
    }
}


/// What follows one array item: the separator and remaining items, and the
/// closing bracket.
pub open spec fn list_rest(ms: Seq<SpecJson>, t: int, rest: Seq<u8>) -> Seq<u8> {
    if t + 1 == ms.len() {
        seq![RBRACKET] + rest
    } else {
        seq![COMMA] + spec_encode_list(ms.skip(t + 1)) + seq![RBRACKET] + rest
    }
}

/// In a canonical array body, each item is itself canonically placed.
proof fn lemma_list_step(s: Seq<u8>, j: int, ms: Seq<SpecJson>, rest: Seq<u8>, t: int)
    requires
        0 <= j <= s.len(),
        0 <= t < ms.len(),
        can_follow(rest),
        wf_json(SpecJson::Arr(ms)),
        tail_from(s, j) == spec_encode_list(ms.skip(t)) + seq![RBRACKET] + rest,
    ensures
        encodes_to(s, j, ms[t], list_rest(ms, t, rest)),
        tail_from(s, j) == spec_encode(ms[t]) + list_rest(ms, t, rest),
{
    lemma_wf_list(ms);
    let sk = ms.skip(t);
    if sk.len() == 1 {
        assert(spec_encode_list(sk) == spec_encode(sk[0]));
        assert(spec_encode_list(sk) + seq![RBRACKET] + rest =~= spec_encode(ms[t]) + (
        seq![RBRACKET] + rest));
        assert(tail_from(s, j) =~= spec_encode(ms[t]) + list_rest(ms, t, rest));
    } else {
        assert(sk.drop_first() =~= ms.skip(t + 1));
        assert(spec_encode_list(sk) == spec_encode(sk[0]) + seq![COMMA] + spec_encode_list(
            ms.skip(t + 1),
        ));
        assert(tail_from(s, j) =~= spec_encode(ms[t]) + (seq![COMMA] + spec_encode_list(
            ms.skip(t + 1),
        ) + seq![RBRACKET] + rest));
        assert(tail_from(s, j) =~= spec_encode(ms[t]) + list_rest(ms, t, rest));
    }
}

/// What follows one object member: the separator and remaining members,
/// and the closing brace.
pub open spec fn members_rest(
    msm: Seq<(Seq<char>, SpecJson)>,
    t: int,
    rest: Seq<u8>,
) -> Seq<u8> {
    if t + 1 == msm.len() {
        seq![RBRACE] + rest
    } else {
        seq![COMMA] + spec_encode_members(msm.skip(t + 1)) + seq![RBRACE] + rest
    }
}

/// In a canonical object body, each member's key, colon, and value are
/// themselves canonically placed.
proof fn lemma_members_step(
    s: Seq<u8>,
    j: int,
    msm: Seq<(Seq<char>, SpecJson)>,
    rest: Seq<u8>,
    t: int,
)
    requires
        0 <= j <= s.len(),
        0 <= t < msm.len(),
        can_follow(rest),
        wf_json(SpecJson::Obj(msm)),
        tail_from(s, j) == spec_encode_members(msm.skip(t)) + seq![RBRACE] + rest,
    ensures
        str_encodes_to(s, j, msm[t].0, seq![COLON] + spec_encode(msm[t].1) + members_rest(msm, t, rest)),
        j + enc_str(msm[t].0).len() + 1 <= s.len(),
        tail_from(s, j + enc_str(msm[t].0).len()) == seq![COLON] + spec_encode(msm[t].1)
            + members_rest(msm, t, rest),
        s[j + enc_str(msm[t].0).len()] == COLON,
        encodes_to(s, j + enc_str(msm[t].0).len() + 1, msm[t].1, members_rest(msm, t, rest)),
{
    lemma_wf_members(msm);
    let sk = msm.skip(t);
    let key = msm[t].0;
    let val = msm[t].1;
    let after: Seq<u8> = seq![COLON] + spec_encode(val) + members_rest(msm, t, rest);
    if sk.len() == 1 {
        assert(spec_encode_members(sk) == enc_str(sk[0].0) + seq![COLON] + spec_encode(sk[0].1));
        assert(tail_from(s, j) =~= enc_str(key) + after);
    } else {
        assert(sk.drop_first() =~= msm.skip(t + 1));
        assert(spec_encode_members(sk) == enc_str(sk[0].0) + seq![COLON] + spec_encode(sk[0].1)
            + seq![COMMA] + spec_encode_members(msm.skip(t + 1)));
        assert(tail_from(s, j) =~= enc_str(key) + after);
    }
    lemma_tail_split(s, j, enc_str(key), after);
    let jk = j + enc_str(key).len();
    assert(tail_from(s, jk) == after);
    assert(after =~= seq![COLON] + (spec_encode(val) + members_rest(msm, t, rest)));
    lemma_tail_split(s, jk, seq![COLON], spec_encode(val) + members_rest(msm, t, rest));
    assert(s[jk + 0] == seq![COLON][0]);
    assert(s[jk + 0] == COLON);
    assert(tail_from(s, jk + 1) == spec_encode(val) + members_rest(msm, t, rest));
    assert(can_follow(members_rest(msm, t, rest)));
}

/// Parses one JSON value at `i`; the caller has skipped any whitespace.
#[verifier::loop_isolation(false)]
#[verifier::rlimit(100)]
#[verifier::spinoff_prover]
fn parse_value(s: &[u8], i: usize) -> (r: Option<(JsonValue, usize)>)
    requires
        i <= s@.len(),
    ensures
        (match r {
            Some((v, j)) => i < j <= s@.len(),
            None => true,
        }),
        forall|m: SpecJson, rest: Seq<u8>|
            encodes_to(s@, i as int, m, rest) ==> (match r {
                Some((v, j)) => v.deep_view() == m && j == i + spec_encode(m).len(),
                None => false,
            }),
        i >= s@.len() ==> r is None,
        (i < s@.len() && !spec_doc_opener(s@[i as int])) ==> r is None,
        (i < s@.len() && s@[i as int] == 0x6e && !(i + 4 <= s@.len() && s@[i + 1] == 0x75 && s@[i
            + 2] == 0x6c && s@[i + 3] == 0x6c)) ==> r is None,
        (i < s@.len() && s@[i as int] == 0x74 && !(i + 4 <= s@.len() && s@[i + 1] == 0x72 && s@[i
            + 2] == 0x75 && s@[i + 3] == 0x65)) ==> r is None,
        (i < s@.len() && s@[i as int] == 0x66 && !(i + 5 <= s@.len() && s@[i + 1] == 0x61 && s@[i
            + 2] == 0x6c && s@[i + 3] == 0x73 && s@[i + 4] == 0x65)) ==> r is None,
    decreases s@.len() - i, 1int,
{
    let slen = s.len();
    if i >= slen {
        proof {
            assert forall|m: SpecJson, rest: Seq<u8>|
                encodes_to(s@, i as int, m, rest) implies false by {
                lemma_enc_first(m);
                assert(tail_from(s@, i as int).len() == 0);
                assert((spec_encode(m) + rest).len() >= 1);
            }
        }
        return None;
    }
    let b = s[i];
    if b == 0x6e {
        if slen - i >= 4 && s[i + 1] == 0x75 && s[i + 2] == 0x6c && s[i + 3] == 0x6c {
            proof {
                assert forall|m: SpecJson, rest: Seq<u8>|
                    encodes_to(s@, i as int, m, rest) implies (JsonValue::Null.deep_view() == m
                    && i + 4 == i + spec_encode(m).len()) by {
                    lemma_enc_first(m);
                    lemma_tail_split(s@, i as int, spec_encode(m), rest);
                }
            }
            Some((JsonValue::Null, i + 4))
        } else {
            proof {
                assert forall|m: SpecJson, rest: Seq<u8>|
                    encodes_to(s@, i as int, m, rest) implies false by {
                    lemma_enc_first(m);
                    lemma_tail_split(s@, i as int, spec_encode(m), rest);
                }
            }
            None
        }
    } else if b == 0x74 {
        if slen - i >= 4 && s[i + 1] == 0x72 && s[i + 2] == 0x75 && s[i + 3] == 0x65 {
            proof {
                assert forall|m: SpecJson, rest: Seq<u8>|
                    encodes_to(s@, i as int, m, rest) implies (JsonValue::Bool(true).deep_view()
                    == m && i + 4 == i + spec_encode(m).len()) by {
                    lemma_enc_first(m);
                    lemma_tail_split(s@, i as int, spec_encode(m), rest);
                }
            }
            Some((JsonValue::Bool(true), i + 4))
        } else {
            proof {
                assert forall|m: SpecJson, rest: Seq<u8>|
                    encodes_to(s@, i as int, m, rest) implies false by {
                    lemma_enc_first(m);
                    lemma_tail_split(s@, i as int, spec_encode(m), rest);
                }
            }
            None
        }
    } else if b == 0x66 {
        if slen - i >= 5 && s[i + 1] == 0x61 && s[i + 2] == 0x6c && s[i + 3] == 0x73 && s[i + 4]
            == 0x65 {
            proof {
                assert forall|m: SpecJson, rest: Seq<u8>|
                    encodes_to(s@, i as int, m, rest) implies (JsonValue::Bool(false).deep_view()
                    == m && i + 5 == i + spec_encode(m).len()) by {
                    lemma_enc_first(m);
                    lemma_tail_split(s@, i as int, spec_encode(m), rest);
                }
            }
            Some((JsonValue::Bool(false), i + 5))
        } else {
            proof {
                assert forall|m: SpecJson, rest: Seq<u8>|
                    encodes_to(s@, i as int, m, rest) implies false by {
                    lemma_enc_first(m);
                    lemma_tail_split(s@, i as int, spec_encode(m), rest);
                }
            }
            None
        }
    } else if b == QUOTE {
        let r2 = parse_string(s, i);
        proof {
            assert forall|m: SpecJson, rest: Seq<u8>|
                encodes_to(s@, i as int, m, rest) implies (match r2 {
                Some((st, j)) => SpecJson::Str(st@) == m && j == i + spec_encode(m).len(),
                None => false,
            }) by {
                lemma_enc_first(m);
                lemma_tail_split(s@, i as int, spec_encode(m), rest);
                assert(s@[i + 0] == spec_encode(m)[0]);
                assert(m is Str);
                assert(str_encodes_to(s@, i as int, m->Str_0, rest));
            }
        }
        match r2 {
            Some((st, j)) => Some((JsonValue::Str(st), j)),
            None => None,
        }
    } else if b == MINUS || (0x30 <= b && b <= 0x39) {
        let r2 = parse_number(s, i);
        proof {
            assert forall|m: SpecJson, rest: Seq<u8>|
                encodes_to(s@, i as int, m, rest) implies (m is I64 || m is Milli
                || m is NumLit) by {
                lemma_enc_first(m);
                lemma_tail_split(s@, i as int, spec_encode(m), rest);
            }
        }
        r2
    } else if b == LBRACKET {
        parse_array(s, i)
    } else if b == LBRACE {
        parse_object(s, i)
    } else {
        proof {
            assert forall|m: SpecJson, rest: Seq<u8>|
                encodes_to(s@, i as int, m, rest) implies false by {
                lemma_enc_first(m);
                lemma_tail_split(s@, i as int, spec_encode(m), rest);
            }
        }
        None
    }
}

/// Parses an array at `i`; the opening bracket is at `i`.
#[verifier::loop_isolation(false)]
#[verifier::rlimit(100)]
#[verifier::spinoff_prover]
fn parse_array(s: &[u8], i: usize) -> (r: Option<(JsonValue, usize)>)
    requires
        i < s@.len(),
        s@[i as int] == LBRACKET,
    ensures
        (match r {
            Some((v, j)) => i < j <= s@.len(),
            None => true,
        }),
        forall|m: SpecJson, rest: Seq<u8>|
            encodes_to(s@, i as int, m, rest) ==> (match r {
                Some((v, j)) => v.deep_view() == m && j == i + spec_encode(m).len(),
                None => false,
            }),
    decreases s@.len() - i, 0int,
{
    let slen = s.len();
        let mut items: Vec<JsonValue> = Vec::new();
        let j0 = skip_ws(s, i + 1);
        proof {
            assert forall|ms: Seq<SpecJson>, rest: Seq<u8>|
                #![trigger encodes_to(s@, i as int, SpecJson::Arr(ms), rest)]
                encodes_to(s@, i as int, SpecJson::Arr(ms), rest) implies (tail_from(
                s@,
                i + 1 as int,
            ) == spec_encode_list(ms) + seq![RBRACKET] + rest && j0 == i + 1 && (ms.len() == 0
                <==> (j0 < s@.len() && s@[j0 as int] == RBRACKET))) by {
                assert(spec_encode(SpecJson::Arr(ms)) + rest =~= seq![LBRACKET] + (
                spec_encode_list(ms) + seq![RBRACKET] + rest));
                lemma_tail_split(
                    s@,
                    i as int,
                    seq![LBRACKET],
                    spec_encode_list(ms) + seq![RBRACKET] + rest,
                );
                if ms.len() == 0 {
                    assert(spec_encode_list(ms) =~= Seq::<u8>::empty());
                    assert(tail_from(s@, i + 1 as int) =~= seq![RBRACKET] + rest);
                    assert(tail_from(s@, i + 1 as int)[0] == s@[i + 1]);
                    assert((seq![RBRACKET] + rest)[0] == RBRACKET);
                    assert(!is_ws(s@[i + 1]));
                } else {
                    assert(ms.skip(0) =~= ms);
                    lemma_list_step(s@, i + 1, ms, rest, 0);
                    lemma_enc_first(ms[0]);
                    lemma_tail_split(
                        s@,
                        i + 1,
                        spec_encode(ms[0]),
                        list_rest(ms, 0, rest),
                    );
                    assert(s@[i + 1] == spec_encode(ms[0])[0]);
                    assert(s@[j0 as int] != RBRACKET);
                }
            }
        }
        if j0 < slen && s[j0] == RBRACKET {
            let out: Vec<JsonValue> = Vec::new();
            proof {
                assert forall|m: SpecJson, rest: Seq<u8>|
                    encodes_to(s@, i as int, m, rest) implies (JsonValue::Arr(out).deep_view() == m
                    && j0 + 1 == i + spec_encode(m).len()) by {
                    lemma_enc_first(m);
                    lemma_tail_split(s@, i as int, spec_encode(m), rest);
                    assert(s@[i + 0] == spec_encode(m)[0]);
                    assert(m is Arr);
                    let ms = m->Arr_0;
                    assert(m == SpecJson::Arr(ms));
                    assert(encodes_to(s@, i as int, SpecJson::Arr(ms), rest));
                    assert(ms.len() == 0);
                    assert(out@ =~= Seq::<JsonValue>::empty());
                    assert(jv_model_list(out@) =~= ms);
                    assert(JsonValue::Arr(out).deep_view() == SpecJson::Arr(jv_model_list(out@)));
                    assert(spec_encode_list(ms) =~= Seq::<u8>::empty());
                    assert(spec_encode(m) =~= seq![LBRACKET, RBRACKET]);
                }
            }
            return Some((JsonValue::Arr(out), j0 + 1));
        }
        let mut j: usize = j0;
        proof {
            assert forall|ms: Seq<SpecJson>, rest: Seq<u8>|
                #![trigger encodes_to(s@, i as int, SpecJson::Arr(ms), rest)]
                (encodes_to(s@, i as int, SpecJson::Arr(ms), rest) && ms.len() > 0) implies (
                items@.len() < ms.len() && jv_model_list(items@) == ms.take(items@.len() as int)
                    && tail_from(s@, j as int) == spec_encode_list(ms.skip(items@.len() as int))
                    + seq![RBRACKET] + rest) by {
                assert(ms.skip(0) =~= ms);
                assert(ms.take(0) =~= Seq::<SpecJson>::empty());
                assert(jv_model_list(items@) =~= Seq::<SpecJson>::empty());
            }
        }
        loop
            invariant
                i < j <= s@.len(),
                forall|ms: Seq<SpecJson>, rest: Seq<u8>|
                    #![trigger encodes_to(s@, i as int, SpecJson::Arr(ms), rest)]
                    (encodes_to(s@, i as int, SpecJson::Arr(ms), rest) && ms.len() > 0) ==> (
                    items@.len() < ms.len() && jv_model_list(items@) == ms.take(
                        items@.len() as int,
                    ) && tail_from(s@, j as int) == spec_encode_list(
                        ms.skip(items@.len() as int),
                    ) + seq![RBRACKET] + rest),
            decreases s@.len() - j,
        {
            let ghost t = items@.len() as int;
            proof {
                assert forall|ms: Seq<SpecJson>, rest: Seq<u8>|
                    #![trigger encodes_to(s@, i as int, SpecJson::Arr(ms), rest)]
                    (encodes_to(s@, i as int, SpecJson::Arr(ms), rest) && ms.len() > 0) implies
                encodes_to(s@, j as int, ms[t], list_rest(ms, t, rest)) by {
                    lemma_list_step(s@, j as int, ms, rest, t);
                }
            }
            let r2 = parse_value(s, j);
            match r2 {
                None => {
                    proof {
                        assert forall|m: SpecJson, rest: Seq<u8>|
                            encodes_to(s@, i as int, m, rest) implies false by {
                            lemma_enc_first(m);
                            lemma_tail_split(s@, i as int, spec_encode(m), rest);
                            assert(s@[i + 0] == spec_encode(m)[0]);
                            assert(m is Arr);
                            let ms = m->Arr_0;
                            assert(m == SpecJson::Arr(ms));
                            assert(encodes_to(s@, i as int, SpecJson::Arr(ms), rest));
                            assert(ms.len() > 0);
                        }
                    }
                    return None;
                }
                Some((v, j2)) => {
                    let ghost prev_items = items@;
                    items.push(v);
                    let j3 = skip_ws(s, j2);
                    proof {
                        assert forall|ms: Seq<SpecJson>, rest: Seq<u8>|
                            #![trigger encodes_to(s@, i as int, SpecJson::Arr(ms), rest)]
                            (encodes_to(s@, i as int, SpecJson::Arr(ms), rest) && ms.len() > 0)
                            implies (jv_model_list(items@) == ms.take(t + 1) && tail_from(
                            s@,
                            j2 as int,
                        ) == list_rest(ms, t, rest) && j3 == j2 && j3 < s@.len() && (t + 1
                            < ms.len() <==> s@[j3 as int] == COMMA) && (t + 1 == ms.len() <==> s@[
                            j3 as int
                        ] == RBRACKET)) by {
                            lemma_list_step(s@, j as int, ms, rest, t);
                            lemma_tail_split(
                                s@,
                                j as int,
                                spec_encode(ms[t]),
                                list_rest(ms, t, rest),
                            );
                            assert(jv_model_list(items@) =~= ms.take(t + 1)) by {
                                lemma_jv_model_list(items@);
                                lemma_jv_model_list(prev_items);
                                assert(forall|q: int|
                                    0 <= q < t ==> items@[q] == prev_items[q]);
                            }
                            let lr = list_rest(ms, t, rest);
                            assert(tail_from(s@, j2 as int)[0] == s@[j2 as int]);
                            assert(lr[0] == COMMA || lr[0] == RBRACKET);
                            assert(!is_ws(s@[j2 as int]));
                            if t + 1 < ms.len() {
                                assert(lr[0] == COMMA);
                            } else {
                                assert(lr[0] == RBRACKET);
                            }
                        }
                    }
                    if j3 < slen && s[j3] == COMMA {
                        let j4 = skip_ws(s, j3 + 1);
                        proof {
                            assert forall|ms: Seq<SpecJson>, rest: Seq<u8>|
                                #![trigger encodes_to(s@, i as int, SpecJson::Arr(ms), rest)]
                                (encodes_to(s@, i as int, SpecJson::Arr(ms), rest) && ms.len()
                                    > 0) implies (items@.len() < ms.len() && tail_from(
                                s@,
                                j4 as int,
                            ) == spec_encode_list(ms.skip(items@.len() as int)) + seq![RBRACKET]
                                + rest && j4 == j3 + 1) by {
                                let lr = list_rest(ms, t, rest);
                                assert(t + 1 < ms.len());
                                assert(lr =~= seq![COMMA] + (spec_encode_list(ms.skip(t + 1))
                                    + seq![RBRACKET] + rest));
                                lemma_tail_split(
                                    s@,
                                    j3 as int,
                                    seq![COMMA],
                                    spec_encode_list(ms.skip(t + 1)) + seq![RBRACKET] + rest,
                                );
                                lemma_list_step(s@, j3 + 1, ms, rest, t + 1);
                                lemma_enc_first(ms[t + 1]);
                                lemma_tail_split(
                                    s@,
                                    j3 + 1,
                                    spec_encode(ms[t + 1]),
                                    list_rest(ms, t + 1, rest),
                                );
                                assert(s@[j3 + 1] == spec_encode(ms[t + 1])[0]);
                                assert(!is_ws(s@[j3 + 1]));
                            }
                        }
                        j = j4;
                    } else if j3 < slen && s[j3] == RBRACKET {
                        proof {
                            assert forall|m: SpecJson, rest: Seq<u8>|
                                encodes_to(s@, i as int, m, rest) implies (JsonValue::Arr(
                                items,
                            ).deep_view() == m && j3 + 1 == i + spec_encode(m).len()) by {
                                lemma_enc_first(m);
                                lemma_tail_split(s@, i as int, spec_encode(m), rest);
                                assert(s@[i + 0] == spec_encode(m)[0]);
                                assert(m is Arr);
                                let ms = m->Arr_0;
                                assert(m == SpecJson::Arr(ms));
                                assert(encodes_to(s@, i as int, SpecJson::Arr(ms), rest));
                                assert(ms.len() > 0);
                                assert(t + 1 == ms.len());
                                assert(jv_model_list(items@) == ms.take(t + 1));
                                assert(ms.take(t + 1) =~= ms);
                                let lr = list_rest(ms, t, rest);
                                assert(tail_from(s@, j3 as int).len() == s@.len() - j3);
                                assert(lr.len() == 1 + rest.len());
                                assert(tail_from(s@, i as int).len() == s@.len() - i);
                            }
                        }
                        return Some((JsonValue::Arr(items), j3 + 1));
                    } else {
                        proof {
                            assert forall|m: SpecJson, rest: Seq<u8>|
                                encodes_to(s@, i as int, m, rest) implies false by {
                                lemma_enc_first(m);
                                lemma_tail_split(s@, i as int, spec_encode(m), rest);
                                assert(s@[i + 0] == spec_encode(m)[0]);
                                assert(m is Arr);
                                let ms = m->Arr_0;
                                assert(m == SpecJson::Arr(ms));
                                assert(encodes_to(s@, i as int, SpecJson::Arr(ms), rest));
                                assert(ms.len() > 0);
                            }
                        }
                        return None;
                    }
                }
            }
        }
}

/// Parses an object at `i`; the opening brace is at `i`.
#[verifier::loop_isolation(false)]
#[verifier::rlimit(100)]
#[verifier::spinoff_prover]
fn parse_object(s: &[u8], i: usize) -> (r: Option<(JsonValue, usize)>)
    requires
        i < s@.len(),
        s@[i as int] == LBRACE,
    ensures
        (match r {
            Some((v, j)) => i < j <= s@.len(),
            None => true,
        }),
        forall|m: SpecJson, rest: Seq<u8>|
            encodes_to(s@, i as int, m, rest) ==> (match r {
                Some((v, j)) => v.deep_view() == m && j == i + spec_encode(m).len(),
                None => false,
            }),
    decreases s@.len() - i, 0int,
{
    let slen = s.len();
        let mut members: Vec<(String, JsonValue)> = Vec::new();
        let j0 = skip_ws(s, i + 1);
        proof {
            assert forall|msm: Seq<(Seq<char>, SpecJson)>, rest: Seq<u8>|
                #![trigger encodes_to(s@, i as int, SpecJson::Obj(msm), rest)]
                encodes_to(s@, i as int, SpecJson::Obj(msm), rest) implies (tail_from(
                s@,
                i + 1 as int,
            ) == spec_encode_members(msm) + seq![RBRACE] + rest && j0 == i + 1 && (msm.len() == 0
                <==> (j0 < s@.len() && s@[j0 as int] == RBRACE))) by {
                assert(spec_encode(SpecJson::Obj(msm)) + rest =~= seq![LBRACE] + (
                spec_encode_members(msm) + seq![RBRACE] + rest));
                lemma_tail_split(
                    s@,
                    i as int,
                    seq![LBRACE],
                    spec_encode_members(msm) + seq![RBRACE] + rest,
                );
                if msm.len() == 0 {
                    assert(spec_encode_members(msm) =~= Seq::<u8>::empty());
                    assert(tail_from(s@, i + 1 as int) =~= seq![RBRACE] + rest);
                    assert(tail_from(s@, i + 1 as int)[0] == s@[i + 1]);
                    assert((seq![RBRACE] + rest)[0] == RBRACE);
                    assert(!is_ws(s@[i + 1]));
                } else {
                    assert(msm.skip(0) =~= msm);
                    lemma_members_step(s@, i + 1, msm, rest, 0);
                    lemma_tail_split(
                        s@,
                        i + 1,
                        enc_str(msm[0].0),
                        seq![COLON] + spec_encode(msm[0].1) + members_rest(msm, 0, rest),
                    );
                    assert(s@[i + 1] == enc_str(msm[0].0)[0]);
                    assert(enc_str(msm[0].0)[0] == QUOTE);
                    assert(!is_ws(s@[i + 1]));
                    assert(s@[j0 as int] != RBRACE);
                }
            }
        }
        if j0 < slen && s[j0] == RBRACE {
            let out: Vec<(String, JsonValue)> = Vec::new();
            proof {
                assert forall|m: SpecJson, rest: Seq<u8>|
                    encodes_to(s@, i as int, m, rest) implies (JsonValue::Obj(out).deep_view() == m
                    && j0 + 1 == i + spec_encode(m).len()) by {
                    lemma_enc_first(m);
                    lemma_tail_split(s@, i as int, spec_encode(m), rest);
                    assert(s@[i + 0] == spec_encode(m)[0]);
                    assert(m is Obj);
                    let msm = m->Obj_0;
                    assert(m == SpecJson::Obj(msm));
                    assert(encodes_to(s@, i as int, SpecJson::Obj(msm), rest));
                    assert(msm.len() == 0);
                    assert(out@ =~= Seq::<(String, JsonValue)>::empty());
                    assert(jv_model_members(out@) =~= msm);
                    assert(JsonValue::Obj(out).deep_view() == SpecJson::Obj(jv_model_members(out@)));
                    assert(spec_encode_members(msm) =~= Seq::<u8>::empty());
                    assert(spec_encode(m) =~= seq![LBRACE, RBRACE]);
                }
            }
            return Some((JsonValue::Obj(out), j0 + 1));
        }
        let mut j: usize = j0;
        proof {
            assert forall|msm: Seq<(Seq<char>, SpecJson)>, rest: Seq<u8>|
                #![trigger encodes_to(s@, i as int, SpecJson::Obj(msm), rest)]
                (encodes_to(s@, i as int, SpecJson::Obj(msm), rest) && msm.len() > 0) implies (
                members@.len() < msm.len() && jv_model_members(members@) == msm.take(
                    members@.len() as int,
                ) && tail_from(s@, j as int) == spec_encode_members(msm.skip(members@.len() as int))
                    + seq![RBRACE] + rest) by {
                assert(msm.skip(0) =~= msm);
                assert(msm.take(0) =~= Seq::<(Seq<char>, SpecJson)>::empty());
                assert(jv_model_members(members@) =~= Seq::<(Seq<char>, SpecJson)>::empty());
            }
        }
        loop
            invariant
                i < j <= s@.len(),
                forall|msm: Seq<(Seq<char>, SpecJson)>, rest: Seq<u8>|
                    #![trigger encodes_to(s@, i as int, SpecJson::Obj(msm), rest)]
                    (encodes_to(s@, i as int, SpecJson::Obj(msm), rest) && msm.len() > 0) ==> (
                    members@.len() < msm.len() && jv_model_members(members@) == msm.take(
                        members@.len() as int,
                    ) && tail_from(s@, j as int) == spec_encode_members(
                        msm.skip(members@.len() as int),
                    ) + seq![RBRACE] + rest),
            decreases s@.len() - j,
        {
            let ghost t = members@.len() as int;
            proof {
                assert forall|msm: Seq<(Seq<char>, SpecJson)>, rest: Seq<u8>|
                    #![trigger encodes_to(s@, i as int, SpecJson::Obj(msm), rest)]
                    (encodes_to(s@, i as int, SpecJson::Obj(msm), rest) && msm.len() > 0) implies
                (j < s@.len() && s@[j as int] == QUOTE && str_encodes_to(
                    s@,
                    j as int,
                    msm[t].0,
                    seq![COLON] + spec_encode(msm[t].1) + members_rest(msm, t, rest),
                )) by {
                    lemma_members_step(s@, j as int, msm, rest, t);
                    lemma_tail_split(
                        s@,
                        j as int,
                        enc_str(msm[t].0),
                        seq![COLON] + spec_encode(msm[t].1) + members_rest(msm, t, rest),
                    );
                    assert(s@[j + 0] == enc_str(msm[t].0)[0]);
                    assert(enc_str(msm[t].0)[0] == QUOTE);
                }
            }
            if !(j < slen) {
                proof {
                    assert forall|m: SpecJson, rest: Seq<u8>|
                        encodes_to(s@, i as int, m, rest) implies false by {
                        lemma_enc_first(m);
                        lemma_tail_split(s@, i as int, spec_encode(m), rest);
                        assert(s@[i + 0] == spec_encode(m)[0]);
                        assert(m is Obj);
                        let msm = m->Obj_0;
                        assert(m == SpecJson::Obj(msm));
                        assert(encodes_to(s@, i as int, SpecJson::Obj(msm), rest));
                        assert(msm.len() > 0);
                    }
                }
                return None;
            }
            if s[j] != QUOTE {
                proof {
                    assert forall|m: SpecJson, rest: Seq<u8>|
                        encodes_to(s@, i as int, m, rest) implies false by {
                        lemma_enc_first(m);
                        lemma_tail_split(s@, i as int, spec_encode(m), rest);
                        assert(s@[i + 0] == spec_encode(m)[0]);
                        assert(m is Obj);
                        let msm = m->Obj_0;
                        assert(m == SpecJson::Obj(msm));
                        assert(encodes_to(s@, i as int, SpecJson::Obj(msm), rest));
                        assert(msm.len() > 0);
                    }
                }
                return None;
            }
            let rk = parse_string(s, j);
            match rk {
                None => {
                    proof {
                        assert forall|m: SpecJson, rest: Seq<u8>|
                            encodes_to(s@, i as int, m, rest) implies false by {
                            lemma_enc_first(m);
                            lemma_tail_split(s@, i as int, spec_encode(m), rest);
                            assert(s@[i + 0] == spec_encode(m)[0]);
                            assert(m is Obj);
                            let msm = m->Obj_0;
                            assert(m == SpecJson::Obj(msm));
                            assert(encodes_to(s@, i as int, SpecJson::Obj(msm), rest));
                            assert(msm.len() > 0);
                        }
                    }
                    return None;
                }
                Some((key, jk0)) => {
                    proof {
                        assert forall|msm: Seq<(Seq<char>, SpecJson)>, rest: Seq<u8>|
                            #![trigger encodes_to(s@, i as int, SpecJson::Obj(msm), rest)]
                            (encodes_to(s@, i as int, SpecJson::Obj(msm), rest) && msm.len() > 0)
                            implies (key@ == msm[t].0 && jk0 < s@.len() && s@[jk0 as int] == COLON
                            && encodes_to(
                            s@,
                            jk0 + 1,
                            msm[t].1,
                            members_rest(msm, t, rest),
                        )) by {
                            lemma_members_step(s@, j as int, msm, rest, t);
                        }
                    }
                    let jk = skip_ws(s, jk0);
                    proof {
                        assert forall|msm: Seq<(Seq<char>, SpecJson)>, rest: Seq<u8>|
                            #![trigger encodes_to(s@, i as int, SpecJson::Obj(msm), rest)]
                            (encodes_to(s@, i as int, SpecJson::Obj(msm), rest) && msm.len() > 0)
                            implies jk == jk0 by {
                            assert(!is_ws(COLON));
                        }
                    }
                    if !(jk < slen) {
                        proof {
                            assert forall|m: SpecJson, rest: Seq<u8>|
                                encodes_to(s@, i as int, m, rest) implies false by {
                                lemma_enc_first(m);
                                lemma_tail_split(s@, i as int, spec_encode(m), rest);
                                assert(s@[i + 0] == spec_encode(m)[0]);
                                assert(m is Obj);
                                let msm = m->Obj_0;
                                assert(m == SpecJson::Obj(msm));
                                assert(encodes_to(s@, i as int, SpecJson::Obj(msm), rest));
                                assert(msm.len() > 0);
                            }
                        }
                        return None;
                    }
                    if s[jk] != COLON {
                        proof {
                            assert forall|m: SpecJson, rest: Seq<u8>|
                                encodes_to(s@, i as int, m, rest) implies false by {
                                lemma_enc_first(m);
                                lemma_tail_split(s@, i as int, spec_encode(m), rest);
                                assert(s@[i + 0] == spec_encode(m)[0]);
                                assert(m is Obj);
                                let msm = m->Obj_0;
                                assert(m == SpecJson::Obj(msm));
                                assert(encodes_to(s@, i as int, SpecJson::Obj(msm), rest));
                                assert(msm.len() > 0);
                            }
                        }
                        return None;
                    }
                    let jv = skip_ws(s, jk + 1);
                    proof {
                        assert forall|msm: Seq<(Seq<char>, SpecJson)>, rest: Seq<u8>|
                            #![trigger encodes_to(s@, i as int, SpecJson::Obj(msm), rest)]
                            (encodes_to(s@, i as int, SpecJson::Obj(msm), rest) && msm.len() > 0)
                            implies (jv == jk + 1) by {
                            lemma_members_step(s@, j as int, msm, rest, t);
                            lemma_enc_first(msm[t].1);
                            lemma_tail_split(
                                s@,
                                jk + 1,
                                spec_encode(msm[t].1),
                                members_rest(msm, t, rest),
                            );
                            assert(s@[jk + 1 + 0] == spec_encode(msm[t].1)[0]);
                            assert(!is_ws(s@[jk + 1]));
                        }
                    }
                    let rv = parse_value(s, jv);
                    match rv {
                        None => {
                            proof {
                                assert forall|m: SpecJson, rest: Seq<u8>|
                                    encodes_to(s@, i as int, m, rest) implies false by {
                                    lemma_enc_first(m);
                                    lemma_tail_split(s@, i as int, spec_encode(m), rest);
                                    assert(s@[i + 0] == spec_encode(m)[0]);
                                    assert(m is Obj);
                                    let msm = m->Obj_0;
                                    assert(m == SpecJson::Obj(msm));
                                    assert(encodes_to(s@, i as int, SpecJson::Obj(msm), rest));
                                    assert(msm.len() > 0);
                                }
                            }
                            return None;
                        }
                        Some((v, j2)) => {
                            let ghost prev_members = members@;
                            members.push((key, v));
                            let j3 = skip_ws(s, j2);
                            proof {
                                assert forall|msm: Seq<(Seq<char>, SpecJson)>, rest: Seq<u8>|
                                    #![trigger encodes_to(s@, i as int, SpecJson::Obj(msm), rest)]
                                    (encodes_to(s@, i as int, SpecJson::Obj(msm), rest)
                                        && msm.len() > 0) implies (jv_model_members(members@)
                                    == msm.take(t + 1) && tail_from(s@, j2 as int) == members_rest(
                                    msm,
                                    t,
                                    rest,
                                ) && j3 == j2 && j3 < s@.len() && (t + 1 < msm.len() <==> s@[
                                    j3 as int
                                ] == COMMA) && (t + 1 == msm.len() <==> s@[j3 as int] == RBRACE))
                                    by {
                                    lemma_members_step(s@, j as int, msm, rest, t);
                                    lemma_tail_split(
                                        s@,
                                        jk + 1,
                                        spec_encode(msm[t].1),
                                        members_rest(msm, t, rest),
                                    );
                                    assert(jv_model_members(members@) =~= msm.take(t + 1)) by {
                                        lemma_jv_model_members(members@);
                                        lemma_jv_model_members(prev_members);
                                        assert(forall|q: int|
                                            0 <= q < t ==> members@[q] == prev_members[q]);
                                    }
                                    let mr = members_rest(msm, t, rest);
                                    assert(tail_from(s@, j2 as int)[0] == s@[j2 as int]);
                                    assert(mr[0] == COMMA || mr[0] == RBRACE);
                                    assert(!is_ws(s@[j2 as int]));
                                    if t + 1 < msm.len() {
                                        assert(mr[0] == COMMA);
                                    } else {
                                        assert(mr[0] == RBRACE);
                                    }
                                }
                            }
                            if j3 < slen && s[j3] == COMMA {
                                let j4 = skip_ws(s, j3 + 1);
                                proof {
                                    assert forall|msm: Seq<(Seq<char>, SpecJson)>, rest: Seq<u8>|
                                        (encodes_to(s@, i as int, SpecJson::Obj(msm), rest)
                                            && msm.len() > 0) implies (members@.len() < msm.len()
                                        && tail_from(s@, j4 as int) == spec_encode_members(
                                        msm.skip(members@.len() as int),
                                    ) + seq![RBRACE] + rest && j4 == j3 + 1) by {
                                        let mr = members_rest(msm, t, rest);
                                        assert(t + 1 < msm.len());
                                        assert(mr =~= seq![COMMA] + (spec_encode_members(
                                            msm.skip(t + 1),
                                        ) + seq![RBRACE] + rest));
                                        lemma_tail_split(
                                            s@,
                                            j3 as int,
                                            seq![COMMA],
                                            spec_encode_members(msm.skip(t + 1)) + seq![RBRACE]
                                                + rest,
                                        );
                                        lemma_members_step(s@, j3 + 1, msm, rest, t + 1);
                                        lemma_tail_split(
                                            s@,
                                            j3 + 1,
                                            enc_str(msm[t + 1].0),
                                            seq![COLON] + spec_encode(msm[t + 1].1) + members_rest(
                                                msm,
                                                t + 1,
                                                rest,
                                            ),
                                        );
                                        assert(s@[j3 + 1 + 0] == enc_str(msm[t + 1].0)[0]);
                                        assert(enc_str(msm[t + 1].0)[0] == QUOTE);
                                        assert(!is_ws(s@[j3 + 1]));
                                    }
                                }
                                j = j4;
                            } else if j3 < slen && s[j3] == RBRACE {
                                proof {
                                    assert forall|m: SpecJson, rest: Seq<u8>|
                                        encodes_to(s@, i as int, m, rest) implies (JsonValue::Obj(
                                        members,
                                    ).deep_view() == m && j3 + 1 == i + spec_encode(m).len()) by {
                                        lemma_enc_first(m);
                                        lemma_tail_split(s@, i as int, spec_encode(m), rest);
                                        assert(s@[i + 0] == spec_encode(m)[0]);
                                        assert(m is Obj);
                                        let msm = m->Obj_0;
                                        assert(m == SpecJson::Obj(msm));
                                        assert(encodes_to(s@, i as int, SpecJson::Obj(msm), rest));
                                        assert(msm.len() > 0);
                                        assert(t + 1 == msm.len());
                                        assert(jv_model_members(members@) == msm.take(t + 1));
                                        assert(msm.take(t + 1) =~= msm);
                                        let mr = members_rest(msm, t, rest);
                                        assert(tail_from(s@, j3 as int).len() == s@.len() - j3);
                                        assert(mr.len() == 1 + rest.len());
                                        assert(tail_from(s@, i as int).len() == s@.len() - i);
                                    }
                                }
                                return Some((JsonValue::Obj(members), j3 + 1));
                            } else {
                                proof {
                                    assert forall|m: SpecJson, rest: Seq<u8>|
                                        encodes_to(s@, i as int, m, rest) implies false by {
                                        lemma_enc_first(m);
                                        lemma_tail_split(s@, i as int, spec_encode(m), rest);
                                        assert(s@[i + 0] == spec_encode(m)[0]);
                                        assert(m is Obj);
                                        let msm = m->Obj_0;
                                        assert(m == SpecJson::Obj(msm));
                                        assert(encodes_to(s@, i as int, SpecJson::Obj(msm), rest));
                                        assert(msm.len() > 0);
                                    }
                                }
                                return None;
                            }
                        }
                    }
                }
            }
        }
}



/// Parses a whole JSON document: one value, surrounded by optional
/// whitespace, spanning the entire input.
pub fn parse_json(s: &[u8]) -> (r: Option<JsonValue>)
    ensures
        forall|m: SpecJson|
            wf_json(m) && s@ == spec_encode(m) ==> (match r {
                Some(v) => v.deep_view() == m,
                None => false,
            }),
        spec_plainly_malformed(s@) ==> r is None,
{
    let i = skip_ws(s, 0);
    proof {
        lemma_ws_end_run(s@, 0, i as int);
        assert forall|m: SpecJson| wf_json(m) && s@ == spec_encode(m) implies (i == 0 && encodes_to(
            s@,
            0,
            m,
            Seq::<u8>::empty(),
        )) by {
            lemma_enc_first(m);
            assert(tail_from(s@, 0) =~= spec_encode(m) + Seq::<u8>::empty());
            assert(s@[0] == spec_encode(m)[0]);
        }
    }
    match parse_value(s, i) {
        None => None,
        Some((v, j)) => {
            let j2 = skip_ws(s, j);
            if j2 == s.len() {
                Some(v)
            } else {
                None
            }
        }
    }
}

} // verus!

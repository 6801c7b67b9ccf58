//! JSON document model and serializer.
//!
//! The wire format of every message this worker reads or writes is JSON.
//! `JsonValue` is the executable document tree; `SpecJson` is its
//! mathematical counterpart, reached through `deep_view`. The encoder
//! produces the canonical byte form `spec_encode` describes, so callers can
//! reason about the exact bytes that leave the worker.
//!
//! Numbers are integers (`I64`) or thousandths (`Milli`, printed with three
//! fractional digits); the protocol only carries integer counts and a load
//! fraction, so this covers every value the worker emits.
use vstd::prelude::*;
use vstd::string::StrSliceExecFns;
use vstd::string::StringSliceAdditionalSpecFns;

verus! {

/// Mathematical model of a JSON document.
pub enum SpecJson {
    Null,
    Bool(bool),
    I64(i64),
    /// A value in thousandths: `Milli(m)` denotes m/1000.
    Milli(i64),
    /// A numeric literal the bounded number model cannot hold exactly
    /// (an exponent, a long fraction, or an out-of-range magnitude),
    /// kept as its lexeme and compared structurally.
    NumLit(Seq<char>),
    Str(Seq<char>),
    Arr(Seq<SpecJson>),
    Obj(Seq<(Seq<char>, SpecJson)>),
}

/// Executable JSON document tree.
pub enum JsonValue {
    Null,
    Bool(bool),
    I64(i64),
    /// A value in thousandths: `Milli(m)` denotes m/1000.
    Milli(i64),
    /// A numeric literal the bounded number model cannot hold exactly;
    /// the parser produces it and the encoder emits it verbatim.
    NumLit(String),
    Str(String),
    Arr(Vec<JsonValue>),
    Obj(Vec<(String, JsonValue)>),
}

/// Model of an executable document tree.
pub open spec fn jv_model(v: JsonValue) -> SpecJson
    decreases v,
{
    match v {
        JsonValue::Null => SpecJson::Null,
        JsonValue::Bool(b) => SpecJson::Bool(b),
        JsonValue::I64(i) => SpecJson::I64(i),
        JsonValue::Milli(m) => SpecJson::Milli(m),
        JsonValue::NumLit(s) => SpecJson::NumLit(s@),
        JsonValue::Str(s) => SpecJson::Str(s@),
        JsonValue::Arr(items) => SpecJson::Arr(jv_model_list(items@)),
        JsonValue::Obj(members) => SpecJson::Obj(jv_model_members(members@)),
    }
}

/// Models of a sequence of documents, in order.
pub open spec fn jv_model_list(items: Seq<JsonValue>) -> Seq<SpecJson>
    decreases items,
{
    if items.len() == 0 {
        Seq::empty()
    } else {
        seq![jv_model(items[0])] + jv_model_list(items.drop_first())
    }
}

/// Models of a sequence of members, in order.
pub open spec fn jv_model_members(members: Seq<(String, JsonValue)>) -> Seq<(Seq<char>, SpecJson)>
    decreases members,
{
    if members.len() == 0 {
        Seq::empty()
    } else {
        seq![(members[0].0@, jv_model(members[0].1))] + jv_model_members(members.drop_first())
    }
}

/// A model list has one model per document, in place.
pub proof fn lemma_jv_model_list(items: Seq<JsonValue>)
    ensures
        jv_model_list(items).len() == items.len(),
        forall|i: int| 0 <= i < items.len() ==> jv_model_list(items)[i] == jv_model(items[i]),
    decreases items.len(),
{
    if items.len() > 0 {
        lemma_jv_model_list(items.drop_first());
    }
}

/// A model member sequence has one model per member, in place.
pub proof fn lemma_jv_model_members(members: Seq<(String, JsonValue)>)
    ensures
        jv_model_members(members).len() == members.len(),
        forall|i: int| 0 <= i < members.len() ==> jv_model_members(members)[i] == (
            members[i].0@,
            jv_model(members[i].1),
        ),
    decreases members.len(),
{
    if members.len() > 0 {
        lemma_jv_model_members(members.drop_first());
    }
}

impl DeepView for JsonValue {
    type V = SpecJson;

    open spec fn deep_view(&self) -> SpecJson {
        jv_model(*self)
    }
}

/// Structural size of a document, used as a termination measure.
pub open spec fn jv_size(v: JsonValue) -> nat
    decreases v,
{
    match v {
        JsonValue::Arr(items) => 1 + jv_size_list(items@),
        JsonValue::Obj(members) => 1 + jv_size_members(members@),
        _ => 1nat,
    }
}

/// Total size of a sequence of documents.
pub open spec fn jv_size_list(items: Seq<JsonValue>) -> nat
    decreases items,
{
    if items.len() == 0 {
        0nat
    } else {
        jv_size(items[0]) + jv_size_list(items.drop_first())
    }
}

/// Total size of a sequence of members.
pub open spec fn jv_size_members(members: Seq<(String, JsonValue)>) -> nat
    decreases members,
{
    if members.len() == 0 {
        0nat
    } else {
        jv_size(members[0].1) + jv_size_members(members.drop_first())
    }
}

/// Every item counts toward the size of its sequence.
proof fn lemma_jv_size_list(items: Seq<JsonValue>)
    ensures
        forall|i: int| 0 <= i < items.len() ==> jv_size(items[i]) <= jv_size_list(items),
    decreases items.len(),
{
    if items.len() > 0 {
        lemma_jv_size_list(items.drop_first());
        assert forall|i: int| 0 <= i < items.len() implies jv_size(items[i]) <= jv_size_list(
            items,
        ) by {
            if i > 0 {
                assert(items.drop_first()[i - 1] == items[i]);
            }
        }
    }
}

/// Every member's value counts toward the size of its sequence.
proof fn lemma_jv_size_members(members: Seq<(String, JsonValue)>)
    ensures
        forall|i: int| 0 <= i < members.len() ==> jv_size(members[i].1) <= jv_size_members(
            members,
        ),
    decreases members.len(),
{
    if members.len() > 0 {
        lemma_jv_size_members(members.drop_first());
        assert forall|i: int| 0 <= i < members.len() implies jv_size(members[i].1)
            <= jv_size_members(members) by {
            if i > 0 {
                assert(members.drop_first()[i - 1] == members[i]);
            }
        }
    }
}

pub const QUOTE: u8 = 0x22;
pub const BACKSLASH: u8 = 0x5c;
pub const LBRACKET: u8 = 0x5b;
pub const RBRACKET: u8 = 0x5d;
pub const LBRACE: u8 = 0x7b;
pub const RBRACE: u8 = 0x7d;
pub const COMMA: u8 = 0x2c;
pub const COLON: u8 = 0x3a;
pub const MINUS: u8 = 0x2d;
pub const DOT: u8 = 0x2e;

/// Decimal digit byte for a value below ten.
pub open spec fn digit_byte(d: nat) -> u8 {
    (0x30 + d) as u8
}

/// Decimal representation of a natural number, most significant digit first.
pub open spec fn spec_dec(n: nat) -> Seq<u8>
    decreases n,
{
    if n < 10 {
        seq![digit_byte(n)]
    } else {
        spec_dec(n / 10) + seq![digit_byte(n % 10)]
    }
}

/// Absolute value of an `i64` as a mathematical integer.
pub open spec fn abs_i64(i: i64) -> nat {
    if i < 0 {
        (-(i as int)) as nat
    } else {
        i as nat
    }
}

/// Canonical decimal form of an `i64`.
pub open spec fn enc_i64(i: i64) -> Seq<u8> {
    if i < 0 {
        seq![MINUS] + spec_dec(abs_i64(i))
    } else {
        spec_dec(abs_i64(i))
    }
}

/// Exactly three decimal digits for a value below one thousand.
pub open spec fn spec_dec3(n: nat) -> Seq<u8> {
    seq![digit_byte(n / 100 % 10), digit_byte(n / 10 % 10), digit_byte(n % 10)]
}

/// Canonical form of a thousandths value: sign, units, dot, three digits.
pub open spec fn enc_milli(m: i64) -> Seq<u8> {
    let a = abs_i64(m);
    let sign: Seq<u8> = if m < 0 {
        seq![MINUS]
    } else {
        Seq::empty()
    };
    sign + spec_dec(a / 1000) + seq![DOT] + spec_dec3(a % 1000)
}

/// Lower-case hexadecimal digit byte for a value below sixteen.
pub open spec fn hex_digit_byte(d: nat) -> u8 {
    if d < 10 {
        (0x30 + d) as u8
    } else {
        (0x57 + d) as u8
    }
}

/// Escape sequence for one byte inside a JSON string literal.
pub open spec fn esc1(b: u8) -> Seq<u8> {
    if b == QUOTE {
        seq![BACKSLASH, QUOTE]
    } else if b == BACKSLASH {
        seq![BACKSLASH, BACKSLASH]
    } else if b < 0x20 {
        seq![BACKSLASH, 0x75u8, 0x30u8, 0x30u8, hex_digit_byte((b / 16) as nat), hex_digit_byte((b % 16) as nat)]
    } else {
        seq![b]
    }
}

/// Escaped form of a byte sequence inside a JSON string literal.
pub open spec fn esc(bs: Seq<u8>) -> Seq<u8>
    decreases bs.len(),
{
    if bs.len() == 0 {
        Seq::empty()
    } else {
        esc1(bs[0]) + esc(bs.drop_first())
    }
}

/// Canonical JSON string literal for a character sequence.
pub open spec fn enc_str(cs: Seq<char>) -> Seq<u8> {
    seq![QUOTE] + esc(vstd::utf8::encode_utf8(cs)) + seq![QUOTE]
}

/// Canonical byte encoding of a JSON document: no whitespace, members in
/// the order given, numbers in decimal, `Milli` with three fractional
/// digits.
pub open spec fn spec_encode(v: SpecJson) -> Seq<u8>
    decreases v,
{
    match v {
        SpecJson::Null => seq![0x6eu8, 0x75u8, 0x6cu8, 0x6cu8],
        SpecJson::Bool(b) => if b {
            seq![0x74u8, 0x72u8, 0x75u8, 0x65u8]
        } else {
            seq![0x66u8, 0x61u8, 0x6cu8, 0x73u8, 0x65u8]
        },
        SpecJson::I64(i) => enc_i64(i),
        SpecJson::Milli(m) => enc_milli(m),
        SpecJson::NumLit(cs) => vstd::utf8::encode_utf8(cs),
        SpecJson::Str(cs) => enc_str(cs),
        SpecJson::Arr(items) => seq![LBRACKET] + spec_encode_list(items) + seq![RBRACKET],
        SpecJson::Obj(members) => seq![LBRACE] + spec_encode_members(members) + seq![RBRACE],
    }
}

/// Comma-separated encodings of array items.
pub open spec fn spec_encode_list(items: Seq<SpecJson>) -> Seq<u8>
    decreases items,
{
    if items.len() == 0 {
        Seq::empty()
    } else if items.len() == 1 {
        spec_encode(items[0])
    } else {
        spec_encode(items[0]) + seq![COMMA] + spec_encode_list(items.drop_first())
    }
}

/// Comma-separated `"key":value` encodings of object members.
pub open spec fn spec_encode_members(members: Seq<(Seq<char>, SpecJson)>) -> Seq<u8>
    decreases members,
{
    if members.len() == 0 {
        Seq::empty()
    } else if members.len() == 1 {
        enc_str(members[0].0) + seq![COLON] + spec_encode(members[0].1)
    } else {
        enc_str(members[0].0) + seq![COLON] + spec_encode(members[0].1) + seq![COMMA]
            + spec_encode_members(members.drop_first())
    }
}

/// Appends the decimal digits of `n`.
fn push_dec_u64(out: &mut Vec<u8>, n: u64)
    ensures
        final(out)@ == old(out)@ + spec_dec(n as nat),
    decreases n,
{
    if n >= 10 {
        push_dec_u64(out, n / 10);
    }
    out.push(0x30 + (n % 10) as u8);
    assert(out@ =~= old(out)@ + spec_dec(n as nat));
}

/// Appends the canonical decimal form of `i`.
fn push_i64(out: &mut Vec<u8>, i: i64)
    ensures
        final(out)@ == old(out)@ + enc_i64(i),
{
    let a: u64 = if i == i64::MIN {
        9223372036854775808u64
    } else if i < 0 {
        (-i) as u64
    } else {
        i as u64
    };
    assert(a as nat == abs_i64(i));
    if i < 0 {
        out.push(MINUS);
    }
    push_dec_u64(out, a);
    assert(out@ =~= old(out)@ + enc_i64(i));
}

/// Appends the canonical form of a thousandths value.
fn push_milli(out: &mut Vec<u8>, m: i64)
    ensures
        final(out)@ == old(out)@ + enc_milli(m),
{
    let a: u64 = if m == i64::MIN {
        9223372036854775808u64
    } else if m < 0 {
        (-m) as u64
    } else {
        m as u64
    };
    assert(a as nat == abs_i64(m));
    if m < 0 {
        out.push(MINUS);
    }
    push_dec_u64(out, a / 1000);
    out.push(DOT);
    let frac: u64 = a % 1000;
    out.push(0x30 + (frac / 100 % 10) as u8);
    out.push(0x30 + (frac / 10 % 10) as u8);
    out.push(0x30 + (frac % 10) as u8);
    assert(out@ =~= old(out)@ + enc_milli(m));
}

/// Appends the escaped bytes of a string body.
fn push_escaped(out: &mut Vec<u8>, bs: &[u8])
    ensures
        final(out)@ == old(out)@ + esc(bs@),
{
    let mut k: usize = 0;
    proof {
        assert(out@ =~= old(out)@ + esc(bs@.subrange(0, 0)));
    }
    while k < bs.len()
        invariant
            k <= bs@.len(),
            out@ == old(out)@ + esc(bs@.subrange(0, k as int)),
        decreases bs@.len() - k,
    {
        let b = bs[k];
        if b == QUOTE {
            out.push(BACKSLASH);
            out.push(QUOTE);
        } else if b == BACKSLASH {
            out.push(BACKSLASH);
            out.push(BACKSLASH);
        } else if b < 0x20 {
            out.push(BACKSLASH);
            out.push(0x75);
            out.push(0x30);
            out.push(0x30);
            let hi = b / 16;
            let lo = b % 16;
            out.push(if hi < 10 { 0x30 + hi } else { 0x57 + hi });
            out.push(if lo < 10 { 0x30 + lo } else { 0x57 + lo });
        } else {
            out.push(b);
        }
        proof {
            lemma_esc_snoc(bs@.subrange(0, k as int), bs@[k as int]);
            assert(bs@.subrange(0, k + 1 as int) =~= bs@.subrange(0, k as int) + seq![bs@[k as int]]);
            assert(out@ =~= old(out)@ + esc(bs@.subrange(0, k + 1 as int)));
        }
        k = k + 1;
    }
    proof {
        assert(bs@.subrange(0, bs@.len() as int) =~= bs@);
    }
}

/// Escaping distributes over appending one byte.
pub proof fn lemma_esc_snoc(bs: Seq<u8>, b: u8)
    ensures
        esc(bs + seq![b]) == esc(bs) + esc1(b),
    decreases bs.len(),
{
    if bs.len() == 0 {
        assert(bs + seq![b] =~= seq![b]);
        assert(seq![b].drop_first() =~= Seq::<u8>::empty());
        assert(esc(seq![b]) == esc1(b) + esc(Seq::<u8>::empty()));
        assert(esc(bs + seq![b]) =~= esc(bs) + esc1(b));
    } else {
        assert((bs + seq![b]).drop_first() =~= bs.drop_first() + seq![b]);
        lemma_esc_snoc(bs.drop_first(), b);
        assert(esc(bs + seq![b]) =~= esc(bs) + esc1(b));
    }
}

/// Appends the bytes of `s` unescaped and unquoted: numeric lexemes go
/// out exactly as they came in.
fn push_raw(out: &mut Vec<u8>, s: &str)
    ensures
        final(out)@ == old(out)@ + vstd::utf8::encode_utf8(s@),
{
    let bs = s.as_bytes();
    let mut k: usize = 0;
    proof {
        assert(out@ + bs@.subrange(0, 0) =~= out@);
    }
    while k < bs.len()
        invariant
            k <= bs@.len(),
            bs@ == s.spec_bytes(),
            out@ == old(out)@ + bs@.subrange(0, k as int),
        decreases bs@.len() - k,
    {
        out.push(bs[k]);
        proof {
            assert(bs@.subrange(0, k + 1 as int) =~= bs@.subrange(0, k as int) + seq![
                bs@[k as int],
            ]);
            assert(out@ =~= old(out)@ + bs@.subrange(0, k + 1 as int));
        }
        k = k + 1;
    }
    proof {
        assert(bs@.subrange(0, bs@.len() as int) =~= bs@);
    }
}

/// Appends the canonical JSON string literal holding the characters of `s`.
fn push_string(out: &mut Vec<u8>, s: &str)
    ensures
        final(out)@ == old(out)@ + enc_str(s@),
{
    out.push(QUOTE);
    push_escaped(out, s.as_bytes());
    out.push(QUOTE);
    assert(out@ =~= old(out)@ + enc_str(s@));
}

/// Character-for-character string equality.
pub fn str_eq(a: &str, b: &str) -> (r: bool)
    ensures
        r == (a@ == b@),
{
    let ab = a.as_bytes();
    let bb = b.as_bytes();
    if ab.len() != bb.len() {
        proof {
            if a@ == b@ {
                assert(a.spec_bytes() == b.spec_bytes());
            }
        }
        return false;
    }
    let mut k: usize = 0;
    while k < ab.len()
        invariant
            k <= ab@.len(),
            ab@.len() == bb@.len(),
            ab@ == a.spec_bytes(),
            bb@ == b.spec_bytes(),
            forall|i: int| 0 <= i < k ==> ab@[i] == bb@[i],
        decreases ab@.len() - k,
    {
        if ab[k] != bb[k] {
            proof {
                if a@ == b@ {
                    assert(a.spec_bytes() == b.spec_bytes());
                }
            }
            return false;
        }
        k = k + 1;
    }
    proof {
        assert(a.spec_bytes() =~= b.spec_bytes());
        vstd::utf8::encode_utf8_decode_utf8(a@);
        vstd::utf8::encode_utf8_decode_utf8(b@);
    }
    true
}

impl JsonValue {
    /// Appends the canonical encoding of this document.
    #[verifier::loop_isolation(false)]
    #[verifier::rlimit(100)]
    #[verifier::spinoff_prover]
    pub fn push_encoded(&self, out: &mut Vec<u8>)
        ensures
            final(out)@ == old(out)@ + spec_encode(self.deep_view()),
        decreases jv_size(*self),
    {
        match self {
            JsonValue::Null => {
                out.push(0x6e);
                out.push(0x75);
                out.push(0x6c);
                out.push(0x6c);
                assert(out@ =~= old(out)@ + spec_encode(self.deep_view()));
            }
            JsonValue::Bool(b) => {
                if *b {
                    out.push(0x74);
                    out.push(0x72);
                    out.push(0x75);
                    out.push(0x65);
                } else {
                    out.push(0x66);
                    out.push(0x61);
                    out.push(0x6c);
                    out.push(0x73);
                    out.push(0x65);
                }
                assert(out@ =~= old(out)@ + spec_encode(self.deep_view()));
            }
            JsonValue::I64(i) => {
                push_i64(out, *i);
            }
            JsonValue::Milli(m) => {
                push_milli(out, *m);
            }
            JsonValue::NumLit(s) => {
                push_raw(out, s.as_str());
            }
            JsonValue::Str(s) => {
                push_string(out, s.as_str());
            }
            JsonValue::Arr(items) => {
                let ghost model = jv_model_list(items@);
                proof {
                    lemma_jv_model_list(items@);
                }
                out.push(LBRACKET);
                let mut k: usize = 0;
                while k < items.len()
                    invariant
                        k <= items@.len(),
                        model == jv_model_list(items@),
                        model.len() == items@.len(),
                        forall|i: int| 0 <= i < items@.len() ==> model[i] == jv_model(items@[i]),
                        out@ == old(out)@ + seq![LBRACKET] + spec_encode_list(model.take(k as int)),
                    decreases items@.len() - k,
                {
                    if k > 0 {
                        out.push(COMMA);
                    }
                    proof {
                        lemma_jv_size_list(items@);
                    }
                    items[k].push_encoded(out);
                    proof {
                        lemma_encode_list_snoc(model.take(k as int), model[k as int]);
                        assert(model.take(k + 1 as int) =~= model.take(k as int) + seq![model[k as int]]);
                        assert(out@ =~= old(out)@ + seq![LBRACKET] + spec_encode_list(model.take(k + 1 as int)));
                    }
                    k = k + 1;
                }
                out.push(RBRACKET);
                proof {
                    assert(model.take(model.len() as int) =~= model);
                    assert(out@ =~= old(out)@ + spec_encode(self.deep_view()));
                }
            }
            JsonValue::Obj(members) => {
                let ghost model = jv_model_members(members@);
                proof {
                    lemma_jv_model_members(members@);
                }
                out.push(LBRACE);
                let mut k: usize = 0;
                while k < members.len()
                    invariant
                        k <= members@.len(),
                        model == jv_model_members(members@),
                        model.len() == members@.len(),
                        forall|i: int| 0 <= i < members@.len() ==> model[i] == (
                            members@[i].0@,
                            jv_model(members@[i].1),
                        ),
                        out@ == old(out)@ + seq![LBRACE] + spec_encode_members(model.take(k as int)),
                    decreases members@.len() - k,
                {
                    if k > 0 {
                        out.push(COMMA);
                    }
                    push_string(out, members[k].0.as_str());
                    out.push(COLON);
                    proof {
                        lemma_jv_size_members(members@);
                    }
                    members[k].1.push_encoded(out);
                    proof {
                        lemma_encode_members_snoc(model.take(k as int), model[k as int]);
                        assert(model.take(k + 1 as int) =~= model.take(k as int) + seq![model[k as int]]);
                        assert(out@ =~= old(out)@ + seq![LBRACE] + spec_encode_members(model.take(k + 1 as int)));
                    }
                    k = k + 1;
                }
                out.push(RBRACE);
                proof {
                    assert(model.take(model.len() as int) =~= model);
                    assert(out@ =~= old(out)@ + spec_encode(self.deep_view()));
                }
            }
        }
    }

    /// Canonical encoding of this document as bytes.
    pub fn encode(&self) -> (r: Vec<u8>)
        ensures
            r@ == spec_encode(self.deep_view()),
    {
        let mut out: Vec<u8> = Vec::new();
        self.push_encoded(&mut out);
        out
    }

    /// First member bound to `key`, if any.
    #[verifier::loop_isolation(false)]
    pub fn get<'a>(&'a self, key: &str) -> (r: Option<&'a JsonValue>)
        ensures
            match r {
                Some(v) => spec_obj_get(self.deep_view(), key@) == Some(v.deep_view()),
                None => spec_obj_get(self.deep_view(), key@) is None,
            },
    {
        match self {
            JsonValue::Obj(members) => {
                let ghost model = jv_model_members(members@);
                proof {
                    lemma_jv_model_members(members@);
                    assert(model.skip(0) =~= model);
                }
                let mut k: usize = 0;
                while k < members.len()
                    invariant
                        k <= members@.len(),
                        model == jv_model_members(members@),
                        model.len() == members@.len(),
                        forall|i: int| 0 <= i < members@.len() ==> model[i] == (
                            members@[i].0@,
                            jv_model(members@[i].1),
                        ),
                        spec_member_lookup(model, key@) == spec_member_lookup(model.skip(k as int), key@),
                    decreases members@.len() - k,
                {
                    proof {
                        assert(model.skip(k as int).drop_first() =~= model.skip(k + 1 as int));
                        assert(model.skip(k as int)[0] == model[k as int]);
                    }
                    if str_eq(members[k].0.as_str(), key) {
                        proof {
                            assert(model.skip(k as int)[0].0 == key@);
                            assert(spec_member_lookup(model.skip(k as int), key@) == Some(
                                model[k as int].1,
                            ));
                        }
                        return Some(&members[k].1);
                    }
                    k = k + 1;
                }
                proof {
                    assert(model.skip(model.len() as int) =~= Seq::<(Seq<char>, SpecJson)>::empty());
                }
                None
            }
            _ => None,
        }
    }

    /// The number as a nonnegative count, if it is one.
    pub fn as_u64(&self) -> (r: Option<u64>)
        ensures
            r == spec_as_u64(self.deep_view()),
    {
        match self {
            JsonValue::I64(i) => {
                if *i >= 0 {
                    Some(*i as u64)
                } else {
                    None
                }
            }
            _ => None,
        }
    }

    /// The string contents, if this is a string.
    pub fn as_str<'a>(&'a self) -> (r: Option<&'a String>)
        ensures
            match r {
                Some(s) => self.deep_view() == SpecJson::Str(s@),
                None => !(self.deep_view() is Str),
            },
    {
        match self {
            JsonValue::Str(s) => Some(s),
            _ => None,
        }
    }
}

/// First binding of `key` among `members`.
pub open spec fn spec_member_lookup(members: Seq<(Seq<char>, SpecJson)>, key: Seq<char>) -> Option<
    SpecJson,
>
    decreases members.len(),
{
    if members.len() == 0 {
        None
    } else if members[0].0 == key {
        Some(members[0].1)
    } else {
        spec_member_lookup(members.drop_first(), key)
    }
}

/// Lookup of `key` in a document: a binding only for objects that name it.
pub open spec fn spec_obj_get(v: SpecJson, key: Seq<char>) -> Option<SpecJson> {
    match v {
        SpecJson::Obj(members) => spec_member_lookup(members, key),
        _ => None,
    }
}

/// The nonnegative count a document denotes, mirroring `JsonValue::as_u64`.
pub open spec fn spec_as_u64(v: SpecJson) -> Option<u64> {
    match v {
        SpecJson::I64(i) => if i >= 0 {
            Some(i as u64)
        } else {
            None
        },
        _ => None,
    }
}

/// List encoding distributes over appending one item.
proof fn lemma_encode_list_snoc(items: Seq<SpecJson>, v: SpecJson)
    ensures
        spec_encode_list(items + seq![v]) == if items.len() == 0 {
            spec_encode(v)
        } else {
            spec_encode_list(items) + seq![COMMA] + spec_encode(v)
        },
    decreases items.len(),
{
    if items.len() == 0 {
        assert(items + seq![v] =~= seq![v]);
    } else {
        assert((items + seq![v]).drop_first() =~= items.drop_first() + seq![v]);
        lemma_encode_list_snoc(items.drop_first(), v);
        if items.len() == 1 {
            assert(spec_encode_list(items + seq![v]) =~= spec_encode_list(items) + seq![COMMA]
                + spec_encode(v));
        } else {
            assert(spec_encode_list(items + seq![v]) =~= spec_encode_list(items) + seq![COMMA]
                + spec_encode(v));
        }
    }
}

/// Member encoding distributes over appending one member.
proof fn lemma_encode_members_snoc(members: Seq<(Seq<char>, SpecJson)>, m: (Seq<char>, SpecJson))
    ensures
        spec_encode_members(members + seq![m]) == if members.len() == 0 {
            enc_str(m.0) + seq![COLON] + spec_encode(m.1)
        } else {
            spec_encode_members(members) + seq![COMMA] + enc_str(m.0) + seq![COLON]
                + spec_encode(m.1)
        },
    decreases members.len(),
{
    if members.len() == 0 {
        assert(members + seq![m] =~= seq![m]);
    } else {
        assert((members + seq![m]).drop_first() =~= members.drop_first() + seq![m]);
        lemma_encode_members_snoc(members.drop_first(), m);
        assert(spec_encode_members(members + seq![m]) =~= spec_encode_members(members)
            + seq![COMMA] + enc_str(m.0) + seq![COLON] + spec_encode(m.1));
    }
}


/// Member sequence for an optional string field: present iff the value is.
pub open spec fn opt_member(key: Seq<char>, v: Option<Seq<char>>) -> Seq<(Seq<char>, SpecJson)> {
    match v {
        Some(cs) => seq![(key, SpecJson::Str(cs))],
        None => Seq::empty(),
    }
}

/// Lookup finds the head member when its key matches.
pub proof fn lemma_lookup_hit(m0: (Seq<char>, SpecJson), tail: Seq<(Seq<char>, SpecJson)>, key: Seq<char>)
    requires
        m0.0 == key,
    ensures
        spec_member_lookup(seq![m0] + tail, key) == Some(m0.1),
{
    assert((seq![m0] + tail)[0] == m0);
    assert((seq![m0] + tail).len() >= 1);
}

/// Lookup passes over a head member with a different key.
pub proof fn lemma_lookup_skip(m0: (Seq<char>, SpecJson), tail: Seq<(Seq<char>, SpecJson)>, key: Seq<char>)
    requires
        m0.0 != key,
    ensures
        spec_member_lookup(seq![m0] + tail, key) == spec_member_lookup(tail, key),
{
    assert((seq![m0] + tail)[0] == m0);
    assert((seq![m0] + tail).drop_first() =~= tail);
}

/// Lookup passes over an optional member with a different key.
pub proof fn lemma_lookup_skip_opt(
    optkey: Seq<char>,
    v: Option<Seq<char>>,
    tail: Seq<(Seq<char>, SpecJson)>,
    key: Seq<char>,
)
    requires
        optkey != key,
    ensures
        spec_member_lookup(opt_member(optkey, v) + tail, key) == spec_member_lookup(tail, key),
{
    match v {
        Some(cs) => {
            lemma_lookup_skip((optkey, SpecJson::Str(cs)), tail, key);
            assert(opt_member(optkey, v) + tail =~= seq![(optkey, SpecJson::Str(cs))] + tail);
        }
        None => {
            assert(opt_member(optkey, v) + tail =~= tail);
        }
    }
}

/// Lookup of an optional member's own key: the value when present, else
/// whatever the rest holds.
pub proof fn lemma_lookup_opt(
    optkey: Seq<char>,
    v: Option<Seq<char>>,
    tail: Seq<(Seq<char>, SpecJson)>,
)
    ensures
        spec_member_lookup(opt_member(optkey, v) + tail, optkey) == match v {
            Some(cs) => Some(SpecJson::Str(cs)),
            None => spec_member_lookup(tail, optkey),
        },
{
    match v {
        Some(cs) => {
            lemma_lookup_hit((optkey, SpecJson::Str(cs)), tail, optkey);
            assert(opt_member(optkey, v) + tail =~= seq![(optkey, SpecJson::Str(cs))] + tail);
        }
        None => {
            assert(opt_member(optkey, v) + tail =~= tail);
        }
    }
}

/// Model sequences distribute over appending one document.
pub proof fn lemma_jv_model_list_snoc(prev: Seq<JsonValue>, x: JsonValue)
    ensures
        jv_model_list(prev + seq![x]) == jv_model_list(prev) + seq![jv_model(x)],
{
    lemma_jv_model_list(prev + seq![x]);
    lemma_jv_model_list(prev);
    assert(jv_model_list(prev + seq![x]) =~= jv_model_list(prev) + seq![jv_model(x)]);
}

/// Model member sequences distribute over appending one member.
pub proof fn lemma_jv_model_members_snoc(prev: Seq<(String, JsonValue)>, x: (String, JsonValue))
    ensures
        jv_model_members(prev + seq![x]) == jv_model_members(prev) + seq![(x.0@, jv_model(x.1))],
{
    lemma_jv_model_members(prev + seq![x]);
    lemma_jv_model_members(prev);
    assert(jv_model_members(prev + seq![x]) =~= jv_model_members(prev) + seq![(x.0@, jv_model(x.1))]);
}

impl JsonValue {
    /// A structurally equal copy of this document.
    #[verifier::loop_isolation(false)]
    pub fn duplicate(&self) -> (r: JsonValue)
        ensures
            r.deep_view() == self.deep_view(),
        decreases jv_size(*self),
    {
        match self {
            JsonValue::Null => JsonValue::Null,
            JsonValue::Bool(b) => JsonValue::Bool(*b),
            JsonValue::I64(n) => JsonValue::I64(*n),
            JsonValue::Milli(n) => JsonValue::Milli(*n),
            JsonValue::NumLit(st) => JsonValue::NumLit(st.clone()),
            JsonValue::Str(st) => JsonValue::Str(st.clone()),
            JsonValue::Arr(items) => {
                let mut out: Vec<JsonValue> = Vec::new();
                let mut k: usize = 0;
                while k < items.len()
                    invariant
                        k <= items@.len(),
                        jv_model_list(out@) == jv_model_list(items@.take(k as int)),
                        out@.len() == k,
                    decreases items@.len() - k,
                {
                    proof {
                        lemma_jv_size_list(items@);
                    }
                    let ghost prev = out@;
                    let d = items[k].duplicate();
                    out.push(d);
                    proof {
                        lemma_jv_model_list_snoc(prev, d);
                        lemma_jv_model_list_snoc(
                            items@.take(k as int),
                            items@[k as int],
                        );
                        assert(out@ =~= prev + seq![d]);
                        assert(items@.take(k + 1 as int) =~= items@.take(k as int) + seq![items@[k as int]]);
                    }
                    k = k + 1;
                }
                proof {
                    assert(items@.take(items@.len() as int) =~= items@);
                }
                JsonValue::Arr(out)
            }
            JsonValue::Obj(members) => {
                let mut out: Vec<(String, JsonValue)> = Vec::new();
                let mut k: usize = 0;
                while k < members.len()
                    invariant
                        k <= members@.len(),
                        jv_model_members(out@) == jv_model_members(members@.take(k as int)),
                        out@.len() == k,
                    decreases members@.len() - k,
                {
                    proof {
                        lemma_jv_size_members(members@);
                    }
                    let ghost prev = out@;
                    let key = members[k].0.clone();
                    let d = members[k].1.duplicate();
                    out.push((key, d));
                    proof {
                        lemma_jv_model_members_snoc(prev, (key, d));
                        lemma_jv_model_members_snoc(
                            members@.take(k as int),
                            members@[k as int],
                        );
                        assert(out@ =~= prev + seq![(key, d)]);
                        assert(members@.take(k + 1 as int) =~= members@.take(k as int) + seq![members@[k as int]]);
                    }
                    k = k + 1;
                }
                proof {
                    assert(members@.take(members@.len() as int) =~= members@);
                }
                JsonValue::Obj(out)
            }
        }
    }
}

} // verus!

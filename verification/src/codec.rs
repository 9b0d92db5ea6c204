//! Referral token codec.
//!
//! A token carries up to three integer fields, `source`, `chan` and `contest`,
//! rendered as a query string (`chan=-10&contest=2&source=7`) and then encoded
//! as URL-safe base64. Decoding is the inverse: base64, then the query-string
//! grammar. A missing, unknown or non-numeric field is simply absent from the
//! result; a field without `=` is malformed query syntax.

use vstd::prelude::*;

use crate::dec::{dec_of_int, push_dec_i64, parse_i64_bytes, spec_parse_i64};

verus! {

/// ASCII `&`.
pub const B_AMP: u8 = 38;

/// ASCII `=`.
pub const B_EQ: u8 = 61;

/// The integer fields a referral token can carry. `None` means the field is
/// absent from the token.
#[derive(Debug, Clone, Copy, PartialEq, Eq)]
pub struct TokenPayload {
    /// The user that is inviting.
    pub source: Option<i64>,
    /// The channel to join.
    pub chan: Option<i64>,
    /// The contest the referral counts for.
    pub contest: Option<i64>,
}

impl TokenPayload {
    /// A token with no fields.
    pub fn empty() -> (r: TokenPayload)
        ensures
            r == TokenPayload::spec_empty(),
    {
        TokenPayload { source: None, chan: None, contest: None }
    }

    pub open spec fn spec_empty() -> TokenPayload {
        TokenPayload { source: None, chan: None, contest: None }
    }
}

/// Decoding failures: the token is not valid base64, or the decoded bytes
/// break the query-string grammar.
#[derive(Debug, Clone, Copy, PartialEq, Eq)]
pub enum DecodeError {
    /// Malformed base64.
    Base64,
    /// Malformed query syntax (a field without `=`).
    Query,
}

// --- the query-string grammar, spec side ---

pub open spec fn key_chan() -> Seq<u8> {
    seq![99u8, 104u8, 97u8, 110u8]
}

pub open spec fn key_contest() -> Seq<u8> {
    seq![99u8, 111u8, 110u8, 116u8, 101u8, 115u8, 116u8]
}

pub open spec fn key_source() -> Seq<u8> {
    seq![115u8, 111u8, 117u8, 114u8, 99u8, 101u8]
}

/// One `key=value` segment of the canonical query string.
pub open spec fn seg_of(key: Seq<u8>, v: i64) -> Seq<u8> {
    key + seq![B_EQ] + dec_of_int(v as int)
}

/// The segments of the canonical query string of a payload, in the fixed
/// order `chan`, `contest`, `source`; absent fields contribute nothing.
pub open spec fn parts_of(p: TokenPayload) -> Seq<Seq<u8>> {
    let a: Seq<Seq<u8>> = if p.chan is Some {
        seq![seg_of(key_chan(), p.chan.unwrap())]
    } else {
        Seq::empty()
    };
    let b: Seq<Seq<u8>> = if p.contest is Some {
        seq![seg_of(key_contest(), p.contest.unwrap())]
    } else {
        Seq::empty()
    };
    let c: Seq<Seq<u8>> = if p.source is Some {
        seq![seg_of(key_source(), p.source.unwrap())]
    } else {
        Seq::empty()
    };
    a + b + c
}

/// Joins segments with `&`.
pub open spec fn join_amp(parts: Seq<Seq<u8>>) -> Seq<u8>
    decreases parts.len(),
{
    if parts.len() == 0 {
        Seq::empty()
    } else if parts.len() == 1 {
        parts[0]
    } else {
        parts[0] + seq![B_AMP] + join_amp(parts.drop_first())
    }
}

/// The canonical query string of a payload.
pub open spec fn qs_of(p: TokenPayload) -> Seq<u8> {
    join_amp(parts_of(p))
}

/// Index of the first occurrence of `b` in `s`, or `s.len()` if absent.
pub open spec fn first_byte(s: Seq<u8>, b: u8) -> int
    decreases s.len(),
{
    if s.len() == 0 {
        0
    } else if s[0] == b {
        0
    } else {
        1 + first_byte(s.drop_first(), b)
    }
}

pub proof fn lemma_first_byte(s: Seq<u8>, b: u8)
    ensures
        0 <= first_byte(s, b) <= s.len(),
        first_byte(s, b) < s.len() ==> s[first_byte(s, b)] == b,
        forall|j: int| 0 <= j < first_byte(s, b) ==> s[j] != b,
    decreases s.len(),
{
    if s.len() == 0 {
    } else if s[0] == b {
    } else {
        lemma_first_byte(s.drop_first(), b);
        let f = first_byte(s, b);
        assert forall|j: int| 0 <= j < f implies s[j] != b by {
            if j > 0 {
                assert(s.drop_first()[j - 1] != b);
            }
        }
    }
}

/// `s` contains no occurrence of `b`.
pub open spec fn free_of(s: Seq<u8>, b: u8) -> bool {
    forall|j: int| 0 <= j < s.len() ==> s[j] != b
}

pub proof fn lemma_first_byte_free(s: Seq<u8>, b: u8)
    requires
        free_of(s, b),
    ensures
        first_byte(s, b) == s.len(),
    decreases s.len(),
{
    if s.len() > 0 {
        assert forall|j: int| 0 <= j < s.drop_first().len() implies s.drop_first()[j] != b by {
            assert(s.drop_first()[j] == s[j + 1]);
        }
        lemma_first_byte_free(s.drop_first(), b);
    }
}

/// Where a known occurrence of `b` follows a `b`-free prefix, that occurrence
/// is the first one.
pub proof fn lemma_first_byte_at(s: Seq<u8>, b: u8, j: int)
    requires
        0 <= j < s.len(),
        s[j] == b,
        forall|k: int| 0 <= k < j ==> s[k] != b,
    ensures
        first_byte(s, b) == j,
{
    lemma_first_byte(s, b);
    let f = first_byte(s, b);
    if f < j {
        assert(s[f] != b);
    }
}

/// Splitting on `b`: fields between separators, empty fields preserved.
pub open spec fn split_byte(s: Seq<u8>, b: u8) -> Seq<Seq<u8>>
    decreases s.len(),
{
    if s.len() == 0 {
        seq![Seq::<u8>::empty()]
    } else if s[0] == b {
        seq![Seq::<u8>::empty()] + split_byte(s.drop_first(), b)
    } else {
        let rest = split_byte(s.drop_first(), b);
        seq![seq![s[0]] + rest[0]] + rest.drop_first()
    }
}

pub proof fn lemma_split_byte_len(s: Seq<u8>, b: u8)
    ensures
        split_byte(s, b).len() >= 1,
    decreases s.len(),
{
    if s.len() == 0 {
    } else if s[0] == b {
        lemma_split_byte_len(s.drop_first(), b);
    } else {
        lemma_split_byte_len(s.drop_first(), b);
    }
}

/// A `b`-free string splits into itself alone.
pub proof fn lemma_split_byte_free(s: Seq<u8>, b: u8)
    requires
        free_of(s, b),
    ensures
        split_byte(s, b) =~~= seq![s],
    decreases s.len(),
{
    if s.len() == 0 {
        assert(split_byte(s, b) =~~= seq![s]);
    } else {
        assert forall|j: int| 0 <= j < s.drop_first().len() implies s.drop_first()[j] != b by {
            assert(s.drop_first()[j] == s[j + 1]);
        }
        lemma_split_byte_free(s.drop_first(), b);
        let rest = split_byte(s.drop_first(), b);
        assert(rest[0] == s.drop_first());
        assert(seq![s[0]] + s.drop_first() =~= s);
        assert(rest.drop_first() =~= Seq::<Seq<u8>>::empty());
        assert(split_byte(s, b) =~~= seq![s]);
    }
}

/// Splitting `x & rest` where `x` is `b`-free: `x` is the first field.
pub proof fn lemma_split_byte_step(x: Seq<u8>, rest: Seq<u8>, b: u8)
    requires
        free_of(x, b),
    ensures
        split_byte(x + seq![b] + rest, b) =~~= seq![x] + split_byte(rest, b),
    decreases x.len(),
{
    let s = x + seq![b] + rest;
    if x.len() == 0 {
        assert(s[0] == b);
        assert(s.drop_first() =~= rest);
        lemma_split_byte_len(rest, b);
        assert(split_byte(s, b) =~~= seq![x] + split_byte(rest, b));
    } else {
        assert(s[0] == x[0]);
        assert(s[0] != b);
        assert(s.drop_first() =~= x.drop_first() + seq![b] + rest);
        assert forall|j: int| 0 <= j < x.drop_first().len() implies x.drop_first()[j] != b by {
            assert(x.drop_first()[j] == x[j + 1]);
        }
        lemma_split_byte_step(x.drop_first(), rest, b);
        lemma_split_byte_len(rest, b);
        let inner = split_byte(s.drop_first(), b);
        assert(inner =~~= seq![x.drop_first()] + split_byte(rest, b));
        assert(inner[0] == x.drop_first());
        assert(seq![s[0]] + inner[0] =~= x);
        assert(inner.drop_first() =~= split_byte(rest, b));
        assert(split_byte(s, b) =~~= seq![x] + split_byte(rest, b));
    }
}

// --- field interpretation, spec side ---

/// Interprets one `key=value` field into the payload; unknown keys are
/// ignored, a later field for the same key wins, a field without `=` is
/// malformed.
pub open spec fn apply_field(p: TokenPayload, f: Seq<u8>) -> Option<TokenPayload> {
    let i = first_byte(f, B_EQ);
    if i == f.len() {
        None
    } else {
        let k = f.take(i);
        let v = f.skip(i + 1);
        if k == key_chan() {
            Some(TokenPayload { chan: spec_parse_i64(v), ..p })
        } else if k == key_contest() {
            Some(TokenPayload { contest: spec_parse_i64(v), ..p })
        } else if k == key_source() {
            Some(TokenPayload { source: spec_parse_i64(v), ..p })
        } else {
            Some(p)
        }
    }
}

/// Interprets the fields left to right.
pub open spec fn parse_fields(p: TokenPayload, fields: Seq<Seq<u8>>) -> Option<TokenPayload>
    decreases fields.len(),
{
    if fields.len() == 0 {
        Some(p)
    } else {
        match apply_field(p, fields[0]) {
            Some(q) => parse_fields(q, fields.drop_first()),
            None => None,
        }
    }
}

/// What the decoded bytes of a token mean: empty bytes are the empty payload,
/// anything else is split on `&` and interpreted field by field.
pub open spec fn spec_parse_qs(s: Seq<u8>) -> Option<TokenPayload> {
    if s.len() == 0 {
        Some(TokenPayload::spec_empty())
    } else {
        parse_fields(TokenPayload::spec_empty(), split_byte(s, B_AMP))
    }
}


/// `parse_fields` distributes over concatenation of field lists.
pub proof fn lemma_parse_fields_append(p: TokenPayload, xs: Seq<Seq<u8>>, ys: Seq<Seq<u8>>)
    ensures
        parse_fields(p, xs + ys) == (match parse_fields(p, xs) {
            Some(q) => parse_fields(q, ys),
            None => None,
        }),
    decreases xs.len(),
{
    if xs.len() == 0 {
        assert(xs + ys =~~= ys);
    } else {
        assert((xs + ys)[0] == xs[0]);
        assert((xs + ys).len() > 0);
        assert((xs + ys).drop_first() =~~= xs.drop_first() + ys);
        match apply_field(p, xs[0]) {
            Some(q) => {
                lemma_parse_fields_append(q, xs.drop_first(), ys);
            },
            None => {},
        }
    }
}

/// Bytes of a canonical decimal rendering: digits, possibly after a minus.
pub proof fn lemma_dec_bytes(v: i64)
    ensures
        forall|j: int|
            0 <= j < dec_of_int(v as int).len() ==> (crate::dec::is_digit(
                #[trigger] dec_of_int(v as int)[j],
            ) || dec_of_int(v as int)[j] == crate::dec::B_MINUS),
        dec_of_int(v as int).len() > 0,
{
    let s = dec_of_int(v as int);
    if v < 0 {
        let m = (-(v as int)) as nat;
        crate::dec::lemma_dec_digits_val(m);
        assert forall|j: int|
            0 <= j < s.len() implies (crate::dec::is_digit(#[trigger] s[j]) || s[j]
            == crate::dec::B_MINUS) by {
            if j > 0 {
                assert(s[j] == dec_digits_at(m, j - 1));
            }
        }
    } else {
        crate::dec::lemma_dec_digits_val(v as nat);
    }
}

/// Helper naming `dec_digits(m)[j]`, to give the quantifier above a handle.
pub open spec fn dec_digits_at(m: nat, j: int) -> u8 {
    crate::dec::dec_digits(m)[j]
}

/// A canonical segment has its `=` right after the key, and neither `&` nor a
/// second `=` anywhere a split could see.
pub proof fn lemma_seg_shape(key: Seq<u8>, v: i64)
    requires
        forall|j: int| 0 <= j < key.len() ==> 97 <= #[trigger] key[j] <= 122,
    ensures
        free_of(seg_of(key, v), B_AMP),
        first_byte(seg_of(key, v), B_EQ) == key.len(),
        seg_of(key, v).take(key.len() as int) =~= key,
        seg_of(key, v).skip(key.len() + 1int) =~= dec_of_int(v as int),
        seg_of(key, v).len() > key.len() + 1,
{
    let s = seg_of(key, v);
    lemma_dec_bytes(v);
    assert forall|j: int| 0 <= j < s.len() implies s[j] != B_AMP by {
        if j < key.len() {
            assert(s[j] == key[j]);
        } else if j == key.len() {
            assert(s[j] == B_EQ);
        } else {
            assert(s[j] == dec_of_int(v as int)[j - key.len() - 1]);
        }
    }
    assert(s[key.len() as int] == B_EQ);
    assert forall|k: int| 0 <= k < key.len() implies s[k] != B_EQ by {
        assert(s[k] == key[k]);
    }
    lemma_first_byte_at(s, B_EQ, key.len() as int);
}

/// Applying a canonical segment sets exactly its own field.
pub proof fn lemma_apply_seg_chan(p: TokenPayload, v: i64)
    ensures
        apply_field(p, seg_of(key_chan(), v)) == Some(TokenPayload { chan: Some(v), ..p }),
{
    lemma_seg_shape(key_chan(), v);
    crate::dec::lemma_parse_dec_of_int(v);
    let s = seg_of(key_chan(), v);
    let k = s.take(first_byte(s, B_EQ));
    assert(k == key_chan());
}

pub proof fn lemma_apply_seg_contest(p: TokenPayload, v: i64)
    ensures
        apply_field(p, seg_of(key_contest(), v)) == Some(TokenPayload { contest: Some(v), ..p }),
{
    lemma_seg_shape(key_contest(), v);
    crate::dec::lemma_parse_dec_of_int(v);
    let s = seg_of(key_contest(), v);
    let k = s.take(first_byte(s, B_EQ));
    assert(k == key_contest());
    assert(k != key_chan()) by {
        if k == key_chan() {
            assert(k.len() == 4);
        }
    }
}

pub proof fn lemma_apply_seg_source(p: TokenPayload, v: i64)
    ensures
        apply_field(p, seg_of(key_source(), v)) == Some(TokenPayload { source: Some(v), ..p }),
{
    lemma_seg_shape(key_source(), v);
    crate::dec::lemma_parse_dec_of_int(v);
    let s = seg_of(key_source(), v);
    let k = s.take(first_byte(s, B_EQ));
    assert(k == key_source());
    assert(k != key_chan()) by {
        if k == key_chan() {
            assert(k.len() == 4);
        }
    }
    assert(k != key_contest()) by {
        if k == key_contest() {
            assert(k.len() == 7);
        }
    }
}

/// Joining amp-free segments and splitting again gives the segments back.
pub proof fn lemma_split_join(parts: Seq<Seq<u8>>)
    requires
        parts.len() >= 1,
        forall|i: int| 0 <= i < parts.len() ==> free_of(#[trigger] parts[i], B_AMP),
    ensures
        split_byte(join_amp(parts), B_AMP) =~~= parts,
    decreases parts.len(),
{
    if parts.len() == 1 {
        lemma_split_byte_free(parts[0], B_AMP);
    } else {
        lemma_split_join(parts.drop_first());
        lemma_split_byte_step(parts[0], join_amp(parts.drop_first()), B_AMP);
    }
}

/// Parsing a single canonical segment list gives back the payload.
pub proof fn lemma_qs_fields(p: TokenPayload)
    ensures
        parse_fields(TokenPayload::spec_empty(), parts_of(p)) == Some(p),
{
    let e = TokenPayload::spec_empty();
    let a: Seq<Seq<u8>> = if p.chan is Some {
        seq![seg_of(key_chan(), p.chan.unwrap())]
    } else {
        Seq::empty()
    };
    let b: Seq<Seq<u8>> = if p.contest is Some {
        seq![seg_of(key_contest(), p.contest.unwrap())]
    } else {
        Seq::empty()
    };
    let c: Seq<Seq<u8>> = if p.source is Some {
        seq![seg_of(key_source(), p.source.unwrap())]
    } else {
        Seq::empty()
    };
    let p1 = TokenPayload { chan: p.chan, ..e };
    let p2 = TokenPayload { contest: p.contest, ..p1 };
    let p3 = TokenPayload { source: p.source, ..p2 };
    assert(parse_fields(e, a) == Some(p1)) by {
        if p.chan is Some {
            lemma_apply_seg_chan(e, p.chan.unwrap());
            assert(a[0] == seg_of(key_chan(), p.chan.unwrap()));
            assert(apply_field(e, a[0]) == Some(p1));
            assert(a.drop_first() =~~= Seq::<Seq<u8>>::empty());
            assert(parse_fields(p1, a.drop_first()) == Some(p1));
        }
    }
    assert(parse_fields(p1, b) == Some(p2)) by {
        if p.contest is Some {
            lemma_apply_seg_contest(p1, p.contest.unwrap());
            assert(b[0] == seg_of(key_contest(), p.contest.unwrap()));
            assert(apply_field(p1, b[0]) == Some(p2));
            assert(b.drop_first() =~~= Seq::<Seq<u8>>::empty());
            assert(parse_fields(p2, b.drop_first()) == Some(p2));
        }
    }
    assert(parse_fields(p2, c) == Some(p3)) by {
        if p.source is Some {
            lemma_apply_seg_source(p2, p.source.unwrap());
            assert(c[0] == seg_of(key_source(), p.source.unwrap()));
            assert(apply_field(p2, c[0]) == Some(p3));
            assert(c.drop_first() =~~= Seq::<Seq<u8>>::empty());
            assert(parse_fields(p3, c.drop_first()) == Some(p3));
        }
    }
    lemma_parse_fields_append(e, a, b + c);
    lemma_parse_fields_append(p1, b, c);
    assert(parts_of(p) == a + (b + c)) by {
        assert(a + (b + c) =~~= a + b + c);
    }
    assert(p3 == p);
}

/// The round-trip law of the token grammar: parsing the canonical query
/// string of any payload gives back exactly that payload.
pub proof fn lemma_qs_round_trip(p: TokenPayload)
    ensures
        spec_parse_qs(qs_of(p)) == Some(p),
{
    let parts = parts_of(p);
    if p.chan is None && p.contest is None && p.source is None {
        assert(parts =~~= Seq::<Seq<u8>>::empty());
        assert(qs_of(p).len() == 0);
        assert(p == TokenPayload::spec_empty());
    } else {
        assert(parts.len() >= 1);
        assert forall|i: int| 0 <= i < parts.len() implies free_of(#[trigger] parts[i], B_AMP) by {
            lemma_seg_shape(key_chan(), 0);
            if p.chan is Some {
                lemma_seg_shape(key_chan(), p.chan.unwrap());
            }
            if p.contest is Some {
                lemma_seg_shape(key_contest(), p.contest.unwrap());
            }
            if p.source is Some {
                lemma_seg_shape(key_source(), p.source.unwrap());
            }
        }
        lemma_split_join(parts);
        lemma_qs_fields(p);
        assert(qs_of(p).len() > 0) by {
            if parts.len() == 1 {
                lemma_seg_len_any(parts[0], p);
            }
        }
    }
}

/// Every canonical segment is non-empty, so a canonical query string is too.
proof fn lemma_seg_len_any(s: Seq<u8>, p: TokenPayload)
    requires
        parts_of(p).len() == 1,
        s == parts_of(p)[0],
    ensures
        s.len() > 0,
{
    if p.chan is Some {
        lemma_seg_shape(key_chan(), p.chan.unwrap());
    } else if p.contest is Some {
        lemma_seg_shape(key_contest(), p.contest.unwrap());
    } else {
        lemma_seg_shape(key_source(), p.source.unwrap());
    }
}


// --- trusted base64 boundary ---

/// The URL-safe base64 (with padding) encoding of a byte string, as
/// `data_encoding::BASE64URL.encode` computes it.
pub uninterp spec fn b64_of(bytes: Seq<u8>) -> Seq<char>;

/// What `data_encoding::BASE64URL.decode` returns for a token: the decoded
/// bytes, or nothing when the token is not valid base64.
pub uninterp spec fn b64_decode_of(token: Seq<char>) -> Option<Seq<u8>>;

/// Relies on `data_encoding::BASE64URL.encode`: URL-safe base64 of the input
/// bytes, a function of the bytes alone.
#[verifier::external_body]
fn base64_encode(bytes: &Vec<u8>) -> (r: String)
    ensures
        r@ == b64_of(bytes@),
{
    data_encoding::BASE64URL.encode(bytes.as_slice())
}

/// Decoding is complete for canonical encodings: on `b64_of(bs)` it returns
/// exactly `bs`.
pub open spec fn b64_decode_complete(token: Seq<char>, r: Option<Vec<u8>>) -> bool {
    forall|bs: Seq<u8>| token == b64_of(bs) ==> (r matches Some(b) && b@ == bs)
}

/// Relies on `data_encoding::BASE64URL.decode`: it rejects invalid base64 and
/// it is the inverse of `encode`, so on every encoded value it gives the
/// encoded bytes back.
#[verifier::external_body]
fn base64_decode(token: &str) -> (r: Option<Vec<u8>>)
    ensures
        (match r {
            Some(b) => b64_decode_of(token@) == Some(b@),
            None => b64_decode_of(token@) is None,
        }),
        b64_decode_complete(token@, r),
{
    data_encoding::BASE64URL.decode(token.as_bytes()).ok()
}

// --- executable encoding ---

/// Encodes the given fields as a referral token: the canonical query string,
/// URL-safe base64 encoded.
#[verifier::rlimit(100)]
pub fn encode_token(p: &TokenPayload) -> (token: String)
    ensures
        token@ == b64_of(qs_of(*p)),
{
    let ghost gp = *p;
    let mut qs: Vec<u8> = Vec::new();
    let ghost mut parts: Seq<Seq<u8>> = Seq::empty();
    let mut first: bool = true;
    assert(qs@ == join_amp(parts));
    if let Some(v) = p.chan {
        let ghost pre = qs@;
        if !first {
            qs.push(B_AMP);
        }
        qs.push(99);
        qs.push(104);
        qs.push(97);
        qs.push(110);
        qs.push(B_EQ);
        push_dec_i64(v, &mut qs);
        proof {
            let seg = seg_of(key_chan(), v);
            lemma_join_push(parts, seg);
            if parts.len() == 0 {
                assert(qs@ =~= seg);
            } else {
                assert(qs@ =~= pre + seq![B_AMP] + seg);
            }
            parts = parts.push(seg);
            assert(qs@ == join_amp(parts));
        }
        first = false;
    }
    if let Some(v) = p.contest {
        let ghost pre = qs@;
        if !first {
            qs.push(B_AMP);
        }
        qs.push(99);
        qs.push(111);
        qs.push(110);
        qs.push(116);
        qs.push(101);
        qs.push(115);
        qs.push(116);
        qs.push(B_EQ);
        push_dec_i64(v, &mut qs);
        proof {
            let seg = seg_of(key_contest(), v);
            lemma_join_push(parts, seg);
            if parts.len() == 0 {
                assert(qs@ =~= seg);
            } else {
                assert(qs@ =~= pre + seq![B_AMP] + seg);
            }
            parts = parts.push(seg);
            assert(qs@ == join_amp(parts));
        }
        first = false;
    }
    if let Some(v) = p.source {
        let ghost pre = qs@;
        if !first {
            qs.push(B_AMP);
        }
        qs.push(115);
        qs.push(111);
        qs.push(117);
        qs.push(114);
        qs.push(99);
        qs.push(101);
        qs.push(B_EQ);
        push_dec_i64(v, &mut qs);
        proof {
            let seg = seg_of(key_source(), v);
            lemma_join_push(parts, seg);
            if parts.len() == 0 {
                assert(qs@ =~= seg);
            } else {
                assert(qs@ =~= pre + seq![B_AMP] + seg);
            }
            parts = parts.push(seg);
            assert(qs@ == join_amp(parts));
        }
        first = false;
    }
    proof {
        assert(parts =~~= parts_of(gp));
    }
    base64_encode(&qs)
}

/// `join_amp` over one more segment.
pub proof fn lemma_join_push(parts: Seq<Seq<u8>>, x: Seq<u8>)
    ensures
        join_amp(parts.push(x)) == (if parts.len() == 0 {
            x
        } else {
            join_amp(parts) + seq![B_AMP] + x
        }),
    decreases parts.len(),
{
    if parts.len() == 0 {
        assert(parts.push(x) =~~= seq![x]);
    } else if parts.len() == 1 {
        let q = parts.push(x);
        assert(q[0] == parts[0]);
        assert(q.drop_first() =~~= seq![x]);
        assert(join_amp(q.drop_first()) == x);
    } else {
        let q = parts.push(x);
        assert(q[0] == parts[0]);
        assert(q.drop_first() =~~= parts.drop_first().push(x));
        lemma_join_push(parts.drop_first(), x);
        assert(parts[0] + seq![B_AMP] + (join_amp(parts.drop_first()) + seq![B_AMP] + x) =~= (parts[0]
            + seq![B_AMP] + join_amp(parts.drop_first())) + seq![B_AMP] + x);
    }
}

// --- executable decoding ---

/// Index of the first occurrence of `b` in `v`, or `v.len()` if absent.
fn find_byte(v: &Vec<u8>, b: u8) -> (i: usize)
    ensures
        i as int == first_byte(v@, b),
        i <= v.len(),
{
    let mut j: usize = 0;
    while j < v.len()
        invariant
            0 <= j <= v@.len(),
            forall|k: int| 0 <= k < j ==> v@[k] != b,
        decreases v@.len() - j,
    {
        if v[j] == b {
            proof {
                lemma_first_byte_at(v@, b, j as int);
            }
            return j;
        }
        j += 1;
    }
    proof {
        lemma_first_byte_free(v@, b);
    }
    v.len()
}

fn key_is_chan(f: &Vec<u8>, i: usize) -> (r: bool)
    requires
        i <= f@.len(),
    ensures
        r == (f@.take(i as int) == key_chan()),
{
    let ghost k = f@.take(i as int);
    if i != 4 {
        proof {
            if k == key_chan() {
                assert(k.len() == 4);
            }
        }
        return false;
    }
    let r = f[0] == 99 && f[1] == 104 && f[2] == 97 && f[3] == 110;
    proof {
        if r {
            assert(k =~= key_chan());
        } else {
            if k == key_chan() {
                assert(f@[0] == k[0] && f@[1] == k[1] && f@[2] == k[2] && f@[3] == k[3]);
            }
        }
    }
    r
}

fn key_is_contest(f: &Vec<u8>, i: usize) -> (r: bool)
    requires
        i <= f@.len(),
    ensures
        r == (f@.take(i as int) == key_contest()),
{
    let ghost k = f@.take(i as int);
    if i != 7 {
        proof {
            if k == key_contest() {
                assert(k.len() == 7);
            }
        }
        return false;
    }
    let r = f[0] == 99 && f[1] == 111 && f[2] == 110 && f[3] == 116 && f[4] == 101 && f[5] == 115
        && f[6] == 116;
    proof {
        if r {
            assert(k =~= key_contest());
        } else {
            if k == key_contest() {
                assert(f@[0] == k[0] && f@[1] == k[1] && f@[2] == k[2] && f@[3] == k[3] && f@[4]
                    == k[4] && f@[5] == k[5] && f@[6] == k[6]);
            }
        }
    }
    r
}

fn key_is_source(f: &Vec<u8>, i: usize) -> (r: bool)
    requires
        i <= f@.len(),
    ensures
        r == (f@.take(i as int) == key_source()),
{
    let ghost k = f@.take(i as int);
    if i != 6 {
        proof {
            if k == key_source() {
                assert(k.len() == 6);
            }
        }
        return false;
    }
    let r = f[0] == 115 && f[1] == 111 && f[2] == 117 && f[3] == 114 && f[4] == 99 && f[5] == 101;
    proof {
        if r {
            assert(k =~= key_source());
        } else {
            if k == key_source() {
                assert(f@[0] == k[0] && f@[1] == k[1] && f@[2] == k[2] && f@[3] == k[3] && f@[4]
                    == k[4] && f@[5] == k[5]);
            }
        }
    }
    r
}

/// Interprets one query-string field, as `apply_field` says.
#[verifier::loop_isolation(false)]
fn apply_field_exec(p: TokenPayload, f: &Vec<u8>) -> (r: Option<TokenPayload>)
    ensures
        r == apply_field(p, f@),
{
    let i = find_byte(f, B_EQ);
    if i == f.len() {
        return None;
    }
    let mut v: Vec<u8> = Vec::new();
    let mut j: usize = i + 1;
    while j < f.len()
        invariant
            i + 1 <= j <= f@.len(),
            v@ == f@.subrange(i + 1, j as int),
        decreases f@.len() - j,
    {
        let b = f[j];
        v.push(b);
        assert(v@ =~= f@.subrange(i + 1, j + 1));
        j += 1;
    }
    assert(v@ =~= f@.skip(i + 1));
    let num = parse_i64_bytes(&v);
    if key_is_chan(f, i) {
        Some(TokenPayload { chan: num, ..p })
    } else if key_is_contest(f, i) {
        Some(TokenPayload { contest: num, ..p })
    } else if key_is_source(f, i) {
        Some(TokenPayload { source: num, ..p })
    } else {
        Some(p)
    }
}

/// Parses decoded token bytes against the query-string grammar.
#[verifier::loop_isolation(false)]
pub fn parse_qs(bytes: &Vec<u8>) -> (r: Option<TokenPayload>)
    ensures
        r == spec_parse_qs(bytes@),
{
    if bytes.len() == 0 {
        return Some(TokenPayload::empty());
    }
    let ghost whole = split_byte(bytes@, B_AMP);
    let mut p = TokenPayload::empty();
    let mut cur: Vec<u8> = Vec::new();
    let mut fs: usize = 0;
    let mut i: usize = 0;
    assert(bytes@.skip(0) =~= bytes@);
    while i < bytes.len()
        invariant
            0 <= fs <= i <= bytes@.len(),
            cur@ == bytes@.subrange(fs as int, i as int),
            free_of(cur@, B_AMP),
            parse_fields(TokenPayload::spec_empty(), whole) == parse_fields(
                p,
                split_byte(bytes@.skip(fs as int), B_AMP),
            ),
        decreases bytes@.len() - i,
    {
        let b = bytes[i];
        if b == B_AMP {
            proof {
                assert(bytes@.skip(fs as int) =~= cur@ + seq![B_AMP] + bytes@.skip(i + 1));
                lemma_split_byte_step(cur@, bytes@.skip(i + 1), B_AMP);
            }
            let applied = apply_field_exec(p, &cur);
            proof {
                let fields = split_byte(bytes@.skip(fs as int), B_AMP);
                let rest = split_byte(bytes@.skip(i + 1), B_AMP);
                assert(fields[0] == cur@);
                assert(fields.drop_first() =~~= rest);
            }
            match applied {
                Some(q) => {
                    p = q;
                },
                None => {
                    return None;
                },
            }
            cur = Vec::new();
            fs = i + 1;
            assert(cur@ =~= bytes@.subrange(fs as int, i + 1));
        } else {
            cur.push(b);
            assert(cur@ =~= bytes@.subrange(fs as int, i + 1));
        }
        i += 1;
    }
    proof {
        lemma_split_byte_free(cur@, B_AMP);
        assert(bytes@.skip(fs as int) =~= cur@);
    }
    let applied = apply_field_exec(p, &cur);
    proof {
        let fields = split_byte(bytes@.skip(fs as int), B_AMP);
        assert(fields =~~= seq![cur@]);
        assert(fields[0] == cur@);
        assert(fields.drop_first() =~~= Seq::<Seq<u8>>::empty());
        if apply_field(p, cur@) is Some {
            let q = apply_field(p, cur@).unwrap();
            assert(parse_fields(q, fields.drop_first()) == Some(q));
        }
    }
    applied
}

/// Decodes a referral token: base64, then the query-string grammar.
///
/// Every token minted by [`encode_token`] decodes back to exactly the payload
/// it was built from; a token that is not valid base64 fails with
/// [`DecodeError::Base64`], and one whose decoded bytes hold a field without
/// `=` fails with [`DecodeError::Query`].
pub fn decode_token(token: &str) -> (r: Result<TokenPayload, DecodeError>)
    ensures
        (match r {
            Ok(p) => b64_decode_of(token@) matches Some(bs) && spec_parse_qs(bs) == Some(p),
            Err(DecodeError::Base64) => b64_decode_of(token@) is None,
            Err(DecodeError::Query) => b64_decode_of(token@) matches Some(bs) && spec_parse_qs(bs)
                is None,
        }),
        forall|p: TokenPayload|
            token@ == b64_of(#[trigger] qs_of(p)) ==> r == Ok::<TokenPayload, DecodeError>(p),
{
    let decoded = base64_decode(token);
    match decoded {
        None => {
            proof {
                assert forall|p: TokenPayload| token@ != b64_of(#[trigger] qs_of(p)) by {
                    if token@ == b64_of(qs_of(p)) {
                        assert(decoded matches Some(b) && b@ == qs_of(p));
                    }
                }
            }
            Err(DecodeError::Base64)
        },
        Some(bytes) => {
            let parsed = parse_qs(&bytes);
            proof {
                assert forall|p: TokenPayload|
                    token@ == b64_of(#[trigger] qs_of(p)) implies parsed == Some(p) by {
                    assert(decoded matches Some(b) && b@ == qs_of(p));
                    assert(bytes@ == qs_of(p));
                    lemma_qs_round_trip(p);
                }
            }
            match parsed {
                Some(p) => Ok(p),
                None => Err(DecodeError::Query),
            }
        },
    }
}


} // verus!

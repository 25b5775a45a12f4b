//! A stable byte form for persisted session state: the graded answer pairs
//! and the built questions.
//!
//! Decoding classifies failures: `UnexpectedEnd` is truncation (treated by
//! carry-forward as "no prior session"), `Malformed` is any other defect of
//! the bytes and is fatal.

use vstd::prelude::*;

use crate::mcq::{Choice, Mcq, McqView};
use crate::text::string_from_utf8;
use crate::Question;

verus! {

use vstd::utf8::{decode_utf8, encode_utf8, valid_utf8};

/// Why a persisted byte form failed to decode.
#[derive(Debug, Clone, Copy, PartialEq, Eq, Structural)]
pub enum DecodeError {
    /// The bytes stop before the data they promise: truncation.
    UnexpectedEnd,
    /// The bytes are no output of the encoder.
    Malformed,
}

/// The byte that stands for a choice.
pub open spec fn choice_byte(c: Choice) -> u8 {
    match c {
        Choice::A => 0,
        Choice::B => 1,
        Choice::C => 2,
        Choice::D => 3,
    }
}

/// The choice a byte stands for, if any.
pub open spec fn spec_byte_to_choice(b: u8) -> Option<Choice> {
    if b == 0 {
        Some(Choice::A)
    } else if b == 1 {
        Some(Choice::B)
    } else if b == 2 {
        Some(Choice::C)
    } else if b == 3 {
        Some(Choice::D)
    } else {
        None
    }
}

/// The byte that stands for a submitted-or-none answer.
pub open spec fn answer_byte(a: Option<Choice>) -> u8 {
    match a {
        Some(c) => choice_byte(c),
        None => 4,
    }
}

/// The submitted-or-none answer a byte stands for, if any.
pub open spec fn spec_byte_to_answer(b: u8) -> Option<Option<Choice>> {
    if b == 4 {
        Some(None)
    } else {
        match spec_byte_to_choice(b) {
            Some(c) => Some(Some(c)),
            None => None,
        }
    }
}

fn choice_to_byte(c: Choice) -> (r: u8)
    ensures
        r == choice_byte(c),
{
    match c {
        Choice::A => 0,
        Choice::B => 1,
        Choice::C => 2,
        Choice::D => 3,
    }
}

fn byte_to_choice(b: u8) -> (r: Option<Choice>)
    ensures
        r == spec_byte_to_choice(b),
{
    if b == 0 {
        Some(Choice::A)
    } else if b == 1 {
        Some(Choice::B)
    } else if b == 2 {
        Some(Choice::C)
    } else if b == 3 {
        Some(Choice::D)
    } else {
        None
    }
}

fn answer_to_byte(a: Option<Choice>) -> (r: u8)
    ensures
        r == answer_byte(a),
{
    match a {
        Some(c) => choice_to_byte(c),
        None => 4,
    }
}

fn byte_to_answer(b: u8) -> (r: Option<Option<Choice>>)
    ensures
        r == spec_byte_to_answer(b),
{
    if b == 4 {
        Some(None)
    } else {
        match byte_to_choice(b) {
            Some(c) => Some(Some(c)),
            None => None,
        }
    }
}

/// The eight little-endian bytes of a length.
pub open spec fn le_bytes(n: u64) -> Seq<u8> {
    seq![
        (n & 0xff) as u8,
        ((n >> 8) & 0xff) as u8,
        ((n >> 16) & 0xff) as u8,
        ((n >> 24) & 0xff) as u8,
        ((n >> 32) & 0xff) as u8,
        ((n >> 40) & 0xff) as u8,
        ((n >> 48) & 0xff) as u8,
        ((n >> 56) & 0xff) as u8,
    ]
}

/// The length eight little-endian bytes stand for.
pub open spec fn le_value(b: Seq<u8>) -> u64 {
    (b[0] as u64) | ((b[1] as u64) << 8) | ((b[2] as u64) << 16) | ((b[3] as u64) << 24) | ((
    b[4] as u64) << 32) | ((b[5] as u64) << 40) | ((b[6] as u64) << 48) | ((b[7] as u64) << 56)
}

/// Eight little-endian bytes decode back to the length they encode.
pub proof fn lemma_le_roundtrip(n: u64)
    ensures
        le_value(le_bytes(n)) == n,
{
    assert((((n & 0xff) as u8) as u64) | ((((n >> 8) & 0xff) as u8) as u64) << 8 | ((((n >> 16)
        & 0xff) as u8) as u64) << 16 | ((((n >> 24) & 0xff) as u8) as u64) << 24 | ((((n >> 32)
        & 0xff) as u8) as u64) << 32 | ((((n >> 40) & 0xff) as u8) as u64) << 40 | ((((n >> 48)
        & 0xff) as u8) as u64) << 48 | ((((n >> 56) & 0xff) as u8) as u64) << 56 == n)
        by (bit_vector);
}

/// Append the eight little-endian bytes of `n`.
fn write_u64(out: &mut Vec<u8>, n: u64)
    ensures
        final(out)@ == old(out)@ + le_bytes(n),
{
    out.push((n & 0xff) as u8);
    out.push(((n >> 8) & 0xff) as u8);
    out.push(((n >> 16) & 0xff) as u8);
    out.push(((n >> 24) & 0xff) as u8);
    out.push(((n >> 32) & 0xff) as u8);
    out.push(((n >> 40) & 0xff) as u8);
    out.push(((n >> 48) & 0xff) as u8);
    out.push(((n >> 56) & 0xff) as u8);
    proof {
        assert(out@ =~= old(out)@ + le_bytes(n));
    }
}

/// Read the length encoded at `pos`.
fn read_u64(bytes: &Vec<u8>, pos: usize) -> (r: u64)
    requires
        pos + 8 <= bytes@.len(),
    ensures
        r == le_value(bytes@.subrange(pos as int, pos as int + 8)),
{
    let blen = bytes.len();
    proof {
        assert(pos + 8 <= blen);
    }
    let r = (bytes[pos] as u64) | ((bytes[pos + 1] as u64) << 8) | ((bytes[pos + 2] as u64) << 16)
        | ((bytes[pos + 3] as u64) << 24) | ((bytes[pos + 4] as u64) << 32) | ((bytes[pos
        + 5] as u64) << 40) | ((bytes[pos + 6] as u64) << 48) | ((bytes[pos + 7] as u64) << 56);
    proof {
        let s = bytes@.subrange(pos as int, pos as int + 8);
        assert(s[0] == bytes@[pos as int]);
        assert(s[1] == bytes@[pos as int + 1]);
        assert(s[2] == bytes@[pos as int + 2]);
        assert(s[3] == bytes@[pos as int + 3]);
        assert(s[4] == bytes@[pos as int + 4]);
        assert(s[5] == bytes@[pos as int + 5]);
        assert(s[6] == bytes@[pos as int + 6]);
        assert(s[7] == bytes@[pos as int + 7]);
    }
    r
}

/// The body bytes of the graded pairs: two bytes per pair, in order.
pub open spec fn pairs_body(pairs: Seq<(Choice, Option<Choice>)>) -> Seq<u8>
    decreases pairs.len(),
{
    if pairs.len() == 0 {
        Seq::empty()
    } else {
        seq![choice_byte(pairs.first().0), answer_byte(pairs.first().1)] + pairs_body(
            pairs.drop_first(),
        )
    }
}

/// The byte form of the graded pairs: an eight-byte little-endian count,
/// then two bytes per pair.
pub open spec fn encode_pairs_spec(pairs: Seq<(Choice, Option<Choice>)>) -> Seq<u8> {
    le_bytes(pairs.len() as u64) + pairs_body(pairs)
}

/// Decode a run of two-byte pairs that must fill `b` exactly.
pub open spec fn decode_pairs_body(b: Seq<u8>) -> Result<
    Seq<(Choice, Option<Choice>)>,
    DecodeError,
>
    decreases b.len(),
{
    if b.len() == 0 {
        Ok(Seq::empty())
    } else if b.len() == 1 {
        Err(DecodeError::UnexpectedEnd)
    } else {
        match (spec_byte_to_choice(b[0]), spec_byte_to_answer(b[1])) {
            (Some(e), Some(a)) => match decode_pairs_body(b.skip(2)) {
                Ok(rest) => Ok(seq![(e, a)] + rest),
                Err(err) => Err(err),
            },
            _ => Err(DecodeError::Malformed),
        }
    }
}

/// Decode the byte form of the graded pairs. Truncation is
/// `UnexpectedEnd`; a bad answer byte or trailing bytes are `Malformed`.
pub open spec fn decode_pairs_spec(bytes: Seq<u8>) -> Result<
    Seq<(Choice, Option<Choice>)>,
    DecodeError,
> {
    if bytes.len() < 8 {
        Err(DecodeError::UnexpectedEnd)
    } else {
        let n = le_value(bytes.subrange(0, 8)) as int;
        let body = bytes.skip(8);
        if body.len() < 2 * n {
            Err(DecodeError::UnexpectedEnd)
        } else if body.len() > 2 * n {
            Err(DecodeError::Malformed)
        } else {
            decode_pairs_body(body)
        }
    }
}

proof fn lemma_pairs_body_len(pairs: Seq<(Choice, Option<Choice>)>)
    ensures
        pairs_body(pairs).len() == 2 * pairs.len(),
    decreases pairs.len(),
{
    if pairs.len() > 0 {
        lemma_pairs_body_len(pairs.drop_first());
    }
}

proof fn lemma_pairs_body_snoc(pairs: Seq<(Choice, Option<Choice>)>, p: (Choice, Option<Choice>))
    ensures
        pairs_body(pairs.push(p)) == pairs_body(pairs) + seq![choice_byte(p.0), answer_byte(p.1)],
    decreases pairs.len(),
{
    if pairs.len() == 0 {
        let s = pairs.push(p);
        assert(s.first() == p);
        assert(s.drop_first() =~= Seq::<(Choice, Option<Choice>)>::empty());
        assert(pairs =~= Seq::<(Choice, Option<Choice>)>::empty());
        assert(pairs_body(Seq::<(Choice, Option<Choice>)>::empty()) == Seq::<u8>::empty());
        assert(pairs_body(s) =~= pairs_body(pairs) + seq![choice_byte(p.0), answer_byte(p.1)]);
    } else {
        assert(pairs.push(p).drop_first() =~= pairs.drop_first().push(p));
        assert(pairs.push(p).first() == pairs.first());
        lemma_pairs_body_snoc(pairs.drop_first(), p);
        assert(pairs_body(pairs.push(p)) =~= pairs_body(pairs) + seq![
            choice_byte(p.0),
            answer_byte(p.1),
        ]);
    }
}

proof fn lemma_decode_pairs_body_of_encoded(pairs: Seq<(Choice, Option<Choice>)>)
    ensures
        decode_pairs_body(pairs_body(pairs)) == Ok::<_, DecodeError>(pairs),
    decreases pairs.len(),
{
    if pairs.len() == 0 {
        assert(pairs =~= Seq::<(Choice, Option<Choice>)>::empty());
        assert(pairs_body(pairs).len() == 0) by {
            lemma_pairs_body_len(pairs);
        }
    } else {
        let b = pairs_body(pairs);
        lemma_pairs_body_len(pairs);
        assert(b[0] == choice_byte(pairs.first().0));
        assert(b[1] == answer_byte(pairs.first().1));
        assert(spec_byte_to_choice(choice_byte(pairs.first().0)) == Some(pairs.first().0));
        assert(spec_byte_to_answer(answer_byte(pairs.first().1)) == Some(pairs.first().1));
        assert(b.skip(2) =~= pairs_body(pairs.drop_first()));
        lemma_decode_pairs_body_of_encoded(pairs.drop_first());
        assert(seq![(pairs.first().0, pairs.first().1)] + pairs.drop_first() =~= pairs);
    }
}

/// Persist/reload round trip: the byte form of a graded session's pairs
/// decodes back to the identical ordered list.
pub proof fn lemma_pairs_round_trip(pairs: Seq<(Choice, Option<Choice>)>)
    requires
        pairs.len() <= u64::MAX,
    ensures
        decode_pairs_spec(encode_pairs_spec(pairs)) == Ok::<_, DecodeError>(pairs),
{
    let bytes = encode_pairs_spec(pairs);
    lemma_pairs_body_len(pairs);
    lemma_le_roundtrip(pairs.len() as u64);
    assert(bytes.subrange(0, 8) =~= le_bytes(pairs.len() as u64));
    assert(bytes.skip(8) =~= pairs_body(pairs));
    lemma_decode_pairs_body_of_encoded(pairs);
}

/// Encode the graded pairs into their stable byte form.
pub fn encode_pairs(pairs: &Vec<(Choice, Option<Choice>)>) -> (r: Vec<u8>)
    ensures
        r@ == encode_pairs_spec(pairs@),
{
    let mut out: Vec<u8> = Vec::new();
    write_u64(&mut out, pairs.len() as u64);
    let mut i: usize = 0;
    proof {
        assert(pairs@.take(0) =~= Seq::<(Choice, Option<Choice>)>::empty());
        assert(out@ =~= le_bytes(pairs@.len() as u64) + pairs_body(pairs@.take(0)));
    }
    while i < pairs.len()
        invariant
            0 <= i <= pairs@.len(),
            out@ == le_bytes(pairs@.len() as u64) + pairs_body(pairs@.take(i as int)),
        decreases pairs@.len() - i,
    {
        let p = &pairs[i];
        out.push(choice_to_byte(p.0));
        out.push(answer_to_byte(p.1));
        proof {
            assert(pairs@.take(i as int + 1) =~= pairs@.take(i as int).push(pairs@[i as int]));
            lemma_pairs_body_snoc(pairs@.take(i as int), pairs@[i as int]);
            assert(out@ =~= le_bytes(pairs@.len() as u64) + pairs_body(pairs@.take(i as int + 1)));
        }
        i = i + 1;
    }
    proof {
        assert(pairs@.take(pairs@.len() as int) =~= pairs@);
    }
    out
}

/// How a partial decode combines with pairs already decoded.
spec fn compose_pairs(
    acc: Seq<(Choice, Option<Choice>)>,
    rest: Result<Seq<(Choice, Option<Choice>)>, DecodeError>,
) -> Result<Seq<(Choice, Option<Choice>)>, DecodeError> {
    match rest {
        Ok(s) => Ok(acc + s),
        Err(e) => Err(e),
    }
}

/// Decode the stable byte form of graded pairs.
pub fn decode_pairs(bytes: &Vec<u8>) -> (r: Result<Vec<(Choice, Option<Choice>)>, DecodeError>)
    ensures
        match r {
            Ok(v) => decode_pairs_spec(bytes@) == Ok::<_, DecodeError>(v@),
            Err(e) => decode_pairs_spec(bytes@) == Err::<Seq<(Choice, Option<Choice>)>, _>(e),
        },
{
    if bytes.len() < 8 {
        return Err(DecodeError::UnexpectedEnd);
    }
    let n = read_u64(bytes, 0);
    let ghost body = bytes@.skip(8);
    let body_len = bytes.len() - 8;
    if n > (body_len / 2) as u64 {
        proof {
            assert(body.len() < 2 * (n as int));
        }
        return Err(DecodeError::UnexpectedEnd);
    }
    let n_us = n as usize;
    if body_len > 2 * n_us {
        return Err(DecodeError::Malformed);
    }
    proof {
        assert(body.len() == 2 * (n as int));
        assert(bytes@.len() <= usize::MAX);
        assert(decode_pairs_spec(bytes@) == decode_pairs_body(body));
    }
    let mut acc: Vec<(Choice, Option<Choice>)> = Vec::new();
    let mut i: usize = 0;
    proof {
        assert(body.skip(0) =~= body);
        assert(Seq::<(Choice, Option<Choice>)>::empty() + decode_pairs_body(body)->Ok_0
            =~= decode_pairs_body(body)->Ok_0);
    }
    while i < n_us
        invariant
            0 <= i <= n_us,
            bytes@.len() == 8 + 2 * n_us,
            bytes@.len() <= usize::MAX,
            body == bytes@.skip(8),
            decode_pairs_spec(bytes@) == decode_pairs_body(body),
            acc@.len() == i,
            decode_pairs_body(body) == compose_pairs(
                acc@,
                decode_pairs_body(body.skip(2 * i as int)),
            ),
        decreases n_us - i,
    {
        let ghost tail = body.skip(2 * i as int);
        proof {
            assert(tail.len() == 2 * (n_us - i));
            assert(tail[0] == bytes@[8 + 2 * i as int]);
            assert(tail[1] == bytes@[8 + 2 * i as int + 1]);
            assert(tail.skip(2) =~= body.skip(2 * (i as int + 1)));
        }
        let eb = bytes[8 + 2 * i];
        let ab = bytes[8 + 2 * i + 1];
        let e = match byte_to_choice(eb) {
            Some(e) => e,
            None => {
                proof {
                    assert(decode_pairs_body(tail) == Err::<
                        Seq<(Choice, Option<Choice>)>,
                        _,
                    >(DecodeError::Malformed));
                }
                return Err(DecodeError::Malformed);
            },
        };
        let a = match byte_to_answer(ab) {
            Some(a) => a,
            None => {
                proof {
                    assert(decode_pairs_body(tail) == Err::<
                        Seq<(Choice, Option<Choice>)>,
                        _,
                    >(DecodeError::Malformed));
                }
                return Err(DecodeError::Malformed);
            },
        };
        let ghost pre_acc = acc@;
        acc.push((e, a));
        proof {
            assert(acc@ =~= pre_acc.push((e, a)));
            let rest = decode_pairs_body(body.skip(2 * (i as int + 1)));
            match rest {
                Ok(s) => {
                    assert(decode_pairs_body(tail) == Ok::<_, DecodeError>(seq![(e, a)] + s));
                    assert(pre_acc + (seq![(e, a)] + s) =~= pre_acc.push((e, a)) + s);
                },
                Err(_) => {},
            }
        }
        i = i + 1;
    }
    proof {
        assert(body.skip(2 * n_us as int) =~= Seq::<u8>::empty());
        assert(decode_pairs_body(body) == Ok::<_, DecodeError>(acc@ + Seq::empty()));
        assert(acc@ + Seq::<(Choice, Option<Choice>)>::empty() =~= acc@);
    }
    Ok(acc)
}

/// The byte form of one text: an eight-byte little-endian length, then its
/// UTF-8 bytes.
pub open spec fn encode_str_spec(s: Seq<char>) -> Seq<u8> {
    le_bytes(encode_utf8(s).len() as u64) + encode_utf8(s)
}

/// Decode one text; the remainder of the bytes follows it.
#[verifier::opaque]
pub open spec fn decode_str_spec(b: Seq<u8>) -> Result<(Seq<char>, Seq<u8>), DecodeError> {
    if b.len() < 8 {
        Err(DecodeError::UnexpectedEnd)
    } else {
        let n = le_value(b.subrange(0, 8)) as int;
        if b.len() - 8 < n {
            Err(DecodeError::UnexpectedEnd)
        } else if !valid_utf8(b.subrange(8, 8 + n)) {
            Err(DecodeError::Malformed)
        } else {
            Ok((decode_utf8(b.subrange(8, 8 + n)), b.skip(8 + n)))
        }
    }
}

/// The byte form of one question: its statement, its four choice texts, and
/// its solution byte.
pub open spec fn encode_mcq_spec(m: McqView) -> Seq<u8> {
    encode_str_spec(m.statement) + encode_str_spec(m.choices[0]) + encode_str_spec(m.choices[1])
        + encode_str_spec(m.choices[2]) + encode_str_spec(m.choices[3]) + seq![
        choice_byte(m.solution),
    ]
}

/// Decode one question; the remainder of the bytes follows it. The
/// choice-list invariants are checked: a persisted question with duplicate
/// choice texts or a bad solution byte is malformed.
#[verifier::opaque]
pub open spec fn decode_mcq_spec(b: Seq<u8>) -> Result<(McqView, Seq<u8>), DecodeError> {
    match decode_str_spec(b) {
        Err(e) => Err(e),
        Ok((statement, b1)) => match decode_str_spec(b1) {
            Err(e) => Err(e),
            Ok((c0, b2)) => match decode_str_spec(b2) {
                Err(e) => Err(e),
                Ok((c1, b3)) => match decode_str_spec(b3) {
                    Err(e) => Err(e),
                    Ok((c2, b4)) => match decode_str_spec(b4) {
                        Err(e) => Err(e),
                        Ok((c3, b5)) => {
                            if b5.len() < 1 {
                                Err(DecodeError::UnexpectedEnd)
                            } else {
                                match spec_byte_to_choice(b5[0]) {
                                    None => Err(DecodeError::Malformed),
                                    Some(sol) => {
                                        let choices = seq![c0, c1, c2, c3];
                                        if !choices.no_duplicates() {
                                            Err(DecodeError::Malformed)
                                        } else {
                                            Ok(
                                                (
                                                    McqView { statement, choices, solution: sol },
                                                    b5.skip(1),
                                                ),
                                            )
                                        }
                                    },
                                }
                            }
                        },
                    },
                },
            },
        },
    }
}

/// The body bytes of a question list, one question after the other.
pub open spec fn questions_body(qs: Seq<McqView>) -> Seq<u8>
    decreases qs.len(),
{
    if qs.len() == 0 {
        Seq::empty()
    } else {
        encode_mcq_spec(qs.first()) + questions_body(qs.drop_first())
    }
}

/// The byte form of a question list: an eight-byte little-endian count,
/// then the questions in order.
pub open spec fn encode_questions_spec(qs: Seq<McqView>) -> Seq<u8> {
    le_bytes(qs.len() as u64) + questions_body(qs)
}

/// Decode a run of `n` questions that must fill `b` exactly.
pub open spec fn decode_questions_body(b: Seq<u8>, n: nat) -> Result<Seq<McqView>, DecodeError>
    decreases n,
{
    if n == 0 {
        if b.len() == 0 {
            Ok(Seq::empty())
        } else {
            Err(DecodeError::Malformed)
        }
    } else {
        match decode_mcq_spec(b) {
            Err(e) => Err(e),
            Ok((m, rest)) => match decode_questions_body(rest, (n - 1) as nat) {
                Ok(s) => Ok(seq![m] + s),
                Err(e) => Err(e),
            },
        }
    }
}

/// Decode the byte form of a question list.
pub open spec fn decode_questions_spec(bytes: Seq<u8>) -> Result<Seq<McqView>, DecodeError> {
    if bytes.len() < 8 {
        Err(DecodeError::UnexpectedEnd)
    } else {
        decode_questions_body(bytes.skip(8), le_value(bytes.subrange(0, 8)) as nat)
    }
}

/// A question model whose byte form decodes back to it: four pairwise
/// distinct choices, and texts whose encodings fit the length field.
pub open spec fn mcq_encodable(m: McqView) -> bool {
    &&& m.choices.len() == 4
    &&& m.choices.no_duplicates()
    &&& encode_utf8(m.statement).len() <= u64::MAX
    &&& forall|j: int| 0 <= j < 4 ==> encode_utf8(#[trigger] m.choices[j]).len() <= u64::MAX
}

proof fn lemma_str_roundtrip(s: Seq<char>, rest: Seq<u8>)
    requires
        encode_utf8(s).len() <= u64::MAX,
    ensures
        decode_str_spec(encode_str_spec(s) + rest) == Ok::<_, DecodeError>((s, rest)),
{
    broadcast use vstd::utf8::encode_utf8_valid_utf8;

    reveal(decode_str_spec);
    let eb = encode_utf8(s);
    let b = encode_str_spec(s) + rest;
    lemma_le_roundtrip(eb.len() as u64);
    assert(b.subrange(0, 8) =~= le_bytes(eb.len() as u64));
    assert(b.subrange(8, 8 + eb.len() as int) =~= eb);
    vstd::utf8::encode_utf8_decode_utf8(s);
    assert(b.skip(8 + eb.len() as int) =~= rest);
}

#[verifier::rlimit(100)]
proof fn lemma_mcq_roundtrip(m: McqView, rest: Seq<u8>)
    requires
        mcq_encodable(m),
    ensures
        decode_mcq_spec(encode_mcq_spec(m) + rest) == Ok::<_, DecodeError>((m, rest)),
{
    let p0 = encode_str_spec(m.statement);
    let p1 = encode_str_spec(m.choices[0]);
    let p2 = encode_str_spec(m.choices[1]);
    let p3 = encode_str_spec(m.choices[2]);
    let p4 = encode_str_spec(m.choices[3]);
    let e5 = seq![choice_byte(m.solution)];
    let t5 = e5 + rest;
    let t4 = p4 + t5;
    let t3 = p3 + t4;
    let t2 = p2 + t3;
    let t1 = p1 + t2;
    let t0 = p0 + t1;
    assert(encode_mcq_spec(m) + rest == t0) by {
        vstd::seq_lib::lemma_concat_associative(p0 + p1 + p2 + p3 + p4, e5, rest);
        vstd::seq_lib::lemma_concat_associative(p0 + p1 + p2 + p3, p4, t5);
        vstd::seq_lib::lemma_concat_associative(p0 + p1 + p2, p3, t4);
        vstd::seq_lib::lemma_concat_associative(p0 + p1, p2, t3);
        vstd::seq_lib::lemma_concat_associative(p0, p1, t2);
    }
    lemma_str_roundtrip(m.statement, t1);
    lemma_str_roundtrip(m.choices[0], t2);
    lemma_str_roundtrip(m.choices[1], t3);
    lemma_str_roundtrip(m.choices[2], t4);
    lemma_str_roundtrip(m.choices[3], t5);
    reveal(decode_mcq_spec);
    assert(decode_str_spec(t0) == Ok::<_, DecodeError>((m.statement, t1)));
    assert(decode_str_spec(t1) == Ok::<_, DecodeError>((m.choices[0], t2)));
    assert(decode_str_spec(t2) == Ok::<_, DecodeError>((m.choices[1], t3)));
    assert(decode_str_spec(t3) == Ok::<_, DecodeError>((m.choices[2], t4)));
    assert(decode_str_spec(t4) == Ok::<_, DecodeError>((m.choices[3], t5)));
    assert(t5[0] == choice_byte(m.solution));
    assert(spec_byte_to_choice(t5[0]) == Some(m.solution));
    let choices = seq![m.choices[0], m.choices[1], m.choices[2], m.choices[3]];
    assert(choices =~= m.choices);
    assert(choices.no_duplicates());
    assert(t5.skip(1) =~= rest);
    let dec = McqView { statement: m.statement, choices, solution: m.solution };
    assert(decode_mcq_spec(t0) == Ok::<_, DecodeError>((dec, t5.skip(1))));
    assert(dec =~= m);
}

#[verifier::rlimit(100)]
proof fn lemma_questions_body_roundtrip(qs: Seq<McqView>)
    requires
        forall|i: int| 0 <= i < qs.len() ==> mcq_encodable(#[trigger] qs[i]),
    ensures
        decode_questions_body(questions_body(qs), qs.len() as nat) == Ok::<_, DecodeError>(qs),
    decreases qs.len(),
{
    if qs.len() == 0 {
        assert(qs =~= Seq::<McqView>::empty());
    } else {
        assert(questions_body(qs) == encode_mcq_spec(qs.first()) + questions_body(qs.drop_first()));
        lemma_mcq_roundtrip(qs.first(), questions_body(qs.drop_first()));
        lemma_questions_body_roundtrip(qs.drop_first());
        assert(seq![qs.first()] + qs.drop_first() =~= qs);
    }
}

/// Persist/reload round trip: the byte form of a question list decodes back
/// to the identical ordered list.
pub proof fn lemma_questions_round_trip(qs: Seq<McqView>)
    requires
        qs.len() <= u64::MAX,
        forall|i: int| 0 <= i < qs.len() ==> mcq_encodable(#[trigger] qs[i]),
    ensures
        decode_questions_spec(encode_questions_spec(qs)) == Ok::<_, DecodeError>(qs),
{
    let bytes = encode_questions_spec(qs);
    lemma_le_roundtrip(qs.len() as u64);
    assert(bytes.subrange(0, 8) =~= le_bytes(qs.len() as u64));
    assert(bytes.skip(8) =~= questions_body(qs));
    lemma_questions_body_roundtrip(qs);
}

/// Append the bytes of `b`.
fn push_bytes(out: &mut Vec<u8>, b: &Vec<u8>)
    ensures
        final(out)@ == old(out)@ + b@,
{
    let mut i: usize = 0;
    proof {
        assert(out@ =~= old(out)@ + b@.take(0));
    }
    while i < b.len()
        invariant
            0 <= i <= b@.len(),
            out@ == old(out)@ + b@.take(i as int),
        decreases b@.len() - i,
    {
        out.push(b[i]);
        proof {
            assert(old(out)@ + b@.take(i as int + 1) =~= (old(out)@ + b@.take(i as int)).push(
                b@[i as int],
            ));
        }
        i = i + 1;
    }
    proof {
        assert(b@.take(b@.len() as int) =~= b@);
    }
}

/// Append the byte form of one text.
fn encode_str(out: &mut Vec<u8>, s: &String)
    ensures
        final(out)@ == old(out)@ + encode_str_spec(s@),
{
    let b = s.as_str().as_bytes_vec();
    write_u64(out, b.len() as u64);
    push_bytes(out, &b);
    proof {
        assert(out@ =~= old(out)@ + encode_str_spec(s@));
    }
}

/// Append the byte form of one question.
fn encode_mcq(out: &mut Vec<u8>, m: &Mcq)
    requires
        m.wf(),
    ensures
        final(out)@ == old(out)@ + encode_mcq_spec(m@),
{
    encode_str(out, m.statement());
    let cs = m.choices();
    encode_str(out, &cs[0]);
    encode_str(out, &cs[1]);
    encode_str(out, &cs[2]);
    encode_str(out, &cs[3]);
    out.push(choice_to_byte(m.answer()));
    proof {
        assert(cs.deep_view()[0] == m@.choices[0]);
        assert(cs.deep_view()[1] == m@.choices[1]);
        assert(cs.deep_view()[2] == m@.choices[2]);
        assert(cs.deep_view()[3] == m@.choices[3]);
        assert(out@ =~= old(out)@ + encode_mcq_spec(m@));
    }
}

proof fn lemma_questions_body_snoc(qs: Seq<McqView>, m: McqView)
    ensures
        questions_body(qs.push(m)) == questions_body(qs) + encode_mcq_spec(m),
    decreases qs.len(),
{
    if qs.len() == 0 {
        let s = qs.push(m);
        assert(s.first() == m);
        assert(s.drop_first() =~= Seq::<McqView>::empty());
        assert(qs =~= Seq::<McqView>::empty());
        assert(questions_body(Seq::<McqView>::empty()) == Seq::<u8>::empty());
        assert(questions_body(s) =~= questions_body(qs) + encode_mcq_spec(m));
    } else {
        assert(qs.push(m).drop_first() =~= qs.drop_first().push(m));
        assert(qs.push(m).first() == qs.first());
        lemma_questions_body_snoc(qs.drop_first(), m);
        assert(questions_body(qs.push(m)) =~= questions_body(qs) + encode_mcq_spec(m));
    }
}

/// Encode a question list into its stable byte form.
pub fn encode_questions(qs: &Vec<Mcq>) -> (r: Vec<u8>)
    requires
        forall|i: int| 0 <= i < qs@.len() ==> (#[trigger] qs@[i]).wf(),
    ensures
        r@ == encode_questions_spec(qs.deep_view()),
{
    let mut out: Vec<u8> = Vec::new();
    write_u64(&mut out, qs.len() as u64);
    let mut i: usize = 0;
    proof {
        assert(qs.deep_view().take(0) =~= Seq::<McqView>::empty());
        assert(out@ =~= le_bytes(qs.deep_view().len() as u64) + questions_body(
            qs.deep_view().take(0),
        ));
    }
    while i < qs.len()
        invariant
            0 <= i <= qs@.len(),
            forall|j: int| 0 <= j < qs@.len() ==> (#[trigger] qs@[j]).wf(),
            out@ == le_bytes(qs.deep_view().len() as u64) + questions_body(
                qs.deep_view().take(i as int),
            ),
        decreases qs@.len() - i,
    {
        encode_mcq(&mut out, &qs[i]);
        proof {
            assert(qs.deep_view().take(i as int + 1) =~= qs.deep_view().take(i as int).push(
                qs@[i as int]@,
            ));
            lemma_questions_body_snoc(qs.deep_view().take(i as int), qs@[i as int]@);
        }
        i = i + 1;
    }
    proof {
        assert(qs.deep_view().take(qs@.len() as int) =~= qs.deep_view());
    }
    out
}

/// Decode one text starting at `pos`; on success also return where the
/// following data starts.
fn decode_str(bytes: &Vec<u8>, pos: usize) -> (r: Result<(String, usize), DecodeError>)
    requires
        pos <= bytes@.len(),
    ensures
        match r {
            Ok((s, p2)) => {
                &&& decode_str_spec(bytes@.skip(pos as int)) == Ok::<_, DecodeError>(
                    (s@, bytes@.skip(p2 as int)),
                )
                &&& pos <= p2 <= bytes@.len()
            },
            Err(e) => decode_str_spec(bytes@.skip(pos as int)) == Err::<(Seq<char>, Seq<u8>), _>(e),
        },
{
    proof {
        reveal(decode_str_spec);
    }
    let blen = bytes.len();
    let ghost tail = bytes@.skip(pos as int);
    if blen - pos < 8 {
        return Err(DecodeError::UnexpectedEnd);
    }
    let n = read_u64(bytes, pos);
    proof {
        assert(tail.subrange(0, 8) =~= bytes@.subrange(pos as int, pos as int + 8));
    }
    if n > (blen - pos - 8) as u64 {
        return Err(DecodeError::UnexpectedEnd);
    }
    let n_us = n as usize;
    let mut sub: Vec<u8> = Vec::new();
    let mut j: usize = 0;
    proof {
        assert(sub@ =~= bytes@.subrange(pos as int + 8, pos as int + 8));
    }
    while j < n_us
        invariant
            0 <= j <= n_us,
            pos + 8 + n_us <= bytes@.len(),
            bytes@.len() <= usize::MAX,
            sub@ == bytes@.subrange(pos as int + 8, pos as int + 8 + j),
        decreases n_us - j,
    {
        sub.push(bytes[pos + 8 + j]);
        proof {
            assert(bytes@.subrange(pos as int + 8, pos as int + 8 + j + 1) =~= bytes@.subrange(
                pos as int + 8,
                pos as int + 8 + j,
            ).push(bytes@[pos as int + 8 + j]));
        }
        j = j + 1;
    }
    let ghost sb = tail.subrange(8, 8 + n as int);
    proof {
        assert(sub@ =~= sb);
    }
    match string_from_utf8(sub) {
        None => {
            proof {
                assert(decode_str_spec(tail) == Err::<(Seq<char>, Seq<u8>), _>(
                    DecodeError::Malformed,
                ));
            }
            Err(DecodeError::Malformed)
        },
        Some(s) => {
            let p2 = pos + 8 + n_us;
            proof {
                broadcast use vstd::utf8::encode_utf8_valid_utf8;

                vstd::utf8::encode_utf8_decode_utf8(s@);
                assert(valid_utf8(sb));
                assert(decode_utf8(sb) == s@);
                assert(tail.skip(8 + n as int) =~= bytes@.skip(p2 as int));
            }
            Ok((s, p2))
        },
    }
}

/// Decode one question starting at `pos`; on success also return where the
/// following data starts, and the question is well-formed.
#[verifier::rlimit(100)]
fn decode_mcq(bytes: &Vec<u8>, pos: usize) -> (r: Result<(Mcq, usize), DecodeError>)
    requires
        pos <= bytes@.len(),
    ensures
        match r {
            Ok((m, p2)) => {
                &&& decode_mcq_spec(bytes@.skip(pos as int)) == Ok::<_, DecodeError>(
                    (m@, bytes@.skip(p2 as int)),
                )
                &&& pos <= p2 <= bytes@.len()
                &&& m.wf()
            },
            Err(e) => decode_mcq_spec(bytes@.skip(pos as int)) == Err::<(McqView, Seq<u8>), _>(e),
        },
{
    proof {
        reveal(decode_mcq_spec);
    }
    let (statement, p1) = match decode_str(bytes, pos) {
        Ok(x) => x,
        Err(e) => {
            return Err(e);
        },
    };
    let (c0, p2) = match decode_str(bytes, p1) {
        Ok(x) => x,
        Err(e) => {
            return Err(e);
        },
    };
    let (c1, p3) = match decode_str(bytes, p2) {
        Ok(x) => x,
        Err(e) => {
            return Err(e);
        },
    };
    let (c2, p4) = match decode_str(bytes, p3) {
        Ok(x) => x,
        Err(e) => {
            return Err(e);
        },
    };
    let (c3, p5) = match decode_str(bytes, p4) {
        Ok(x) => x,
        Err(e) => {
            return Err(e);
        },
    };
    if p5 >= bytes.len() {
        proof {
            assert(bytes@.skip(p5 as int).len() < 1);
        }
        return Err(DecodeError::UnexpectedEnd);
    }
    let sol = match byte_to_choice(bytes[p5]) {
        Some(c) => c,
        None => {
            proof {
                assert(bytes@.skip(p5 as int)[0] == bytes@[p5 as int]);
            }
            return Err(DecodeError::Malformed);
        },
    };
    proof {
        assert(bytes@.skip(p5 as int)[0] == bytes@[p5 as int]);
    }
    let distinct = !crate::text::str_eq(c0.as_str(), c1.as_str()) && !crate::text::str_eq(
        c0.as_str(),
        c2.as_str(),
    ) && !crate::text::str_eq(c0.as_str(), c3.as_str()) && !crate::text::str_eq(
        c1.as_str(),
        c2.as_str(),
    ) && !crate::text::str_eq(c1.as_str(), c3.as_str()) && !crate::text::str_eq(
        c2.as_str(),
        c3.as_str(),
    );
    let ghost cseq = seq![c0@, c1@, c2@, c3@];
    proof {
        assert(cseq.len() == 4);
        assert(distinct == cseq.no_duplicates()) by {
            if distinct {
                assert forall|a: int, b: int| 0 <= a < b < 4 implies cseq[a] != cseq[b] by {}
            } else {
                assert(!cseq.no_duplicates());
            }
        }
    }
    if !distinct {
        return Err(DecodeError::Malformed);
    }
    let mut choices: Vec<String> = Vec::new();
    choices.push(c0);
    choices.push(c1);
    choices.push(c2);
    choices.push(c3);
    proof {
        assert(choices.deep_view() =~= cseq);
    }
    let m = Mcq::new(statement, choices, sol);
    let p6 = p5 + 1;
    proof {
        assert(bytes@.skip(p5 as int).skip(1) =~= bytes@.skip(p6 as int));
        assert(m@ =~= McqView { statement: m@.statement, choices: cseq, solution: sol });
    }
    Ok((m, p6))
}

/// How a partial decode combines with questions already decoded.
spec fn compose_questions(acc: Seq<McqView>, rest: Result<Seq<McqView>, DecodeError>) -> Result<
    Seq<McqView>,
    DecodeError,
> {
    match rest {
        Ok(s) => Ok(acc + s),
        Err(e) => Err(e),
    }
}

/// Decode the stable byte form of a question list; every decoded question
/// is well-formed.
#[verifier::rlimit(100)]
pub fn decode_questions(bytes: &Vec<u8>) -> (r: Result<Vec<Mcq>, DecodeError>)
    ensures
        match r {
            Ok(v) => {
                &&& decode_questions_spec(bytes@) == Ok::<_, DecodeError>(v.deep_view())
                &&& forall|i: int| 0 <= i < v@.len() ==> (#[trigger] v@[i]).wf()
            },
            Err(e) => decode_questions_spec(bytes@) == Err::<Seq<McqView>, _>(e),
        },
{
    if bytes.len() < 8 {
        return Err(DecodeError::UnexpectedEnd);
    }
    let n = read_u64(bytes, 0);
    let ghost body = bytes@.skip(8);
    let mut acc: Vec<Mcq> = Vec::new();
    let mut pos: usize = 8;
    let mut count: u64 = 0;
    proof {
        assert(body.skip(0) =~= body);
        assert(decode_questions_spec(bytes@) == decode_questions_body(body, n as nat));
    }
    while count < n
        invariant
            0 <= count <= n,
            8 <= pos <= bytes@.len(),
            bytes@.len() <= usize::MAX,
            body == bytes@.skip(8),
            acc.deep_view().len() == count,
            forall|i: int| 0 <= i < acc@.len() ==> (#[trigger] acc@[i]).wf(),
            decode_questions_spec(bytes@) == decode_questions_body(body, n as nat),
            decode_questions_body(body, n as nat) == compose_questions(
                acc.deep_view(),
                decode_questions_body(bytes@.skip(pos as int), (n - count) as nat),
            ),
        decreases n - count,
    {
        let ghost tail = bytes@.skip(pos as int);
        let (m, p2) = match decode_mcq(bytes, pos) {
            Ok(x) => x,
            Err(e) => {
                proof {
                    assert(decode_questions_body(tail, (n - count) as nat) == Err::<
                        Seq<McqView>,
                        _,
                    >(e));
                }
                return Err(e);
            },
        };
        let ghost pre_acc = acc.deep_view();
        acc.push(m);
        proof {
            assert(acc.deep_view() =~= pre_acc.push(m@));
            let rest = decode_questions_body(bytes@.skip(p2 as int), (n - count - 1) as nat);
            assert(decode_questions_body(tail, (n - count) as nat) == match rest {
                Ok(s) => Ok::<_, DecodeError>(seq![m@] + s),
                Err(e) => Err(e),
            });
            match rest {
                Ok(s) => {
                    assert(pre_acc + (seq![m@] + s) =~= pre_acc.push(m@) + s);
                },
                Err(_) => {},
            }
        }
        pos = p2;
        count = count + 1;
    }
    if pos != bytes.len() {
        proof {
            assert(bytes@.skip(pos as int).len() != 0);
            assert(decode_questions_body(bytes@.skip(pos as int), 0) == Err::<
                Seq<McqView>,
                _,
            >(DecodeError::Malformed));
        }
        return Err(DecodeError::Malformed);
    }
    proof {
        assert(bytes@.skip(pos as int).len() == 0);
        assert(decode_questions_body(bytes@.skip(pos as int), 0) == Ok::<_, DecodeError>(
            Seq::<McqView>::empty(),
        ));
        assert(acc.deep_view() + Seq::<McqView>::empty() =~= acc.deep_view());
    }
    Ok(acc)
}

} // verus!

//! Reply frames and the extraction of their value.
use vstd::prelude::*;
use vstd::string::StringSliceAdditionalSpecFns;
use vstd::utf8::encode_utf8;
use vstd::slice::slice_to_vec;
use crate::error::{LssError, ProtocolError, lift};
use crate::wire::{
    DIGIT_ZERO, MINUS, PLUS, is_digit, all_digits, span, lemma_span_at, parse_unsigned,
    parse_signed, parse_digits, decimal, signed_decimal, lemma_decimal, lemma_signed_decimal,
};

verus! {

pub open spec fn digit_test() -> spec_fn(u8) -> bool {
    |b: u8| is_digit(b)
}

/// Number of digits that open the reply: the echoed servo id.
pub open spec fn id_len(raw: Seq<u8>) -> nat {
    span(raw, digit_test())
}

/// What `separate` makes of the reply text `raw` for `token`: the echoed id
/// (leading digits that fit in a byte), then exactly `token`, then a signed
/// decimal `i32` that runs to the end of the text.
pub open spec fn reply_fields(raw: Seq<u8>, token: Seq<u8>) -> Result<(u8, i32), ProtocolError> {
    let n = id_len(raw) as int;
    let rest = raw.skip(n);
    match parse_unsigned(raw.take(n), 255) {
        None => Err(ProtocolError::InvalidId),
        Some(id) => if token.len() <= rest.len() && rest.take(token.len() as int) == token {
            match parse_signed(rest.skip(token.len() as int)) {
                Some(v) => Ok((id as u8, v as i32)),
                None => Err(ProtocolError::InvalidValue),
            }
        } else {
            Err(ProtocolError::TokenMismatch)
        },
    }
}

/// A token made of capital letters, as the servos' tokens are.
pub open spec fn capital_letters(token: Seq<u8>) -> bool {
    forall|i: int| 0 <= i < token.len() ==> 65 <= #[trigger] token[i] <= 90
}

/// The echoed id of `id_text + token + ...` is `id_text`, when the token
/// starts with a letter.
proof fn lemma_id_len(id_text: Seq<u8>, tail: Seq<u8>)
    requires
        all_digits(id_text),
        tail.len() > 0,
        65 <= tail[0] <= 90,
    ensures
        id_len(id_text + tail) == id_text.len(),
        (id_text + tail).take(id_text.len() as int) == id_text,
        (id_text + tail).skip(id_text.len() as int) == tail,
{
    let raw = id_text + tail;
    assert forall|j: int| 0 <= j < id_text.len() implies digit_test()(#[trigger] raw[j]) by {
        assert(raw[j] == id_text[j]);
    }
    assert(raw[id_text.len() as int] == tail[0]);
    lemma_span_at(raw, digit_test(), id_text.len() as int);
    assert(raw.take(id_text.len() as int) =~= id_text);
    assert(raw.skip(id_text.len() as int) =~= tail);
}

/// Round trip: the reply that a servo writes for `token`, its own id and a
/// value reads back as that id and that value.
pub proof fn lemma_reply_round_trip(id: u8, token: Seq<u8>, value: i32)
    requires
        token.len() > 0,
        capital_letters(token),
    ensures
        reply_fields(decimal(id as nat) + token + signed_decimal(value as int), token) == Ok::<
            _,
            ProtocolError,
        >((id, value)),
{
    let id_text = decimal(id as nat);
    let tail = token + signed_decimal(value as int);
    lemma_decimal(id as nat);
    lemma_signed_decimal(value);
    assert(tail[0] == token[0]);
    lemma_id_len(id_text, tail);
    assert(id_text + token + signed_decimal(value as int) =~= id_text + tail);
    assert(tail.take(token.len() as int) =~= token);
    assert(tail.skip(token.len() as int) =~= signed_decimal(value as int));
}

/// A reply to one token is never taken for a reply to another: for tokens
/// of capital letters, the reply `id_text + token + value` is refused when
/// any other token is expected, a longer or a shorter one included.
pub proof fn lemma_token_mismatch(id_text: Seq<u8>, token: Seq<u8>, value: i32, expected: Seq<u8>)
    requires
        id_text.len() > 0,
        all_digits(id_text),
        token.len() > 0,
        capital_letters(token),
        capital_letters(expected),
        expected != token,
    ensures
        reply_fields(id_text + token + signed_decimal(value as int), expected) is Err,
{
    let tail = token + signed_decimal(value as int);
    let sd = signed_decimal(value as int);
    lemma_signed_decimal(value);
    assert(tail[0] == token[0]);
    lemma_id_len(id_text, tail);
    assert(id_text + token + sd =~= id_text + tail);
    let e = expected.len() as int;
    if e <= tail.len() && tail.take(e) == expected {
        if e <= token.len() {
            if e == token.len() {
                assert(expected =~= token) by {
                    assert forall|i: int| 0 <= i < e implies expected[i] == token[i] by {
                        assert(tail.take(e)[i] == tail[i]);
                    }
                }
            }
            let text = tail.skip(e);
            assert(text[0] == token[e]);
            assert(!is_digit(text[0]));
            assert(parse_signed(text) is None);
        } else {
            let t = token.len() as int;
            assert(expected[t] == tail.take(e)[t]);
            assert(tail[t] == sd[0]);
        }
    }
}

/// Reading a reply has no hidden state: two responses made from the same
/// text give the same fields for the same token.
pub proof fn lemma_separate_is_pure(text: String, a: LssResponse, b: LssResponse, token: Seq<u8>)
    requires
        a@ == encode_utf8(text@),
        b@ == encode_utf8(text@),
    ensures
        reply_fields(a@, token) == reply_fields(b@, token),
{
}

/// The text of one reply frame, without its start marker and terminator.
pub struct LssResponse {
    message: Vec<u8>,
}

impl View for LssResponse {
    type V = Seq<u8>;

    closed spec fn view(&self) -> Seq<u8> {
        self.message@
    }
}

impl LssResponse {
    /// Wraps the text of a reply frame.
    pub fn new(message: String) -> (r: LssResponse)
        ensures
            r@ == encode_utf8(message@),
    {
        LssResponse { message: slice_to_vec(message.as_str().as_bytes()) }
    }

    /// Wraps the payload bytes of a reply frame.
    pub fn from_bytes(message: Vec<u8>) -> (r: LssResponse)
        ensures
            r@ == message@,
    {
        LssResponse { message }
    }

    /// The reply text, as bytes.
    pub fn raw(&self) -> (r: &[u8])
        ensures
            r@ == self@,
    {
        self.message.as_slice()
    }

    /// The echoed servo id and the value of a reply to `token`.
    ///
    /// The match of the token is exact: a reply to `QVV` is refused for `QV`,
    /// and the other way round.
    pub fn separate(&self, token: &str) -> (r: Result<(u8, i32), LssError>)
        ensures
            r == lift(reply_fields(self@, token.spec_bytes())),
    {
        let raw = self.message.as_slice();
        let tok = token.as_bytes();
        let len = raw.len();
        let mut n: usize = 0;
        while n < len && raw[n] >= DIGIT_ZERO && raw[n] <= DIGIT_ZERO + 9
            invariant
                n <= len == raw@.len(),
                forall|j: int| 0 <= j < n ==> is_digit(#[trigger] raw@[j]),
            decreases len - n,
        {
            n = n + 1;
        }
        proof {
            lemma_span_at(raw@, digit_test(), n as int);
            assert(raw@.take(n as int) =~= raw@.subrange(0, n as int));
        }
        let id = match parse_digits(raw, 0, n, 255) {
            Some(id) => id,
            None => {
                return Err(LssError::Protocol(ProtocolError::InvalidId));
            },
        };
        let ghost rest = raw@.skip(n as int);
        if tok.len() > len - n {
            assert(rest.len() == len - n);
            return Err(LssError::Protocol(ProtocolError::TokenMismatch));
        }
        let mut k: usize = 0;
        while k < tok.len()
            invariant
                n + tok@.len() <= len == raw@.len(),
                k <= tok@.len(),
                rest == raw@.skip(n as int),
                rest.take(k as int) == tok@.take(k as int),
                raw@ == self@,
                tok@ == token.spec_bytes(),
                id_len(raw@) == n,
                parse_unsigned(raw@.take(n as int), 255) == Some(id as nat),
            decreases tok@.len() - k,
        {
            if raw[n + k] != tok[k] {
                assert(rest.take(tok@.len() as int)[k as int] != tok@[k as int]);
                return Err(LssError::Protocol(ProtocolError::TokenMismatch));
            }
            assert(rest.take(k + 1) =~= rest.take(k as int).push(raw@[n + k]));
            assert(tok@.take(k + 1) =~= tok@.take(k as int).push(tok@[k as int]));
            k = k + 1;
        }
        assert(tok@.take(k as int) =~= tok@);
        let start = n + tok.len();
        let ghost text = rest.skip(tok@.len() as int);
        assert(text =~= raw@.subrange(start as int, len as int));
        if start < len && raw[start] == MINUS {
            assert(text.skip(1) =~= raw@.subrange(start + 1, len as int));
            match parse_digits(raw, start + 1, len, 0x8000_0000) {
                Some(m) => Ok((id as u8, (-(m as i64)) as i32)),
                None => Err(LssError::Protocol(ProtocolError::InvalidValue)),
            }
        } else if start < len && raw[start] == PLUS {
            assert(text.skip(1) =~= raw@.subrange(start + 1, len as int));
            match parse_digits(raw, start + 1, len, 0x7fff_ffff) {
                Some(m) => Ok((id as u8, m as i32)),
                None => Err(LssError::Protocol(ProtocolError::InvalidValue)),
            }
        } else {
            match parse_digits(raw, start, len, 0x7fff_ffff) {
                Some(m) => Ok((id as u8, m as i32)),
                None => Err(LssError::Protocol(ProtocolError::InvalidValue)),
            }
        }
    }
}

} // verus!

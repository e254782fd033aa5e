//! Byte-level vocabulary of the protocol: markers, decimal rendering and
//! decimal parsing.
use vstd::prelude::*;

verus! {

/// Start marker of an outgoing frame (`#`).
pub const COMMAND_START: u8 = 35;

/// Start marker of a reply frame (`*`).
pub const REPLY_START: u8 = 42;

/// Terminator of every frame (carriage return).
pub const FRAME_END: u8 = 13;

/// ASCII `-`.
pub const MINUS: u8 = 45;

/// ASCII `+`.
pub const PLUS: u8 = 43;

/// ASCII `0`.
pub const DIGIT_ZERO: u8 = 48;

pub open spec fn is_digit(b: u8) -> bool {
    48 <= b && b <= 57
}

pub open spec fn all_digits(s: Seq<u8>) -> bool {
    forall|i: int| 0 <= i < s.len() ==> is_digit(#[trigger] s[i])
}

/// The ASCII digit for `d < 10`.
pub open spec fn digit_byte(d: nat) -> u8 {
    (48 + d) as u8
}

/// Plain decimal text of `n`: no sign, no leading zeros.
pub open spec fn decimal(n: nat) -> Seq<u8>
    decreases n,
{
    if n < 10 {
        seq![digit_byte(n)]
    } else {
        decimal(n / 10).push(digit_byte(n % 10))
    }
}

/// Decimal text of `v`, prefixed with `-` only when negative.
pub open spec fn signed_decimal(v: int) -> Seq<u8> {
    if v < 0 {
        seq![MINUS] + decimal((-v) as nat)
    } else {
        decimal(v as nat)
    }
}

/// The number that a run of decimal digits denotes.
pub open spec fn digits_value(s: Seq<u8>) -> nat
    decreases s.len(),
{
    if s.len() == 0 {
        0
    } else {
        digits_value(s.drop_last()) * 10 + (s.last() - 48) as nat
    }
}

/// Length of the longest prefix of `s` whose bytes all satisfy `p`.
pub open spec fn span(s: Seq<u8>, p: spec_fn(u8) -> bool) -> nat
    decreases s.len(),
{
    if s.len() > 0 && p(s[0]) {
        1 + span(s.skip(1), p)
    } else {
        0
    }
}

/// A non-empty run of digits whose value is at most `limit`.
pub open spec fn parse_unsigned(s: Seq<u8>, limit: nat) -> Option<nat> {
    if s.len() > 0 && all_digits(s) && digits_value(s) <= limit {
        Some(digits_value(s))
    } else {
        None
    }
}

/// A decimal integer with an optional sign that fits in an `i32`.
pub open spec fn parse_signed(s: Seq<u8>) -> Option<int> {
    if s.len() > 0 && s[0] == MINUS {
        match parse_unsigned(s.skip(1), 0x8000_0000) {
            Some(m) => Some(-m),
            None => None,
        }
    } else if s.len() > 0 && s[0] == PLUS {
        match parse_unsigned(s.skip(1), 0x7fff_ffff) {
            Some(m) => Some(m as int),
            None => None,
        }
    } else {
        match parse_unsigned(s, 0x7fff_ffff) {
            Some(m) => Some(m as int),
            None => None,
        }
    }
}

/// `span` is the first index at which `p` fails, or the length.
pub proof fn lemma_span_at(s: Seq<u8>, p: spec_fn(u8) -> bool, i: int)
    requires
        0 <= i <= s.len(),
        forall|j: int| 0 <= j < i ==> p(#[trigger] s[j]),
        i == s.len() || !p(s[i]),
    ensures
        span(s, p) == i,
    decreases i,
{
    if i > 0 {
        assert forall|j: int| 0 <= j < i - 1 implies p(#[trigger] s.skip(1)[j]) by {
            assert(s.skip(1)[j] == s[j + 1]);
        }
        lemma_span_at(s.skip(1), p, i - 1);
    }
}

/// Decimal text is a non-empty run of digits that denotes its number.
pub proof fn lemma_decimal(n: nat)
    ensures
        decimal(n).len() > 0,
        all_digits(decimal(n)),
        digits_value(decimal(n)) == n,
    decreases n,
{
    if n >= 10 {
        lemma_decimal(n / 10);
        let d = decimal(n);
        assert(d.drop_last() =~= decimal(n / 10));
        assert forall|i: int| 0 <= i < d.len() implies is_digit(#[trigger] d[i]) by {
            if i < d.len() - 1 {
                assert(d[i] == decimal(n / 10)[i]);
            }
        }
        assert(d.last() == digit_byte(n % 10));
        assert(digit_byte(n % 10) == 48 + n % 10);
        assert(digits_value(d) == digits_value(decimal(n / 10)) * 10 + n % 10);
        assert(n == (n / 10) * 10 + n % 10) by (nonlinear_arith);
    } else {
        assert(decimal(n).drop_last() =~= Seq::<u8>::empty());
        assert(digit_byte(n) == 48 + n);
        assert(digits_value(decimal(n)) == digits_value(Seq::<u8>::empty()) * 10 + n);
    }
}

/// A signed decimal text reads back as its number.
pub proof fn lemma_signed_decimal(v: i32)
    ensures
        parse_signed(signed_decimal(v as int)) == Some(v as int),
        signed_decimal(v as int).len() > 0,
        is_digit(signed_decimal(v as int)[0]) || signed_decimal(v as int)[0] == MINUS,
{
    if v < 0 {
        let m = (-v) as nat;
        lemma_decimal(m);
        assert(signed_decimal(v as int).skip(1) =~= decimal(m));
    } else {
        lemma_decimal(v as nat);
    }
}

/// Appends the decimal text of `n` to `out`.
pub fn push_decimal(out: &mut Vec<u8>, n: u32)
    ensures
        final(out)@ == old(out)@ + decimal(n as nat),
    decreases n,
{
    if n >= 10 {
        push_decimal(out, n / 10);
    }
    out.push(DIGIT_ZERO + (n % 10) as u8);
    assert(final(out)@ =~= old(out)@ + decimal(n as nat));
}

/// Appends the decimal text of `v` to `out`, with `-` when negative.
pub fn push_signed_decimal(out: &mut Vec<u8>, v: i32)
    ensures
        final(out)@ == old(out)@ + signed_decimal(v as int),
{
    if v < 0 {
        out.push(MINUS);
        let magnitude: u32 = (-(v as i64)) as u32;
        push_decimal(out, magnitude);
        assert(final(out)@ =~= old(out)@ + signed_decimal(v as int));
    } else {
        push_decimal(out, v as u32);
    }
}

/// Parses `s[start..end]` as a non-empty run of digits worth at most `limit`.
pub fn parse_digits(s: &[u8], start: usize, end: usize, limit: u32) -> (r: Option<u32>)
    requires
        start <= end <= s@.len(),
    ensures
        match r {
            Some(v) => parse_unsigned(s@.subrange(start as int, end as int), limit as nat) == Some(
                v as nat,
            ),
            None => parse_unsigned(s@.subrange(start as int, end as int), limit as nat) is None,
        },
{
    let ghost text = s@.subrange(start as int, end as int);
    if start == end {
        return None;
    }
    let mut acc: u32 = 0;
    let mut too_big: bool = false;
    let mut i: usize = start;
    while i < end
        invariant
            start <= i <= end <= s@.len(),
            text == s@.subrange(start as int, end as int),
            all_digits(s@.subrange(start as int, i as int)),
            !too_big ==> acc as nat == digits_value(s@.subrange(start as int, i as int)) && acc
                <= limit,
            too_big ==> digits_value(s@.subrange(start as int, i as int)) > limit,
        decreases end - i,
    {
        let b = s[i];
        let ghost before = s@.subrange(start as int, i as int);
        let ghost after = s@.subrange(start as int, i + 1);
        assert(after.drop_last() =~= before);
        if b < DIGIT_ZERO || b > DIGIT_ZERO + 9 {
            assert(text[i - start] == b);
            return None;
        }
        if !too_big {
            let next: u64 = acc as u64 * 10 + (b - DIGIT_ZERO) as u64;
            if next > limit as u64 {
                too_big = true;
            } else {
                acc = next as u32;
            }
        }
        assert forall|j: int| 0 <= j < after.len() implies is_digit(#[trigger] after[j]) by {
            if j < before.len() {
                assert(after[j] == before[j]);
            }
        }
        i = i + 1;
    }
    if too_big {
        None
    } else {
        Some(acc)
    }
}

} // verus!

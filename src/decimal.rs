//! Decimal digits of the cue counter.

use vstd::prelude::*;

use crate::text::push_char;

verus! {

/// Value of a decimal digit character.
pub open spec fn digit_value(c: char) -> nat
    recommends
        '0' <= c <= '9',
{
    (c as nat - '0' as nat) as nat
}

/// Value of a sequence of decimal digit characters, most significant first.
pub open spec fn digits_value(s: Seq<char>) -> nat
    decreases s.len(),
{
    if s.len() == 0 {
        0
    } else {
        digits_value(s.drop_last()) * 10 + digit_value(s.last())
    }
}

pub open spec fn all_digits(s: Seq<char>) -> bool {
    forall|i: int| 0 <= i < s.len() ==> '0' <= #[trigger] s[i] <= '9'
}

/// The digits of an unsigned number after an optional leading `+`.
pub open spec fn unsigned_digits(s: Seq<char>) -> Seq<char> {
    if s.len() > 0 && s[0] == '+' {
        s.drop_first()
    } else {
        s
    }
}

/// What reading a line as a `u32` gives: an optional `+`, then one or more
/// decimal digits whose value fits in 32 bits; anything else is no number.
pub open spec fn parse_u32(s: Seq<char>) -> Option<u32> {
    let d = unsigned_digits(s);
    if d.len() > 0 && all_digits(d) && digits_value(d) <= u32::MAX {
        Some(digits_value(d) as u32)
    } else {
        None
    }
}

proof fn lemma_unsigned_digits_push(p: Seq<char>, c: char)
    ensures
        p.len() == 0 && c == '+' ==> unsigned_digits(p.push(c)) =~= Seq::<char>::empty(),
        p.len() == 0 && c != '+' ==> unsigned_digits(p.push(c)) =~= seq![c],
        p.len() > 0 ==> unsigned_digits(p.push(c)) =~= unsigned_digits(p).push(c),
{
    if p.len() > 0 && p[0] == '+' {
        assert(p.push(c).drop_first() =~= p.drop_first().push(c));
    }
}

proof fn lemma_all_digits_push(d: Seq<char>, c: char)
    ensures
        all_digits(d.push(c)) == (all_digits(d) && '0' <= c <= '9'),
{
    if all_digits(d.push(c)) {
        assert forall|i: int| 0 <= i < d.len() implies '0' <= #[trigger] d[i] <= '9' by {
            assert(d.push(c)[i] == d[i]);
        }
        assert(d.push(c)[d.len() as int] == c);
    }
}

proof fn lemma_digits_value_push(d: Seq<char>, c: char)
    ensures
        digits_value(d.push(c)) == digits_value(d) * 10 + digit_value(c),
{
    assert(d.push(c).drop_last() =~= d);
}

/// Reads a cue counter line.
pub fn parse_counter(line: &str) -> (r: Option<u32>)
    ensures
        r == parse_u32(line@),
{
    let mut value: u64 = 0;
    let mut started = false;
    let mut any_digit = false;
    let mut bad = false;
    let mut too_big = false;
    for c in it: line.chars()
        invariant
            it.seq() == line@,
            started == (it.index() > 0),
            ({
                let d = unsigned_digits(line@.take(it.index()));
                &&& bad == !all_digits(d)
                &&& !bad ==> any_digit == (d.len() > 0)
                &&& !bad ==> too_big == (digits_value(d) > u32::MAX)
                &&& !bad && !too_big ==> value == digits_value(d)
            }),
    {
        let ghost p = line@.take(it.index());
        let ghost d = unsigned_digits(p);
        proof {
            assert(line@.take(it.index() + 1) =~= p.push(c));
            lemma_unsigned_digits_push(p, c);
            lemma_digits_value_push(d, c);
            lemma_all_digits_push(d, c);
        }
        if !started && c == '+' {
        } else if '0' <= c && c <= '9' {
            if !bad && !too_big {
                let v: u64 = value * 10 + (c as u64 - '0' as u64);
                if v > u32::MAX as u64 {
                    too_big = true;
                } else {
                    value = v;
                }
            }
            any_digit = true;
        } else {
            bad = true;
        }
        started = true;
    }
    proof {
        assert(line@.take(line@.len() as int) =~= line@);
    }
    if bad || too_big || !any_digit {
        None
    } else {
 Some(value as u32)
    }
}

/// The character of a decimal digit.
pub open spec fn digit_char(d: nat) -> char {
    seq!['0', '1', '2', '3', '4', '5', '6', '7', '8', '9'][d as int]
}

/// The decimal form of a number: no sign and no leading zeros.
pub open spec fn decimal(n: nat) -> Seq<char>
    decreases n,
{
    if n < 10 {
        seq![digit_char(n)]
    } else {
        decimal(n / 10).push(digit_char(n % 10))
    }
}

proof fn lemma_digit_char(d: nat)
    requires
        d < 10,
    ensures
        '0' <= digit_char(d) <= '9',
        digit_value(digit_char(d)) == d,
        digit_char(d) != '+',
{
    let t = seq!['0', '1', '2', '3', '4', '5', '6', '7', '8', '9'];
    assert(t[0] == '0' && t[1] == '1' && t[2] == '2' && t[3] == '3' && t[4] == '4');
    assert(t[5] == '5' && t[6] == '6' && t[7] == '7' && t[8] == '8' && t[9] == '9');
}

/// The decimal form of a number reads back as that number.
pub proof fn lemma_decimal_parses(n: nat)
    ensures
        decimal(n).len() > 0,
        decimal(n)[0] != '+',
        all_digits(decimal(n)),
        digits_value(decimal(n)) == n,
    decreases n,
{
    lemma_digit_char(n % 10);
    if n >= 10 {
        lemma_decimal_parses(n / 10);
        lemma_all_digits_push(decimal(n / 10), digit_char(n % 10));
        lemma_digits_value_push(decimal(n / 10), digit_char(n % 10));
        assert((n / 10) * 10 + n % 10 == n) by (nonlinear_arith);
    } else {
        lemma_digits_value_push(Seq::<char>::empty(), digit_char(n));
        assert(Seq::<char>::empty().push(digit_char(n)) =~= seq![digit_char(n)]);
        assert(seq![digit_char(n)].drop_last() =~= Seq::<char>::empty());
        assert(all_digits(seq![digit_char(n)]));
    }
}

/// Counter values survive rendering and re-reading.
pub proof fn lemma_parse_decimal(n: u32)
    ensures
        parse_u32(decimal(n as nat)) == Some(n),
{
    lemma_decimal_parses(n as nat);
}

fn digit_char_of(d: u32) -> (c: char)
    requires
        d < 10,
    ensures
        c == digit_char(d as nat),
{
    proof {
        lemma_digit_char(d as nat);
    }
    let t = ['0', '1', '2', '3', '4', '5', '6', '7', '8', '9'];
    proof {
        assert(t@ =~= seq!['0', '1', '2', '3', '4', '5', '6', '7', '8', '9']);
    }
    t[d as usize]
}

/// Appends the decimal form of `n`.
pub fn push_decimal(s: &mut String, n: u32)
    ensures
        final(s)@ == old(s)@ + decimal(n as nat),
    decreases n,
{
    if n >= 10 {
        push_decimal(s, n / 10);
    }
    push_char(s, digit_char_of(n % 10));
    proof {
        if n < 10 {
            assert(decimal(n as nat) =~= seq![digit_char(n as nat)]);
        }
    }
}

} // verus!

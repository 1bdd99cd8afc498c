// Small pieces of text every renderer needs: decimal numbers, and strings
// built by appending.

use vstd::prelude::*;

verus! {

/// The character of one decimal digit.
pub open spec fn digit_char(d: nat) -> char {
    if d == 0 {
        '0'
    } else if d == 1 {
        '1'
    } else if d == 2 {
        '2'
    } else if d == 3 {
        '3'
    } else if d == 4 {
        '4'
    } else if d == 5 {
        '5'
    } else if d == 6 {
        '6'
    } else if d == 7 {
        '7'
    } else if d == 8 {
        '8'
    } else {
        '9'
    }
}

/// `n` in decimal, most significant digit first, no leading zeros.
pub open spec fn dec(n: nat) -> Seq<char>
    decreases n,
{
    if n < 10 {
        seq![digit_char(n)]
    } else {
        dec(n / 10).push(digit_char(n % 10))
    }
}

/// The text of one digit.
fn digit_str(d: u64) -> (r: &'static str)
    requires
        d < 10,
    ensures
        r@ == seq![digit_char(d as nat)],
{
    if d == 0 {
        proof { reveal_strlit("0"); }
        "0"
    } else if d == 1 {
        proof { reveal_strlit("1"); }
        "1"
    } else if d == 2 {
        proof { reveal_strlit("2"); }
        "2"
    } else if d == 3 {
        proof { reveal_strlit("3"); }
        "3"
    } else if d == 4 {
        proof { reveal_strlit("4"); }
        "4"
    } else if d == 5 {
        proof { reveal_strlit("5"); }
        "5"
    } else if d == 6 {
        proof { reveal_strlit("6"); }
        "6"
    } else if d == 7 {
        proof { reveal_strlit("7"); }
        "7"
    } else if d == 8 {
        proof { reveal_strlit("8"); }
        "8"
    } else {
        proof { reveal_strlit("9"); }
        "9"
    }
}

/// `n` written in decimal.
pub fn decimal(n: u64) -> (s: String)
    ensures
        s@ == dec(n as nat),
    decreases n,
{
    if n < 10 {
        String::from_str(digit_str(n))
    } else {
        let mut s = decimal(n / 10);
        s.append(digit_str(n % 10));
        s
    }
}

/// Appends `n` in decimal.
pub fn push_decimal(out: &mut String, n: u64)
    ensures
        final(out)@ == old(out)@ + dec(n as nat),
{
    let d = decimal(n);
    out.append(d.as_str());
}

/// A string of `n` copies of one short piece.
pub open spec fn repeat_seq(piece: Seq<char>, n: nat) -> Seq<char>
    decreases n,
{
    if n == 0 {
        Seq::empty()
    } else {
        repeat_seq(piece, (n - 1) as nat) + piece
    }
}

/// `piece` repeated `n` times.
pub fn repeat_str(piece: &str, n: usize) -> (s: String)
    ensures
        s@ == repeat_seq(piece@, n as nat),
{
    let mut s = String::new();
    let mut i: usize = 0;
    while i < n
        invariant
            i <= n,
            s@ == repeat_seq(piece@, i as nat),
        decreases n - i,
    {
        s.append(piece);
        i = i + 1;
    }
    s
}

/// Appends one character. Calls `String::push`, which std documents as
/// appending the given char to the end of the string.
#[verifier::external_body]
pub(crate) fn push_char(out: &mut String, c: char)
    ensures
        final(out)@ == old(out)@.push(c),
{
    out.push(c);
}

/// Every character of a decimal numeral is a digit.
pub proof fn lemma_dec_digits(n: nat)
    ensures
        dec(n).len() >= 1,
        forall|i: int| 0 <= i < dec(n).len() ==> '0' <= #[trigger] dec(n)[i] <= '9',
    decreases n,
{
    if n >= 10 {
        lemma_dec_digits(n / 10);
        let d = dec(n / 10);
        assert forall|i: int| 0 <= i < dec(n).len() implies '0' <= #[trigger] dec(n)[i] <= '9' by {
            if i < d.len() {
                assert(dec(n)[i] == d[i]);
            }
        }
    }
}

proof fn lemma_digit_char_injective(a: nat, b: nat)
    requires
        a < 10,
        b < 10,
        digit_char(a) == digit_char(b),
    ensures
        a == b,
{
}

/// Two numbers with the same numeral are the same number.
pub proof fn lemma_dec_injective(a: nat, b: nat)
    requires
        dec(a) == dec(b),
    ensures
        a == b,
    decreases a,
{
    if a < 10 && b < 10 {
        assert(dec(a)[0] == digit_char(a));
        assert(dec(b)[0] == digit_char(b));
        lemma_digit_char_injective(a, b);
    } else if a < 10 {
        lemma_dec_digits(b / 10);
        assert(dec(b).len() >= 2);
    } else if b < 10 {
        lemma_dec_digits(a / 10);
        assert(dec(a).len() >= 2);
    } else {
        assert(dec(a).drop_last() =~= dec(a / 10));
        assert(dec(b).drop_last() =~= dec(b / 10));
        lemma_dec_injective(a / 10, b / 10);
        assert(dec(a).last() == digit_char(a % 10));
        assert(dec(b).last() == digit_char(b % 10));
        lemma_digit_char_injective(a % 10, b % 10);
    }
}

/// `n` written in decimal, for the widest literals.
pub fn decimal_wide(n: u128) -> (s: String)
    ensures
        s@ == dec(n as nat),
    decreases n,
{
    if n < 10 {
        String::from_str(digit_str(n as u64))
    } else {
        let mut s = decimal_wide(n / 10);
        s.append(digit_str((n % 10) as u64));
        s
    }
}

/// Appends `n` in decimal, for the widest literals.
pub fn push_decimal_wide(out: &mut String, n: u128)
    ensures
        final(out)@ == old(out)@ + dec(n as nat),
{
    let d = decimal_wide(n);
    out.append(d.as_str());
}

/// `a + "x" + b == c + "x" + d` with all four decimal numerals splits the
/// same way: a numeral holds no `x`.
pub proof fn lemma_split_at_x(w1: nat, d1: nat, w2: nat, d2: nat)
    requires
        dec(w1) + "x"@ + dec(d1) == dec(w2) + "x"@ + dec(d2),
    ensures
        w1 == w2,
        d1 == d2,
{
    reveal_strlit("x");
    let a = dec(w1);
    let b = dec(w2);
    let s = dec(w1) + "x"@ + dec(d1);
    lemma_dec_digits(w1);
    lemma_dec_digits(w2);
    lemma_dec_digits(d1);
    lemma_dec_digits(d2);
    if a.len() < b.len() {
        assert(s[a.len() as int] == 'x');
        assert(s[a.len() as int] == b[a.len() as int]);
        assert('0' <= b[a.len() as int] <= '9');
        assert(false);
    } else if b.len() < a.len() {
        assert(s[b.len() as int] == 'x');
        assert(s[b.len() as int] == a[b.len() as int]);
        assert('0' <= a[b.len() as int] <= '9');
        assert(false);
    }
    assert(a =~= s.take(a.len() as int));
    assert(b =~= s.take(b.len() as int));
    lemma_dec_injective(w1, w2);
    assert(dec(d1) =~= s.skip(a.len() as int + 1));
    assert(dec(d2) =~= s.skip(b.len() as int + 1));
    lemma_dec_injective(d1, d2);
}

} // verus!

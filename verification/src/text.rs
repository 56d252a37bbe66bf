//! Small text-building helpers: appending characters and decimal numbers.
use vstd::prelude::*;

verus! {

/// The character of a decimal digit `d` (`d < 10`).
pub open spec fn digit_char(d: nat) -> char {
    (48 + d) as char
}

/// The decimal representation of `n`, without leading zeros.
pub open spec fn decimal(n: nat) -> Seq<char>
    decreases n,
{
    if n < 10 {
        seq![digit_char(n)]
    } else {
        decimal(n / 10).push(digit_char(n % 10))
    }
}

/// Appends one character to a string.
///
/// Trusted: calls `String::push`, whose documentation says that it appends
/// the given character to the end of the string; the contract claims exactly that.
#[verifier::external_body]
pub(crate) fn push_char(s: &mut String, c: char)
    ensures
        final(s)@ == old(s)@.push(c),
{
    s.push(c);
}

/// Appends the decimal representation of `n` to `out`.
pub(crate) fn push_decimal(out: &mut String, n: u64)
    ensures
        final(out)@ == old(out)@ + decimal(n as nat),
    decreases n,
{
    if n >= 10 {
        push_decimal(out, n / 10);
    }
    let d: u8 = (n % 10) as u8;
    push_char(out, (48u8 + d) as char);
    assert(final(out)@ =~= old(out)@ + decimal(n as nat));
}

/// Appends the characters of `bytes`, each byte read as the character of the
/// same code point, to `out`.
pub(crate) fn push_bytes_as_chars(out: &mut String, bytes: &Vec<u8>)
    ensures
        final(out)@ == old(out)@ + bytes_to_chars(bytes@),
{
    let mut i: usize = 0;
    while i < bytes.len()
        invariant
            i <= bytes@.len(),
            out@ == old(out)@ + bytes_to_chars(bytes@.take(i as int)),
        decreases bytes@.len() - i,
    {
        let b: u8 = bytes[i];
        push_char(out, b as char);
        assert(bytes@.take(i as int + 1) =~= bytes@.take(i as int).push(b));
        assert(bytes_to_chars(bytes@.take(i as int + 1)) =~= bytes_to_chars(bytes@.take(i as int)).push(b as char));
        i = i + 1;
    }
    assert(bytes@.take(bytes@.len() as int) =~= bytes@);
}

/// Each byte read as the character of the same code point (Latin-1).
pub open spec fn bytes_to_chars(bytes: Seq<u8>) -> Seq<char> {
    bytes.map_values(|b: u8| b as char)
}

/// Reading bytes as characters keeps their number and their order: character
/// `k` is byte `k`, taken as the character of that code point.
pub proof fn lemma_bytes_to_chars(bytes: Seq<u8>)
    ensures
        bytes_to_chars(bytes).len() == bytes.len(),
        forall|k: int| 0 <= k < bytes.len() ==> #[trigger] bytes_to_chars(bytes)[k] == bytes[k] as char,
{
}

/// The value of a string of decimal digit characters.
pub open spec fn numeral_value(s: Seq<char>) -> int
    decreases s.len(),
{
    if s.len() == 0 {
        0
    } else {
        numeral_value(s.drop_last()) * 10 + (s.last() as int - 48)
    }
}

/// `decimal(n)` is the decimal numeral of `n`: one or more digits, with no
/// leading zero unless `n` is zero, whose value is `n`.
pub proof fn lemma_decimal(n: nat)
    ensures
        decimal(n).len() >= 1,
        forall|k: int| 0 <= k < decimal(n).len() ==> 48 <= #[trigger] (decimal(n)[k] as int) <= 57,
        decimal(n)[0] == '0' ==> n == 0,
        numeral_value(decimal(n)) == n,
    decreases n,
{
    if n < 10 {
        assert(decimal(n)[0] == digit_char(n));
        assert((digit_char(n) as int) == 48 + n);
        assert(decimal(n).drop_last() =~= Seq::<char>::empty());
        assert(numeral_value(Seq::<char>::empty()) == 0);
    } else {
        let m = n / 10;
        lemma_decimal(m);
        let d = digit_char((n % 10) as nat);
        assert(decimal(n) == decimal(m).push(d));
        assert(decimal(n).drop_last() =~= decimal(m));
        assert(decimal(n)[0] == decimal(m)[0]);
        assert forall|k: int| 0 <= k < decimal(n).len() implies 48 <= #[trigger] (decimal(n)[k] as int) <= 57 by {
            if k < decimal(m).len() {
                assert(decimal(n)[k] == decimal(m)[k]);
            }
        }
        assert(m * 10 + n % 10 == n) by (nonlinear_arith)
            requires
                m == n / 10,
        ;
        assert((d as int) == 48 + n % 10);
        assert(numeral_value(decimal(n)) == numeral_value(decimal(m)) * 10 + (d as int - 48));
    }
}

} // verus!

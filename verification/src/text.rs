//! Decimal and hexadecimal rendering of numbers inside error messages.

use vstd::prelude::*;
use vstd::utf8::*;

verus! {

/// The ASCII digit for `d` in `0..16`, lower-case for `a..f`.
pub open spec fn digit_char(d: nat) -> char {
    if d < 10 {
        (48 + d) as char
    } else {
        (87 + d) as char
    }
}

/// Decimal rendering of a natural number, without leading zeros.
pub open spec fn decimal(n: nat) -> Seq<char>
    decreases n,
{
    if n < 10 {
        seq![digit_char(n)]
    } else {
        decimal(n / 10).push(digit_char(n % 10))
    }
}

/// Two lower-case hexadecimal digits of a byte.
pub open spec fn hex2(b: u8) -> Seq<char> {
    seq![digit_char((b / 16) as nat), digit_char((b % 16) as nat)]
}

/// Appends one character.
///
/// Calls `String::push`; the contract claims, as its documentation states,
/// that the character is appended at the end.
#[verifier::external_body]
pub(crate) fn push_char(s: &mut String, c: char)
    ensures
        final(s)@ == old(s)@.push(c),
{
    s.push(c);
}

fn digit(d: u64) -> (c: char)
    requires
        d < 16,
    ensures
        c == digit_char(d as nat),
{
    if d < 10 {
        let c = (48 + d) as u8 as char;
        c
    } else {
        let c = (87 + d) as u8 as char;
        c
    }
}

/// Appends the decimal rendering of `n` to `out`.
pub fn push_decimal(out: &mut String, n: u64)
    ensures
        final(out)@ == old(out)@ + decimal(n as nat),
{
    let mut digits: Vec<u64> = Vec::new();
    let mut rest = n;
    // digits holds the decimal rendering of the consumed low part, reversed
    while rest >= 10
        invariant
            decimal(n as nat) == decimal(rest as nat) + reversed_digits(digits@),
            forall|i: int| 0 <= i < digits@.len() ==> digits@[i] < 10,
        decreases rest,
    {
        let d = rest % 10;
        proof {
            assert(decimal(rest as nat) == decimal((rest / 10) as nat).push(digit_char(d as nat)));
            assert(reversed_digits(digits@.push(d)) =~= seq![digit_char(d as nat)]
                + reversed_digits(digits@)) by {
                lemma_reversed_digits_push(digits@, d);
            }
            assert(decimal((rest / 10) as nat).push(digit_char(d as nat)) =~= decimal(
                (rest / 10) as nat,
            ) + seq![digit_char(d as nat)]);
        }
        digits.push(d);
        rest = rest / 10;
    }
    push_char(out, digit(rest));
    let mut i = digits.len();
    assert(digits@.skip(i as int) =~= Seq::<u64>::empty());
    assert(out@ =~= old(out)@ + decimal(rest as nat) + reversed_digits(digits@.skip(i as int)));
    while i > 0
        invariant
            i <= digits@.len(),
            forall|j: int| 0 <= j < digits@.len() ==> digits@[j] < 10,
            out@ == old(out)@ + decimal(rest as nat) + reversed_digits(
                digits@.skip(i as int),
            ),
            decimal(n as nat) == decimal(rest as nat) + reversed_digits(digits@),
        decreases i,
    {
        i = i - 1;
        let d = digits[i];
        proof {
            assert(digits@.skip(i as int) =~= seq![d] + digits@.skip(i + 1));
            lemma_reversed_digits_cons(d, digits@.skip(i + 1));
        }
        push_char(out, digit(d));
        assert(out@ =~= old(out)@ + decimal(rest as nat) + reversed_digits(digits@.skip(i as int)));
    }
    assert(digits@.skip(0) =~= digits@);
    assert(out@ =~= old(out)@ + decimal(n as nat));
}

/// Characters of digits stored least-significant first, printed most-significant first.
pub open spec fn reversed_digits(ds: Seq<u64>) -> Seq<char>
    decreases ds.len(),
{
    if ds.len() == 0 {
        Seq::empty()
    } else {
        reversed_digits(ds.drop_first()) + seq![digit_char(ds[0] as nat)]
    }
}

proof fn lemma_reversed_digits_push(ds: Seq<u64>, d: u64)
    ensures
        reversed_digits(ds.push(d)) == seq![digit_char(d as nat)] + reversed_digits(ds),
    decreases ds.len(),
{
    if ds.len() == 0 {
        assert(ds.push(d).drop_first() =~= Seq::<u64>::empty());
        assert(reversed_digits(Seq::<u64>::empty()) =~= Seq::<char>::empty());
    } else {
        assert(ds.push(d).drop_first() =~= ds.drop_first().push(d));
        lemma_reversed_digits_push(ds.drop_first(), d);
    }
}

proof fn lemma_reversed_digits_cons(d: u64, ds: Seq<u64>)
    ensures
        reversed_digits(seq![d] + ds) == reversed_digits(ds) + seq![digit_char(d as nat)],
{
    assert((seq![d] + ds).drop_first() =~= ds);
}

/// Appends the lower-case two-digit hexadecimal rendering of `b`.
pub fn push_hex2(out: &mut String, b: u8)
    ensures
        final(out)@ == old(out)@ + hex2(b),
{
    push_char(out, digit((b / 16) as u64));
    push_char(out, digit((b % 16) as u64));
    assert(old(out)@.push(digit_char((b / 16) as nat)).push(digit_char((b % 16) as nat))
        =~= old(out)@ + hex2(b));
}

/// Decimal rendering of a count.
pub fn decimal_string(n: u64) -> (s: String)
    ensures
        s@ == decimal(n as nat),
{
    let mut s = String::new();
    push_decimal(&mut s, n);
    assert(Seq::<char>::empty() + decimal(n as nat) =~= decimal(n as nat));
    s
}

/// Whether two strings hold the same characters, compared through their bytes.
pub fn str_eq(a: &str, b: &str) -> (r: bool)
    ensures
        r == (a@ == b@),
{
    let x = a.as_bytes();
    let y = b.as_bytes();
    proof {
        encode_utf8_decode_utf8(a@);
        encode_utf8_decode_utf8(b@);
    }
    if x.len() != y.len() {
        assert(x@.len() != y@.len());
        return false;
    }
    let mut i: usize = 0;
    while i < x.len()
        invariant
            i <= x@.len(),
            x@.len() == y@.len(),
            x@ == encode_utf8(a@),
            y@ == encode_utf8(b@),
            decode_utf8(encode_utf8(a@)) == a@,
            decode_utf8(encode_utf8(b@)) == b@,
            forall|j: int| 0 <= j < i ==> x@[j] == y@[j],
        decreases x@.len() - i,
    {
        if x[i] != y[i] {
            assert(x@[i as int] != y@[i as int]);
            assert(x@ != y@);
            return false;
        }
        i = i + 1;
    }
    assert(x@ =~= y@);
    true
}

/// Comma-separated two-digit hexadecimal bytes, as a list's debug rendering shows them.
pub open spec fn hex_items(bytes: Seq<u8>) -> Seq<char>
    decreases bytes.len(),
{
    if bytes.len() == 0 {
        Seq::empty()
    } else if bytes.len() == 1 {
        hex2(bytes[0])
    } else {
        hex_items(bytes.drop_last()) + ", "@ + hex2(bytes.last())
    }
}

/// `[..]` around [`hex_items`].
pub open spec fn hex_list(bytes: Seq<u8>) -> Seq<char> {
    "["@ + hex_items(bytes) + "]"@
}

/// Appends the bracketed hexadecimal rendering of `bytes`.
pub fn push_hex_list(out: &mut String, bytes: &Vec<u8>)
    ensures
        final(out)@ == old(out)@ + hex_list(bytes@),
{
    let ghost start = out@;
    out.append("[");
    let mut i: usize = 0;
    while i < bytes.len()
        invariant
            i <= bytes@.len(),
            out@ == start + "["@ + hex_items(bytes@.take(i as int)),
        decreases bytes@.len() - i,
    {
        let ghost before = out@;
        if i > 0 {
            out.append(", ");
        }
        push_hex2(out, bytes[i]);
        i = i + 1;
        proof {
            let t = bytes@.take(i as int);
            assert(t.drop_last() =~= bytes@.take(i - 1));
            assert(t.last() == bytes@[i - 1]);
            if i == 1 {
                assert(bytes@.take(0) =~= Seq::<u8>::empty());
                assert(hex_items(t) == hex2(t[0]));
                assert(out@ =~= start + "["@ + hex_items(t));
            } else {
                assert(out@ =~= start + "["@ + hex_items(t));
            }
        }
    }
    out.append("]");
    assert(bytes@.take(bytes@.len() as int) =~= bytes@);
    assert(out@ =~= start + hex_list(bytes@));
}

} // verus!

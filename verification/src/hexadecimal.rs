//! Lower-case hexadecimal text.
use vstd::prelude::*;

verus! {

/// `std::string::String::push` appends one character.
pub assume_specification[ String::push ](s: &mut String, c: char)
    ensures
        final(s)@ == old(s)@.push(c),
;

/// The lower-case hexadecimal digit of a value below sixteen.
pub open spec fn digit_char(v: int) -> char {
    if v < 10 {
        (v + 48) as char
    } else {
        (v + 87) as char
    }
}

/// The two digits of one byte.
pub open spec fn byte_chars(b: u8) -> Seq<char> {
    seq![digit_char(b as int / 16), digit_char(b as int % 16)]
}

/// The digits of a byte string, two per byte.
pub open spec fn hex_chars(s: Seq<u8>) -> Seq<char>
    decreases s.len(),
{
    if s.len() == 0 {
        Seq::empty()
    } else {
        hex_chars(s.drop_last()) + byte_chars(s.last())
    }
}

/// The digit of a value below sixteen.
fn digit(v: u8) -> (r: char)
    requires
        v < 16,
    ensures
        r == digit_char(v as int),
{
    if v < 10 {
        (v + 48) as char
    } else {
        (v + 87) as char
    }
}

/// The text of a byte string, two digits per byte.
pub fn encode(s: &[u8]) -> (r: String)
    ensures
        r@ == hex_chars(s@),
{
    let mut out: String = String::new();
    let mut i: usize = 0;
    while i < s.len()
        invariant
            0 <= i <= s@.len(),
            out@ == hex_chars(s@.take(i as int)),
        decreases s@.len() - i,
    {
        let b: u8 = s[i];
        out.push(digit(b / 16));
        out.push(digit(b % 16));
        proof {
            let next = s@.take(i + 1);
            assert(next.drop_last() =~= s@.take(i as int));
            assert(hex_chars(next) == hex_chars(s@.take(i as int)) + byte_chars(b));
            assert(out@ =~= hex_chars(next));
        }
        i = i + 1;
    }
    assert(s@.take(s@.len() as int) =~= s@);
    out
}

/// Text has twice as many digits as the byte string has bytes, and each pair
/// of digits stands for the byte at its place.
pub proof fn lemma_hex_chars(s: Seq<u8>)
    ensures
        hex_chars(s).len() == 2 * s.len(),
        forall|i: int|
            0 <= i < s.len() ==> #[trigger] hex_chars(s)[2 * i] == digit_char(s[i] as int / 16)
                && hex_chars(s)[2 * i + 1] == digit_char(s[i] as int % 16),
    decreases s.len(),
{
    if s.len() > 0 {
        lemma_hex_chars(s.drop_last());
        assert forall|i: int| 0 <= i < s.len() implies #[trigger] hex_chars(s)[2 * i] == digit_char(
            s[i] as int / 16,
        ) && hex_chars(s)[2 * i + 1] == digit_char(s[i] as int % 16) by {
            if i < s.len() - 1 {
                assert(hex_chars(s.drop_last())[2 * i] == digit_char(s.drop_last()[i] as int / 16));
            }
        }
    }
}

/// Every digit of text stands for four bits, and no two values share one.
pub proof fn lemma_digits_distinct(a: int, b: int)
    requires
        0 <= a < 16,
        0 <= b < 16,
    ensures
        digit_char(a) == digit_char(b) ==> a == b,
        a < 10 ==> '0' <= digit_char(a) && digit_char(a) <= '9' && digit_char(a) as int - 48 == a,
        a >= 10 ==> 'a' <= digit_char(a) && digit_char(a) <= 'f' && digit_char(a) as int - 87 == a,
{
}

/// Different byte strings have different texts.
pub proof fn lemma_texts_differ(a: Seq<u8>, b: Seq<u8>)
    requires
        hex_chars(a) == hex_chars(b),
    ensures
        a == b,
{
    lemma_hex_chars(a);
    lemma_hex_chars(b);
    assert forall|i: int| 0 <= i < a.len() implies a[i] == b[i] by {
        assert(a.len() == b.len());
        assert(hex_chars(a)[2 * i] == digit_char(a[i] as int / 16));
        assert(hex_chars(b)[2 * i] == digit_char(b[i] as int / 16));
        lemma_digits_distinct(a[i] as int / 16, b[i] as int / 16);
        lemma_digits_distinct(a[i] as int % 16, b[i] as int % 16);
    }
    assert(a =~= b);
}

} // verus!

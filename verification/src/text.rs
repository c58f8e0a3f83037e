//! Text: characters, trimming, searching and decimal numbers.
use vstd::prelude::*;
use vstd::utf8::encode_utf8;

verus! {

// ---- Characters -------------------------------------------------------------------

/// The characters with the Unicode property White_Space.
pub open spec fn is_space(c: char) -> bool {
    ||| '\u{9}' <= c && c <= '\u{d}'
    ||| c == ' '
    ||| c == '\u{85}'
    ||| c == '\u{a0}'
    ||| c == '\u{1680}'
    ||| '\u{2000}' <= c && c <= '\u{200a}'
    ||| c == '\u{2028}'
    ||| c == '\u{2029}'
    ||| c == '\u{202f}'
    ||| c == '\u{205f}'
    ||| c == '\u{3000}'
}

/// Whether a character is white space.
pub fn is_whitespace(c: char) -> (r: bool)
    ensures
        r == is_space(c),
{
    ('\u{9}' <= c && c <= '\u{d}') || c == ' ' || c == '\u{85}' || c == '\u{a0}' || c == '\u{1680}'
        || ('\u{2000}' <= c && c <= '\u{200a}') || c == '\u{2028}' || c == '\u{2029}' || c
        == '\u{202f}' || c == '\u{205f}' || c == '\u{3000}'
}

/// The characters of a text.
pub fn chars_of(s: &str) -> (r: Vec<char>)
    ensures
        r@ == s@,
{
    let mut out: Vec<char> = Vec::new();
    for c in it: s.chars()
        invariant
            out@ == it.seq().take(it.index() as int),
            it.seq() == s@,
    {
        out.push(c);
    }
    out
}

/// Whether two texts are the same.
pub fn same_text(a: &str, b: &str) -> (r: bool)
    ensures
        r == (a@ == b@),
{
    let x = chars_of(a);
    let y = chars_of(b);
    if x.len() != y.len() {
        return false;
    }
    let mut i: usize = 0;
    while i < x.len()
        invariant
            0 <= i <= x@.len(),
            x@ == a@,
            y@ == b@,
            x@.len() == y@.len(),
            forall|j: int| 0 <= j < i ==> x@[j] == y@[j],
        decreases x@.len() - i,
    {
        if x[i] != y[i] {
            return false;
        }
        i = i + 1;
    }
    assert(x@ =~= y@);
    true
}

/// The lower-case form of a text, by Unicode's rules.
pub uninterp spec fn lowercase_of(s: Seq<char>) -> Seq<char>;

/// `str::to_lowercase`.
#[verifier::external_body]
pub(crate) fn lowercase(s: &str) -> (r: String)
    ensures
        r@ == lowercase_of(s@),
{
    s.to_lowercase()
}

/// The text that bytes stand for, with U+FFFD in place of what is no UTF-8.
pub uninterp spec fn lossy_text_of(bytes: Seq<u8>) -> Seq<char>;

/// `String::from_utf8_lossy`.
#[verifier::external_body]
pub(crate) fn lossy_text(bytes: &[u8]) -> (r: String)
    ensures
        r@ == lossy_text_of(bytes@),
{
    String::from_utf8_lossy(bytes).into_owned()
}

// ---- Trimming and splitting ----------------------------------------------------------

/// The text without leading white space.
pub open spec fn trim_start(s: Seq<char>) -> Seq<char>
    decreases s.len(),
{
    if s.len() > 0 && is_space(s[0]) {
        trim_start(s.subrange(1, s.len() as int))
    } else {
        s
    }
}

/// The text without trailing white space.
pub open spec fn trim_end(s: Seq<char>) -> Seq<char>
    decreases s.len(),
{
    if s.len() > 0 && is_space(s.last()) {
        trim_end(s.drop_last())
    } else {
        s
    }
}

/// The text without white space at either end.
pub open spec fn trimmed(s: Seq<char>) -> Seq<char> {
    trim_end(trim_start(s))
}

/// The text without white space at either end.
pub fn trim(s: &str) -> (r: &str)
    ensures
        r@ == trimmed(s@),
{
    let chars = chars_of(s);
    let n: usize = chars.len();
    let mut i: usize = 0;
    assert(chars@.subrange(0, n as int) =~= chars@);
    while i < n && is_whitespace(chars[i])
        invariant
            n == chars@.len(),
            0 <= i <= n,
            trim_start(chars@) == trim_start(chars@.subrange(i as int, n as int)),
        decreases n - i,
    {
        proof {
            let rest = chars@.subrange(i as int, n as int);
            assert(rest[0] == chars@[i as int]);
            assert(rest.subrange(1, rest.len() as int) =~= chars@.subrange(i + 1, n as int));
        }
        i = i + 1;
    }
    let ghost start = chars@.subrange(i as int, n as int);
    assert(trim_start(chars@) == start) by {
        if i < n {
            assert(start[0] == chars@[i as int]);
        }
    }
    let mut j: usize = n;
    while j > i && is_whitespace(chars[j - 1])
        invariant
            n == chars@.len(),
            0 <= i <= j <= n,
            trim_end(start) == trim_end(chars@.subrange(i as int, j as int)),
        decreases j,
    {
        proof {
            let rest = chars@.subrange(i as int, j as int);
            assert(rest.last() == chars@[j - 1]);
            assert(rest.drop_last() =~= chars@.subrange(i as int, j - 1));
        }
        j = j - 1;
    }
    assert(trim_end(start) == chars@.subrange(i as int, j as int)) by {
        if j > i {
            assert(chars@.subrange(i as int, j as int).last() == chars@[j - 1]);
        }
    }
    s.substring_char(i, j)
}

/// The place of the first white space at or after `from`.
pub open spec fn first_space(s: Seq<char>, from: int) -> Option<int>
    decreases s.len() - from,
{
    if from < 0 || from >= s.len() {
        None
    } else if is_space(s[from]) {
        Some(from)
    } else {
        first_space(s, from + 1)
    }
}

/// The place of the first white space of a text.
pub fn find_space(chars: &[char]) -> (r: Option<usize>)
    ensures
        match r {
            Some(i) => first_space(chars@, 0) == Some(i as int) && i < chars@.len(),
            None => first_space(chars@, 0) is None,
        },
{
    let mut i: usize = 0;
    while i < chars.len()
        invariant
            0 <= i <= chars@.len(),
            first_space(chars@, 0) == first_space(chars@, i as int),
        decreases chars@.len() - i,
    {
        if is_whitespace(chars[i]) {
            return Some(i);
        }
        i = i + 1;
    }
    None
}

// ---- Searching ------------------------------------------------------------------------

/// The needle occurs at a place of the haystack.
pub open spec fn occurs_at<T>(hay: Seq<T>, needle: Seq<T>, i: int) -> bool {
    0 <= i && i + needle.len() <= hay.len() && hay.subrange(i, i + needle.len()) == needle
}

/// A place is the first at which the needle occurs.
pub open spec fn occurs_first<T>(hay: Seq<T>, needle: Seq<T>, i: int) -> bool {
    occurs_at(hay, needle, i) && forall|j: int| 0 <= j < i ==> !#[trigger] occurs_at(hay, needle, j)
}

/// The first place at which the needle occurs.
pub open spec fn first_occurrence<T>(hay: Seq<T>, needle: Seq<T>) -> Option<int> {
    if exists|i: int| #[trigger] occurs_at(hay, needle, i) {
        Some(choose|i: int| occurs_first(hay, needle, i))
    } else {
        None
    }
}

/// A first place is the first place.
pub proof fn lemma_first_occurrence<T>(hay: Seq<T>, needle: Seq<T>, i: int)
    requires
        occurs_first(hay, needle, i),
    ensures
        first_occurrence(hay, needle) == Some(i),
{
    let k = choose|k: int| occurs_first(hay, needle, k);
    assert(occurs_first(hay, needle, k));
    if k < i {
        assert(!occurs_at(hay, needle, k));
    } else if i < k {
        assert(!occurs_at(hay, needle, i));
    }
}

/// Whether the needle occurs at a place that leaves room for it.
fn matches_at(hay: &[u8], needle: &[u8], i: usize) -> (r: bool)
    requires
        i + needle@.len() <= hay@.len(),
    ensures
        r == occurs_at(hay@, needle@, i as int),
{
    let len: usize = hay.len();
    let mut j: usize = 0;
    while j < needle.len()
        invariant
            len == hay@.len(),
            0 <= j <= needle@.len(),
            i + needle@.len() <= hay@.len(),
            forall|k: int| 0 <= k < j ==> hay@[i + k] == needle@[k],
        decreases needle@.len() - j,
    {
        if hay[i + j] != needle[j] {
            assert(hay@.subrange(i as int, i + needle@.len())[j as int] != needle@[j as int]);
            return false;
        }
        j = j + 1;
    }
    assert(hay@.subrange(i as int, i + needle@.len()) =~= needle@);
    true
}

/// The first place at which the needle occurs.
pub fn find_bytes(hay: &[u8], needle: &[u8]) -> (r: Option<usize>)
    ensures
        match r {
            Some(i) => first_occurrence(hay@, needle@) == Some(i as int) && i + needle@.len()
                <= hay@.len() <= usize::MAX,
            None => first_occurrence(hay@, needle@) is None,
        },
{
    if needle.len() > hay.len() {
        return None;
    }
    let last: usize = hay.len() - needle.len();
    let mut i: usize = 0;
    while i < last
        invariant
            last == hay@.len() - needle@.len(),
            hay@.len() <= usize::MAX,
            0 <= i <= last,
            forall|j: int| 0 <= j < i ==> !#[trigger] occurs_at(hay@, needle@, j),
        decreases last - i,
    {
        if matches_at(hay, needle, i) {
            proof {
                lemma_first_occurrence(hay@, needle@, i as int);
            }
            return Some(i);
        }
        i = i + 1;
    }
    if matches_at(hay, needle, last) {
        proof {
            lemma_first_occurrence(hay@, needle@, last as int);
        }
        return Some(last);
    }
    None
}

/// Whether a text contains another, byte for byte.
pub fn contains_text(hay: &str, needle: &str) -> (r: bool)
    ensures
        r == (first_occurrence(encode_utf8(hay@), encode_utf8(needle@)) is Some),
{
    find_bytes(hay.as_bytes(), needle.as_bytes()).is_some()
}

// ---- Numbers ----------------------------------------------------------------------------

/// The decimal digits of a number, without leading zeros.
pub open spec fn decimal_chars(n: nat) -> Seq<char>
    decreases n,
{
    if n < 10 {
        seq![(n + 48) as char]
    } else {
        decimal_chars(n / 10).push((n % 10 + 48) as char)
    }
}

/// Appends the decimal digits of `n` to `out`.
pub fn push_decimal(out: &mut String, n: u64)
    ensures
        final(out)@ == old(out)@ + decimal_chars(n as nat),
    decreases n,
{
    let digit: u8 = (n % 10) as u8;
    if n >= 10 {
        push_decimal(out, n / 10);
    }
    out.push((digit + 48) as char);
    assert(out@ =~= old(out)@ + decimal_chars(n as nat));
}

/// Two decimal digits.
pub open spec fn two_digits(n: nat) -> Seq<char> {
    seq![(n / 10 + 48) as char, (n % 10 + 48) as char]
}

/// Appends two decimal digits to `out`.
pub fn push_two_digits(out: &mut String, n: u8)
    requires
        n < 100,
    ensures
        final(out)@ == old(out)@ + two_digits(n as nat),
{
    out.push((n / 10 + 48) as char);
    out.push((n % 10 + 48) as char);
    assert(out@ =~= old(out)@ + two_digits(n as nat));
}

/// The number that decimal digits stand for, `None` where a character is no
/// digit or the number exceeds `u32::MAX`.
pub open spec fn digits_value(s: Seq<char>) -> Option<int>
    decreases s.len(),
{
    if s.len() == 0 {
        Some(0)
    } else {
        match digits_value(s.drop_last()) {
            Some(v) => if '0' <= s.last() && s.last() <= '9' && v * 10 + (s.last() as int - 48)
                <= u32::MAX {
                Some(v * 10 + (s.last() as int - 48))
            } else {
                None
            },
            None => None,
        }
    }
}

/// The number that a text stands for: decimal digits, at least one, behind an
/// optional plus sign.
pub open spec fn number_of(s: Seq<char>) -> Option<int> {
    let digits = if s.len() > 0 && s[0] == '+' {
        s.subrange(1, s.len() as int)
    } else {
        s
    };
    if digits.len() == 0 {
        None
    } else {
        digits_value(digits)
    }
}

/// Reads a 32-bit number.
pub fn parse_number(s: &str) -> (r: Option<u32>)
    ensures
        match r {
            Some(v) => number_of(s@) == Some(v as int),
            None => number_of(s@) is None,
        },
{
    let chars = chars_of(s);
    let n: usize = chars.len();
    let start: usize = if n > 0 && chars[0] == '+' {
        1
    } else {
        0
    };
    let ghost digits = chars@.subrange(start as int, n as int);
    proof {
        assert(chars@.subrange(0, n as int) =~= chars@);
        assert(digits.len() > 0 ==> number_of(s@) == digits_value(digits));
    }
    if start == n {
        return None;
    }
    let mut v: u32 = 0;
    let mut i: usize = start;
    assert(digits.take(0) =~= Seq::<char>::empty());
    while i < n
        invariant
            n == chars@.len(),
            start <= i <= n,
            start < n,
            digits == chars@.subrange(start as int, n as int),
            number_of(s@) == digits_value(digits),
            digits_value(digits.take(i - start)) == Some(v as int),
        decreases n - i,
    {
        let c = chars[i];
        let ghost next = digits.take(i + 1 - start);
        proof {
            assert(next.drop_last() =~= digits.take(i - start));
            assert(next.last() == c);
        }
        if !('0' <= c && c <= '9') {
            proof {
                lemma_digits_prefix(digits, i + 1 - start);
            }
            return None;
        }
        let wide: u64 = (v as u64) * 10 + ((c as u64) - 48);
        if wide > 4294967295 {
            proof {
                lemma_digits_prefix(digits, i + 1 - start);
            }
            return None;
        }
        v = wide as u32;
        i = i + 1;
    }
    assert(digits.take(n - start) =~= digits);
    Some(v)
}

/// A text with a prefix that stands for no number stands for none.
proof fn lemma_digits_prefix(s: Seq<char>, k: int)
    requires
        0 <= k <= s.len(),
        digits_value(s.take(k)) is None,
    ensures
        digits_value(s) is None,
    decreases s.len() - k,
{
    if k == s.len() {
        assert(s.take(k) =~= s);
    } else {
        assert(s.take(k + 1).drop_last() =~= s.take(k));
        lemma_digits_prefix(s, k + 1);
    }
}

// ---- Laws -------------------------------------------------------------------------------

/// Trimming takes white space from the ends and nothing else: a text is white
/// space, what is left of it, and white space, and what is left neither starts
/// nor ends with any.
pub proof fn lemma_trimmed(s: Seq<char>)
    ensures
        ({
            let t = trimmed(s);
            &&& t.len() > 0 ==> !is_space(t[0]) && !is_space(t.last())
            &&& exists|i: int| #[trigger] leaves(s, t, i)
            &&& t.len() == 0 <==> (forall|i: int| 0 <= i < s.len() ==> is_space(#[trigger] s[i]))
        }),
        trimmed(trimmed(s)) == trimmed(s),
{
    lemma_trim_start(s);
    let front = trim_start(s);
    lemma_trim_end(front);
    let t = trimmed(s);
    let i = s.len() - front.len();
    let j = i + t.len();
    if t.len() > 0 {
        assert(t[0] == front[0]);
    }
    assert forall|k: int| i + t.len() <= k < s.len() implies is_space(#[trigger] s[k]) by {
        assert(front[k - i] == s[k]);
    }
    assert(s.subrange(i, i + t.len()) =~= t);
    assert(leaves(s, t, i));
    if t.len() == 0 {
        assert forall|k: int| 0 <= k < s.len() implies is_space(#[trigger] s[k]) by {}
    } else {
        assert(s[i] == t[0]);
    }
    lemma_trimmed_alone(t);
}

/// What is left of a text from a place on has only white space on both sides.
pub open spec fn leaves(s: Seq<char>, t: Seq<char>, i: int) -> bool {
    &&& 0 <= i && i + t.len() <= s.len()
    &&& s.subrange(i, i + t.len()) == t
    &&& forall|k: int| 0 <= k < i ==> is_space(#[trigger] s[k])
    &&& forall|k: int| i + t.len() <= k < s.len() ==> is_space(#[trigger] s[k])
}

/// A text without white space at its ends is left as it is.
pub proof fn lemma_trimmed_alone(t: Seq<char>)
    requires
        t.len() > 0 ==> !is_space(t[0]) && !is_space(t.last()),
    ensures
        trimmed(t) == t,
{
}

/// Only white space goes at the front.
proof fn lemma_trim_start(s: Seq<char>)
    ensures
        ({
            let t = trim_start(s);
            &&& t.len() <= s.len()
            &&& t == s.subrange(s.len() - t.len(), s.len() as int)
            &&& forall|k: int| 0 <= k < s.len() - t.len() ==> is_space(#[trigger] s[k])
            &&& t.len() > 0 ==> !is_space(t[0])
        }),
    decreases s.len(),
{
    let t = trim_start(s);
    if s.len() > 0 && is_space(s[0]) {
        let rest = s.subrange(1, s.len() as int);
        lemma_trim_start(rest);
        assert(t =~= s.subrange(s.len() - t.len(), s.len() as int));
        assert forall|k: int| 0 <= k < s.len() - t.len() implies is_space(#[trigger] s[k]) by {
            if k > 0 {
                assert(rest[k - 1] == s[k]);
            }
        }
    } else {
        assert(t =~= s.subrange(0, s.len() as int));
    }
}

/// Only white space goes at the end.
proof fn lemma_trim_end(s: Seq<char>)
    ensures
        ({
            let t = trim_end(s);
            &&& t.len() <= s.len()
            &&& t == s.subrange(0, t.len() as int)
            &&& forall|k: int| t.len() <= k < s.len() ==> is_space(#[trigger] s[k])
            &&& t.len() > 0 ==> !is_space(t.last())
        }),
    decreases s.len(),
{
    let t = trim_end(s);
    if s.len() > 0 && is_space(s.last()) {
        let rest = s.drop_last();
        lemma_trim_end(rest);
        assert(t =~= s.subrange(0, t.len() as int));
        assert forall|k: int| t.len() <= k < s.len() implies is_space(#[trigger] s[k]) by {
            if k < s.len() - 1 {
                assert(rest[k] == s[k]);
            }
        }
    } else {
        assert(t =~= s.subrange(0, s.len() as int));
    }
}

/// The place of the first white space is one, with none before it; where there
/// is no place, there is none.
pub proof fn lemma_first_space(s: Seq<char>, from: int)
    requires
        0 <= from,
    ensures
        match first_space(s, from) {
            Some(i) => from <= i < s.len() && is_space(s[i]) && (forall|j: int|
                from <= j < i ==> !is_space(#[trigger] s[j])),
            None => forall|j: int| from <= j < s.len() ==> !is_space(#[trigger] s[j]),
        },
    decreases s.len() - from,
{
    if from < s.len() && !is_space(s[from]) {
        lemma_first_space(s, from + 1);
    }
}

/// A needle is found exactly where it occurs, and at its first place.
pub proof fn lemma_found_where_it_occurs<T>(hay: Seq<T>, needle: Seq<T>, p: int)
    requires
        0 <= p,
        p + needle.len() <= hay.len(),
        hay.subrange(p, p + needle.len()) == needle,
    ensures
        first_occurrence(hay, needle) matches Some(i) && 0 <= i <= p && i + needle.len()
            <= hay.len() && hay.subrange(i, i + needle.len()) == needle && (forall|j: int|
            #![trigger hay.subrange(j, j + needle.len())]
            0 <= j < i ==> hay.subrange(j, j + needle.len()) != needle),
{
    assert(occurs_at(hay, needle, p));
    lemma_first_exists(hay, needle, p);
    let i = choose|i: int| occurs_first(hay, needle, i);
    assert(occurs_first(hay, needle, i));
    assert forall|j: int|
        #![trigger hay.subrange(j, j + needle.len())]
        0 <= j < i implies hay.subrange(j, j + needle.len()) != needle by {
        assert(!occurs_at(hay, needle, j));
    }
}

/// What occurs occurs somewhere first.
proof fn lemma_first_exists<T>(hay: Seq<T>, needle: Seq<T>, p: int)
    requires
        occurs_at(hay, needle, p),
    ensures
        exists|i: int| 0 <= i <= p && #[trigger] occurs_first(hay, needle, i),
    decreases p,
{
    if !occurs_first(hay, needle, p) {
        let j = choose|j: int| 0 <= j < p && #[trigger] occurs_at(hay, needle, j);
        lemma_first_exists(hay, needle, j);
    }
}

/// A needle that is not found occurs nowhere.
pub proof fn lemma_not_found<T>(hay: Seq<T>, needle: Seq<T>, p: int)
    requires
        first_occurrence(hay, needle) is None,
        0 <= p,
        p + needle.len() <= hay.len(),
    ensures
        hay.subrange(p, p + needle.len()) != needle,
{
    assert(!occurs_at(hay, needle, p));
}

/// The digits of a number are digits, the first of them is no zero unless the
/// number is one digit, and reading them gives the number.
pub proof fn lemma_decimal_chars(n: nat)
    requires
        n <= u32::MAX,
    ensures
        decimal_chars(n).len() > 0,
        forall|i: int|
            0 <= i < decimal_chars(n).len() ==> '0' <= #[trigger] decimal_chars(n)[i]
                && decimal_chars(n)[i] <= '9',
        decimal_chars(n)[0] == '0' ==> n == 0 && decimal_chars(n).len() == 1,
        digits_value(decimal_chars(n)) == Some(n as int),
        number_of(decimal_chars(n)) == Some(n as int),
    decreases n,
{
    let d = decimal_chars(n);
    if n < 10 {
        assert(d.drop_last() =~= Seq::<char>::empty());
        assert(digits_value(d.drop_last()) == Some(0int));
    } else {
        lemma_decimal_chars(n / 10);
        assert(d.drop_last() =~= decimal_chars(n / 10));
        assert(d[0] == decimal_chars(n / 10)[0]);
    }
}

/// Different numbers have different digits.
pub proof fn lemma_decimals_differ(a: nat, b: nat)
    requires
        decimal_chars(a) == decimal_chars(b),
    ensures
        a == b,
    decreases a,
{
    lemma_decimal_lens(a);
    lemma_decimal_lens(b);
    let d = decimal_chars(a);
    assert(d.last() as int == a % 10 + 48);
    assert(d.last() as int == b % 10 + 48);
    if a >= 10 && b >= 10 {
        assert(d.drop_last() =~= decimal_chars(a / 10));
        assert(d.drop_last() =~= decimal_chars(b / 10));
        lemma_decimals_differ(a / 10, b / 10);
    }
}

/// One digit exactly for a number below ten.
proof fn lemma_decimal_lens(n: nat)
    ensures
        decimal_chars(n).len() >= 1,
        decimal_chars(n).len() == 1 <==> n < 10,
    decreases n,
{
    if n >= 10 {
        lemma_decimal_lens(n / 10);
    }
}

/// Two digits read as the number.
pub proof fn lemma_two_digits(n: nat)
    requires
        n < 100,
    ensures
        two_digits(n).len() == 2,
        '0' <= two_digits(n)[0] && two_digits(n)[0] <= '9',
        '0' <= two_digits(n)[1] && two_digits(n)[1] <= '9',
        (two_digits(n)[0] as int - 48) * 10 + (two_digits(n)[1] as int - 48) == n,
{
}

/// A text stands for a number only where it is digits behind at most one plus
/// sign; each digit more is worth ten times what stands before it, and the sign
/// changes nothing.
pub proof fn lemma_number_of(s: Seq<char>, c: char)
    ensures
        number_of(Seq::<char>::empty()) is None,
        '0' <= c && c <= '9' ==> number_of(seq![c]) == Some(c as int - 48),
        s.len() > 0 && s != seq!['+'] && '0' <= c && c <= '9' ==> (match number_of(s) {
            Some(v) => number_of(s.push(c)) == (if v * 10 + (c as int - 48) <= u32::MAX {
                Some(v * 10 + (c as int - 48))
            } else {
                None
            }),
            None => number_of(s.push(c)) is None,
        }),
        !('0' <= c && c <= '9') && s.len() > 0 ==> number_of(s.push(c)) is None,
        s.len() > 0 && s[0] != '+' ==> number_of(seq!['+'] + s) == number_of(s),
{
    let t = s.push(c);
    let one = seq![c];
    assert(one.drop_last() =~= Seq::<char>::empty());
    assert(digits_value(one.drop_last()) == Some(0int));
    assert(t.drop_last() =~= s);
    if s.len() > 0 && s[0] == '+' {
        let rest = t.subrange(1, t.len() as int);
        assert(rest.drop_last() =~= s.subrange(1, s.len() as int));
        assert(rest.last() == c);
        if s.len() == 1 {
            assert(s =~= seq!['+']);
            assert(rest =~= one);
        }
    }
    let signed = seq!['+'] + s;
    assert(signed.subrange(1, signed.len() as int) =~= s);
}

/// The white space of Unicode is these characters and no other.
pub proof fn lemma_spaces(c: char)
    ensures
        is_space(c) <==> ({
            let n = c as int;
            ||| n == 0x9 || n == 0xa || n == 0xb || n == 0xc || n == 0xd || n == 0x20
            ||| n == 0x85 || n == 0xa0 || n == 0x1680
            ||| n == 0x2000 || n == 0x2001 || n == 0x2002 || n == 0x2003 || n == 0x2004
            ||| n == 0x2005 || n == 0x2006 || n == 0x2007 || n == 0x2008 || n == 0x2009
            ||| n == 0x200a || n == 0x2028 || n == 0x2029 || n == 0x202f || n == 0x205f
            ||| n == 0x3000
        }),
{
}

/// The bytes of two texts put together are the bytes of the one and those of the
/// other.
pub proof fn lemma_utf8_joined(a: Seq<char>, b: Seq<char>)
    ensures
        encode_utf8(a + b) == encode_utf8(a) + encode_utf8(b),
    decreases a.len(),
{
    if a.len() == 0 {
        assert(a + b =~= b);
    } else {
        assert((a + b).drop_first() =~= a.drop_first() + b);
        lemma_utf8_joined(a.drop_first(), b);
        assert(encode_utf8(a + b) =~= encode_utf8(a) + encode_utf8(b));
    }
}

/// A text that has another in it is found to have it.
pub proof fn lemma_part_found(before: Seq<char>, part: Seq<char>, after: Seq<char>)
    ensures
        first_occurrence(encode_utf8(before + part + after), encode_utf8(part)) is Some,
{
    lemma_utf8_joined(before + part, after);
    lemma_utf8_joined(before, part);
    let hay = encode_utf8(before + part + after);
    let (p, n) = (encode_utf8(before).len() as int, encode_utf8(part).len());
    assert(hay.subrange(p, p + n) =~= encode_utf8(part));
    lemma_found_where_it_occurs(hay, encode_utf8(part), p);
}

} // verus!

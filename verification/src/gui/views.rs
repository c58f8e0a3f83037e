//! What the views show: labels, times, search ranking.
use crate::gui::app::{event_step, AppState};
use crate::gui::event::{Event, EventModel};
use crate::gui::screen;
use crate::hexadecimal;
use crate::text::{
    decimal_chars, find_bytes, first_occurrence, lowercase, lowercase_of, occurs_at,
    is_space, push_decimal, push_two_digits, same_text, trim, trim_end, trim_start, trimmed,
    two_digits,
};
use vstd::prelude::*;
use vstd::utf8::encode_utf8;

verus! {

// ---- Keys as text -----------------------------------------------------------------

/// The first four bytes of a key as digits, with an ellipsis.
pub open spec fn short_hex_chars(bytes: Seq<u8>) -> Seq<char> {
    hexadecimal::hex_chars(bytes.take(4)).push('…')
}

/// The first four bytes of a key as digits, with an ellipsis.
pub fn short_hex(bytes: &[u8]) -> (r: String)
    requires
        bytes@.len() >= 4,
    ensures
        r@ == short_hex_chars(bytes@),
{
    let head: [u8; 4] = [bytes[0], bytes[1], bytes[2], bytes[3]];
    assert(head@ =~= bytes@.take(4));
    let mut s = hexadecimal::encode(&head);
    s.push('…');
    s
}

/// A key as 64 digits.
pub fn hex32(bytes: &[u8; 32]) -> (r: String)
    ensures
        r@ == hexadecimal::hex_chars(bytes@),
{
    hexadecimal::encode(bytes)
}

/// Why a text is no key.
#[derive(Debug, Clone, Copy, PartialEq, Eq, Structural)]
pub enum KeyTextError {
    /// The text has not 64 bytes.
    Length,
    /// A byte is no hexadecimal digit.
    Digit,
}

/// The value of a hexadecimal digit of either case, given as a byte.
pub open spec fn nibble_of_byte(b: u8) -> Option<u8> {
    if 48 <= b && b <= 57 {
        Some((b - 48) as u8)
    } else if 97 <= b && b <= 102 {
        Some((b - 87) as u8)
    } else if 65 <= b && b <= 70 {
        Some((b - 55) as u8)
    } else {
        None
    }
}

/// All bytes are hexadecimal digits.
pub open spec fn all_digits(s: Seq<u8>) -> bool {
    forall|i: int| #![trigger s[i]] 0 <= i < s.len() ==> nibble_of_byte(s[i]) is Some
}

/// The bytes that pairs of digits stand for.
pub open spec fn digits_to_bytes(s: Seq<u8>) -> Seq<u8> {
    Seq::new(
        s.len() / 2,
        |i: int|
            (nibble_of_byte(s[2 * i]).unwrap() * 16 + nibble_of_byte(s[2 * i + 1]).unwrap()) as u8,
    )
}

/// Reads a key from text, white space around it aside.
pub open spec fn key_of_text(s: Seq<char>) -> Result<Seq<u8>, KeyTextError> {
    let bytes = encode_utf8(trimmed(s));
    if bytes.len() != 64 {
        Err(KeyTextError::Length)
    } else if !all_digits(bytes) {
        Err(KeyTextError::Digit)
    } else {
        Ok(digits_to_bytes(bytes))
    }
}

/// The value of a hexadecimal digit.
fn hex_nibble(b: u8) -> (r: Option<u8>)
    ensures
        r == nibble_of_byte(b),
{
    if 48 <= b && b <= 57 {
        Some(b - 48)
    } else if 97 <= b && b <= 102 {
        Some(b - 87)
    } else if 65 <= b && b <= 70 {
        Some(b - 55)
    } else {
        None
    }
}

/// Reads a key from 64 digits of either case, white space around them aside.
pub fn parse_key(s: &str) -> (r: Result<[u8; 32], KeyTextError>)
    ensures
        match key_of_text(s@) {
            Ok(k) => r matches Ok(a) && a@ == k,
            Err(e) => r matches Err(x) && x == e,
        },
{
    let t = trim(s);
    let bytes = t.as_bytes();
    if bytes.len() != 64 {
        return Err(KeyTextError::Length);
    }
    let mut out: [u8; 32] = [0u8; 32];
    let mut i: usize = 0;
    while i < 32
        invariant
            0 <= i <= 32,
            bytes@.len() == 64,
            bytes@ == encode_utf8(trimmed(s@)),
            forall|j: int| #![trigger bytes@[j]] 0 <= j < 2 * i ==> nibble_of_byte(bytes@[j]) is Some,
            forall|j: int| 0 <= j < i ==> #[trigger] out@[j] == digits_to_bytes(bytes@)[j],
        decreases 32 - i,
    {
        let hi: u8 = match hex_nibble(bytes[i * 2]) {
            Some(v) => v,
            None => {
                assert(nibble_of_byte(bytes@[i * 2]) is None);
                return Err(KeyTextError::Digit);
            },
        };
        let lo: u8 = match hex_nibble(bytes[i * 2 + 1]) {
            Some(v) => v,
            None => {
                assert(nibble_of_byte(bytes@[i * 2 + 1]) is None);
                return Err(KeyTextError::Digit);
            },
        };
        assert(hi < 16 && lo < 16);
        out[i] = hi * 16 + lo;
        i = i + 1;
    }
    assert(out@ =~= digits_to_bytes(bytes@));
    Ok(out)
}

/// Reads a key from text; an error is put in words.
pub fn parse_pubkey_hex(s: &str) -> (r: Result<[u8; 32], String>)
    ensures
        match key_of_text(s@) {
            Ok(k) => r matches Ok(a) && a@ == k,
            Err(e) => r matches Err(x) && x@ == key_error_text(e),
        },
{
    match parse_key(s) {
        Ok(k) => Ok(k),
        Err(KeyTextError::Length) => Err("expected 64 hex chars (32 bytes)".to_owned()),
        Err(KeyTextError::Digit) => Err("bad hex digit".to_owned()),
    }
}

/// An error of reading a key in words.
pub open spec fn key_error_text(e: KeyTextError) -> Seq<char> {
    match e {
        KeyTextError::Length => "expected 64 hex chars (32 bytes)"@,
        KeyTextError::Digit => "bad hex digit"@,
    }
}

/// A character stands for the digit `d`, itself or as a capital letter.
pub open spec fn is_digit_form(c: char, d: char) -> bool {
    c == d || ('a' <= d && d <= 'f' && c as int == d as int - 32)
}

/// All characters are white space.
pub open spec fn all_space(s: Seq<char>) -> bool {
    forall|i: int| 0 <= i < s.len() ==> is_space(#[trigger] s[i])
}

/// White space in front of a text is trimmed away.
proof fn lemma_trim_front(left: Seq<char>, s: Seq<char>)
    requires
        all_space(left),
    ensures
        trim_start(left + s) == trim_start(s),
    decreases left.len(),
{
    let t = left + s;
    if left.len() == 0 {
        assert(t =~= s);
    } else {
        assert(t[0] == left[0]);
        assert(t.subrange(1, t.len() as int) =~= left.subrange(1, left.len() as int) + s);
        lemma_trim_front(left.subrange(1, left.len() as int), s);
    }
}

/// White space behind a text is trimmed away.
proof fn lemma_trim_back(s: Seq<char>, right: Seq<char>)
    requires
        all_space(right),
    ensures
        trim_end(s + right) == trim_end(s),
    decreases right.len(),
{
    let t = s + right;
    if right.len() == 0 {
        assert(t =~= s);
    } else {
        assert(t.last() == right.last());
        assert(t.drop_last() =~= s + right.drop_last());
        lemma_trim_back(s, right.drop_last());
    }
}

/// The text of a key is read back as the key, also with any of its letters as
/// capitals and with white space around it.
pub proof fn lemma_key_text_forms(k: Seq<u8>, left: Seq<char>, s: Seq<char>, right: Seq<char>)
    requires
        k.len() == 32,
        all_space(left),
        all_space(right),
        s.len() == 64,
        forall|i: int|
            0 <= i < 64 ==> is_digit_form(#[trigger] s[i], hexadecimal::hex_chars(k)[i]),
    ensures
        key_of_text(left + s + right) == Ok::<Seq<u8>, KeyTextError>(k),
{
    let digits = hexadecimal::hex_chars(k);
    hexadecimal::lemma_hex_chars(k);
    assert forall|i: int| 0 <= i < 64 implies is_digit_char(#[trigger] digits[i]) by {
        let j = i / 2;
        assert(digits[2 * j] == hexadecimal::digit_char(k[j] as int / 16));
        if i != 2 * j {
            assert(i == 2 * j + 1);
        }
    }
    assert(trimmed(left + s + right) == s) by {
        assert(is_digit_char(digits[0]) && is_digit_form(s[0], digits[0]));
        assert(is_digit_char(digits[63]) && is_digit_form(s[63], digits[63]));
        assert(left + s + right =~= left + (s + right));
        lemma_trim_front(left, s + right);
        assert((s + right)[0] == s[0]);
        lemma_trim_back(s, right);
    }
    assert forall|i: int| 0 <= i < 64 implies (#[trigger] s[i] as int) < 128 by {
        assert(is_digit_char(digits[i]));
    }
    vstd::utf8::is_ascii_chars_encode_utf8(s);
    let bytes = encode_utf8(s);
    assert(bytes =~= Seq::new(s.len(), |i: int| s[i] as u8));
    assert(all_digits(bytes)) by {
        assert forall|i: int| #![trigger bytes[i]] 0 <= i < bytes.len() implies nibble_of_byte(
            bytes[i],
        ) is Some by {
            assert(is_digit_char(digits[i]) && is_digit_form(s[i], digits[i]));
        }
    }
    assert forall|i: int| 0 <= i < 32 implies #[trigger] digits_to_bytes(bytes)[i] == k[i] by {
        assert(digits[2 * i] == hexadecimal::digit_char(k[i] as int / 16));
        assert(is_digit_form(s[2 * i], digits[2 * i]));
        assert(is_digit_form(s[2 * i + 1], digits[2 * i + 1]));
        assert(bytes[2 * i] == s[2 * i] as u8);
        assert(bytes[2 * i + 1] == s[2 * i + 1] as u8);
    }
    assert(digits_to_bytes(bytes) =~= k);
}

/// A key that is written as digits is read back.
pub proof fn lemma_key_text_round_trip(k: Seq<u8>)
    requires
        k.len() == 32,
    ensures
        key_of_text(hexadecimal::hex_chars(k)) == Ok::<Seq<u8>, KeyTextError>(k),
{
    let s = hexadecimal::hex_chars(k);
    hexadecimal::lemma_hex_chars(k);
    lemma_key_text_forms(k, Seq::empty(), s, Seq::empty());
    assert(Seq::<char>::empty() + s + Seq::<char>::empty() =~= s);
}

/// A lower-case hexadecimal digit.
pub open spec fn is_digit_char(c: char) -> bool {
    ('0' <= c && c <= '9') || ('a' <= c && c <= 'f')
}

// ---- Search -------------------------------------------------------------------------

/// What a search box asks for: the query in lower case, without white space
/// at its ends.
pub open spec fn query_text(query: Seq<char>) -> Seq<char> {
    lowercase_of(trimmed(query))
}

/// A query asks for nothing: it is empty but for white space.
pub open spec fn is_blank(query: Seq<char>) -> bool {
    trimmed(query).len() == 0
}

/// A digit of a key, or the ellipsis of a shortened one.
pub open spec fn is_id_char(c: char) -> bool {
    ('0' <= c && c <= '9') || ('a' <= c && c <= 'f') || ('A' <= c && c <= 'F') || c == '…'
}

/// A text looks like a key, whole or shortened.
pub open spec fn looks_like_id(s: Seq<char>) -> bool {
    s.len() >= 8 && forall|i: int| 0 <= i < s.len() ==> is_id_char(#[trigger] s[i])
}

/// How well a query matches one text: 0 for the text itself, 1000 where the
/// text starts with it, 2000 and its place where it occurs later, `None`
/// where it does not occur. `lowered` is the text in lower case.
pub open spec fn match_score(q: Seq<char>, lowered: Seq<char>) -> Option<int> {
    if lowered == q {
        Some(0)
    } else {
        match first_occurrence(encode_utf8(lowered), encode_utf8(q)) {
            Some(p) => if p == 0 {
                Some(1000)
            } else {
                Some(2000 + p)
            },
            None => None,
        }
    }
}

/// The score of a text for a query; a text that looks like a key scores 500
/// worse than a name.
pub open spec fn text_score(q: Seq<char>, text: Seq<char>) -> Option<int> {
    match match_score(q, lowercase_of(text)) {
        Some(v) => Some(
            v + (if looks_like_id(text) {
                500int
            } else {
                0int
            }),
        ),
        None => None,
    }
}

/// The lower of two scores.
pub open spec fn better(a: Option<int>, b: Option<int>) -> Option<int> {
    match (a, b) {
        (Some(x), Some(y)) => Some(
            if y < x {
                y
            } else {
                x
            },
        ),
        (Some(x), None) => Some(x),
        (None, y) => y,
    }
}

/// The best score among texts.
pub open spec fn best_score(q: Seq<char>, texts: Seq<Seq<char>>) -> Option<int>
    decreases texts.len(),
{
    if texts.len() == 0 {
        None
    } else {
        better(best_score(q, texts.drop_last()), text_score(q, texts.last()))
    }
}

/// The rank of a row with the given texts: 0 for a blank query, else the best
/// score among the texts. The lower, the better.
pub open spec fn row_rank(query: Seq<char>, texts: Seq<Seq<char>>) -> Option<int> {
    if is_blank(query) {
        Some(0)
    } else {
        best_score(query_text(query), texts)
    }
}

/// The contents of a list of texts.
pub open spec fn texts_of(s: Seq<&str>) -> Seq<Seq<char>> {
    s.map_values(|t: &str| t@)
}

/// The most bytes a text in lower case may have for its scores to be 32-bit
/// numbers.
pub const RANK_TEXT_LIMIT: usize = 4294964795;

/// The texts, in lower case, are short enough for their scores.
pub open spec fn rankable(texts: Seq<Seq<char>>) -> bool {
    forall|i: int|
        0 <= i < texts.len() ==> encode_utf8(lowercase_of(#[trigger] texts[i])).len()
            <= RANK_TEXT_LIMIT
}

/// Whether a text looks like a key.
fn is_id_text(s: &str) -> (r: bool)
    ensures
        r == looks_like_id(s@),
{
    if s.unicode_len() < 8 {
        return false;
    }
    let mut all: bool = true;
    for c in it: s.chars()
        invariant
            all == (forall|i: int| 0 <= i < it.index() ==> is_id_char(#[trigger] s@[i])),
            it.seq() == s@,
    {
        all = all && (('0' <= c && c <= '9') || ('a' <= c && c <= 'f') || ('A' <= c && c <= 'F') || c
            == '…');
    }
    all
}

/// The score of a text for a query in lower case.
fn score_text(q: &str, text: &str) -> (r: Option<u32>)
    requires
        encode_utf8(lowercase_of(text@)).len() <= RANK_TEXT_LIMIT,
    ensures
        match r {
            Some(v) => text_score(q@, text@) == Some(v as int),
            None => text_score(q@, text@) is None,
        },
{
    let lowered = lowercase(text);
    let tier: u32 = if same_text(lowered.as_str(), q) {
        0
    } else {
        match find_bytes(lowered.as_str().as_bytes(), q.as_bytes()) {
            Some(p) => if p == 0 {
                1000
            } else {
                2000 + p as u32
            },
            None => {
                return None;
            },
        }
    };
    Some(
        if is_id_text(text) {
            tier + 500
        } else {
            tier
        },
    )
}

/// The rank of a row with the given texts: the lower, the better; `None` where
/// the query occurs in none of them.
pub fn query_rank(query: &str, haystacks: &[&str]) -> (r: Option<u32>)
    requires
        rankable(texts_of(haystacks@)),
    ensures
        match r {
            Some(v) => row_rank(query@, texts_of(haystacks@)) == Some(v as int),
            None => row_rank(query@, texts_of(haystacks@)) is None,
        },
{
    let t = trim(query);
    if t.is_empty() {
        return Some(0);
    }
    let q = lowercase(t);
    let ghost texts = texts_of(haystacks@);
    let mut best: Option<u32> = None;
    let mut i: usize = 0;
    assert(texts.take(0) =~= Seq::<Seq<char>>::empty());
    while i < haystacks.len()
        invariant
            0 <= i <= haystacks@.len(),
            texts == texts_of(haystacks@),
            rankable(texts),
            q@ == query_text(query@),
            match best {
                Some(v) => best_score(q@, texts.take(i as int)) == Some(v as int),
                None => best_score(q@, texts.take(i as int)) is None,
            },
        decreases haystacks@.len() - i,
    {
        let h: &str = haystacks[i];
        assert(texts[i as int] == h@);
        let score = score_text(q.as_str(), h);
        proof {
            let next = texts.take(i + 1);
            assert(next.drop_last() =~= texts.take(i as int));
            assert(next.last() == h@);
        }
        best = match (best, score) {
            (Some(b), Some(v)) => Some(
                if v < b {
                    v
                } else {
                    b
                },
            ),
            (Some(b), None) => Some(b),
            (None, v) => v,
        };
        i = i + 1;
    }
    assert(texts.take(i as int) =~= texts);
    best
}

/// Like [`query_rank`], for texts of any length: the outer `None` where a text
/// in lower case is too long for its score.
pub fn query_rank_checked(query: &str, haystacks: &[&str]) -> (r: Option<Option<u32>>)
    ensures
        r is Some == rankable(texts_of(haystacks@)),
        r matches Some(rank) ==> (match rank {
            Some(v) => row_rank(query@, texts_of(haystacks@)) == Some(v as int),
            None => row_rank(query@, texts_of(haystacks@)) is None,
        }),
{
    let ghost texts = texts_of(haystacks@);
    let mut i: usize = 0;
    while i < haystacks.len()
        invariant
            0 <= i <= haystacks@.len(),
            texts == texts_of(haystacks@),
            forall|j: int|
                0 <= j < i ==> encode_utf8(lowercase_of(#[trigger] texts[j])).len()
                    <= RANK_TEXT_LIMIT,
        decreases haystacks@.len() - i,
    {
        let lowered = lowercase(haystacks[i]);
        assert(texts[i as int] == haystacks@[i as int]@);
        if lowered.as_str().as_bytes().len() > RANK_TEXT_LIMIT {
            return None;
        }
        i = i + 1;
    }
    Some(query_rank(query, haystacks))
}

/// Whether a row with the given texts is shown for a query: always for an
/// empty one, else where it occurs in a text, letter case aside.
pub fn matches_query(query: &str, haystacks: &[&str]) -> (r: bool)
    ensures
        r == (row_rank(query@, texts_of(haystacks@)) is Some),
{
    let t = trim(query);
    if t.is_empty() {
        return true;
    }
    let q = lowercase(t);
    let ghost texts = texts_of(haystacks@);
    let mut i: usize = 0;
    assert(texts.take(0) =~= Seq::<Seq<char>>::empty());
    let mut found: bool = false;
    while i < haystacks.len()
        invariant
            0 <= i <= haystacks@.len(),
            texts == texts_of(haystacks@),
            found == (best_score(q@, texts.take(i as int)) is Some),
        decreases haystacks@.len() - i,
    {
        let lowered = lowercase(haystacks[i]);
        let hit: bool = same_text(lowered.as_str(), q.as_str()) || find_bytes(
            lowered.as_str().as_bytes(),
            q.as_str().as_bytes(),
        ).is_some();
        proof {
            let next = texts.take(i + 1);
            assert(texts[i as int] == haystacks@[i as int]@);
            assert(next.drop_last() =~= texts.take(i as int));
            assert(next.last() == haystacks@[i as int]@);
        }
        found = found || hit;
        i = i + 1;
    }
    assert(texts.take(i as int) =~= texts);
    found
}

/// A query occurs in one of the texts, letter case aside.
pub open spec fn some_text_holds(q: Seq<char>, texts: Seq<Seq<char>>) -> bool {
    exists|i: int| 0 <= i < texts.len() && is_found(q, #[trigger] texts[i])
}

/// The filter is a plain search for the query: a row has a rank exactly where
/// the query is blank or occurs in one of the row's texts, letter case aside.
pub proof fn lemma_row_found(query: Seq<char>, texts: Seq<Seq<char>>)
    ensures
        row_rank(query, texts) is Some <==> is_blank(query) || some_text_holds(
            query_text(query),
            texts,
        ),
{
    lemma_best_found(query_text(query), texts);
}

/// Texts have a best score exactly where one of them holds the query.
proof fn lemma_best_found(q: Seq<char>, texts: Seq<Seq<char>>)
    ensures
        best_score(q, texts) is Some <==> some_text_holds(q, texts),
    decreases texts.len(),
{
    if texts.len() > 0 {
        let rest = texts.drop_last();
        let n = rest.len() as int;
        lemma_best_found(q, rest);
        lemma_score_found(q, texts.last());
        if some_text_holds(q, rest) {
            let i = choose|i: int| 0 <= i < rest.len() && is_found(q, #[trigger] rest[i]);
            assert(is_found(q, texts[i]));
        }
        if text_score(q, texts.last()) is Some {
            assert(is_found(q, texts[n]));
        }
        if some_text_holds(q, texts) {
            let i = choose|i: int| 0 <= i < texts.len() && is_found(q, #[trigger] texts[i]);
            if i < n {
                assert(is_found(q, rest[i]));
            }
        }
    }
}

/// A text has a score exactly where it holds the query.
proof fn lemma_score_found(q: Seq<char>, text: Seq<char>)
    ensures
        text_score(q, text) is Some <==> is_found(q, text),
{
    let hay = encode_utf8(lowercase_of(text));
    let needle = encode_utf8(q);
    if lowercase_of(text) == q {
        assert(hay.subrange(0, hay.len() as int) =~= hay);
        assert(occurs_at(hay, needle, 0));
    }
}

/// A row is found by its texts together exactly as well as by the better of two
/// parts of them.
pub proof fn lemma_rank_of_joined_texts(query: Seq<char>, a: Seq<Seq<char>>, b: Seq<Seq<char>>)
    ensures
        row_rank(query, a + b) == better(row_rank(query, a), row_rank(query, b)),
    decreases b.len(),
{
    if b.len() == 0 {
        assert(a + b =~= a);
    } else {
        assert((a + b).drop_last() =~= a + b.drop_last());
        lemma_rank_of_joined_texts(query, a, b.drop_last());
    }
}

/// An exact match ranks before a match at the start, and that before one
/// further inside, among names as well as among keys.
pub proof fn lemma_better_matches_rank_first(
    q: Seq<char>,
    exact: Seq<char>,
    prefix: Seq<char>,
    inside: Seq<char>,
)
    requires
        lowercase_of(exact) == q,
        lowercase_of(prefix) != q,
        first_occurrence(encode_utf8(lowercase_of(prefix)), encode_utf8(q)) == Some(0int),
        lowercase_of(inside) != q,
        first_occurrence(encode_utf8(lowercase_of(inside)), encode_utf8(q)) matches Some(p) && p
            > 0,
        looks_like_id(exact) == looks_like_id(prefix),
        looks_like_id(prefix) == looks_like_id(inside),
    ensures
        text_score(q, exact).unwrap() < text_score(q, prefix).unwrap() < text_score(
            q,
            inside,
        ).unwrap(),
{
}

/// Of two matches of one kind, the earlier ranks first.
pub proof fn lemma_earlier_matches_rank_first(q: Seq<char>, early: Seq<char>, late: Seq<char>)
    requires
        lowercase_of(early) != q,
        lowercase_of(late) != q,
        first_occurrence(encode_utf8(lowercase_of(early)), encode_utf8(q)) is Some,
        first_occurrence(encode_utf8(lowercase_of(late)), encode_utf8(q)) is Some,
        0 <= first_occurrence(encode_utf8(lowercase_of(early)), encode_utf8(q)).unwrap()
            < first_occurrence(encode_utf8(lowercase_of(late)), encode_utf8(q)).unwrap(),
        looks_like_id(early) == looks_like_id(late),
    ensures
        text_score(q, early).unwrap() < text_score(q, late).unwrap(),
{
}

/// A name ranks before a key where both match a query in the same way.
pub proof fn lemma_names_rank_before_keys(q: Seq<char>, name: Seq<char>, id: Seq<char>)
    requires
        match_score(q, lowercase_of(name)) is Some,
        match_score(q, lowercase_of(name)) == match_score(q, lowercase_of(id)),
        looks_like_id(id),
        !looks_like_id(name),
    ensures
        text_score(q, name).unwrap() < text_score(q, id).unwrap(),
{
}

/// A query occurs in a text, letter case aside.
pub open spec fn is_found(q: Seq<char>, text: Seq<char>) -> bool {
    exists|p: int| #[trigger] occurs_at(encode_utf8(lowercase_of(text)), encode_utf8(q), p)
}

/// The byte at which the first `k` characters of a text end in its lower case.
pub open spec fn lowered_end(text: Seq<char>, k: int) -> int {
    encode_utf8(lowercase_of(text.take(k))).len() as int
}

/// The character of a text in whose lower case a byte lies: the last one before
/// which the lower case does not go beyond the byte.
pub open spec fn is_char_at(text: Seq<char>, byte: int, i: int) -> bool {
    &&& 0 <= i <= text.len()
    &&& i > 0 ==> lowered_end(text, i) <= byte
    &&& forall|k: int| i < k <= text.len() ==> #[trigger] lowered_end(text, k) > byte
}

/// From a character on, the first one up to which the lower case of a text
/// reaches a byte.
pub open spec fn is_end_at(text: Seq<char>, i: int, byte: int, j: int) -> bool {
    &&& i <= j <= text.len()
    &&& j < text.len() ==> lowered_end(text, j) >= byte
    &&& forall|k: int| i <= k < j ==> #[trigger] lowered_end(text, k) < byte
}

/// Characters of a text are those that the bytes from `start` to `end` of its
/// lower case come from.
pub open spec fn are_chars_of(text: Seq<char>, start: int, end: int, i: int, j: int) -> bool {
    is_char_at(text, start, i) && is_end_at(text, i, end, j)
}

/// The characters that bytes of the lower case of a text come from.
pub open spec fn chars_of_bytes(text: Seq<char>, start: int, end: int) -> (int, int) {
    choose|i: int, j: int| are_chars_of(text, start, end, i, j)
}

/// The characters of a text that a query marks, none where the query is blank
/// or does not occur: those whose lower case holds the first match in the lower
/// case of the text.
pub open spec fn marked_chars(query: Seq<char>, text: Seq<char>) -> Option<(int, int)> {
    let q = encode_utf8(query_text(query));
    if is_blank(query) {
        None
    } else {
        match first_occurrence(encode_utf8(lowercase_of(text)), q) {
            Some(p) => Some(chars_of_bytes(text, p, p + q.len())),
            None => None,
        }
    }
}

/// The range of bytes of a text that a query marks.
pub open spec fn match_bytes(query: Seq<char>, text: Seq<char>) -> Option<(int, int)> {
    match marked_chars(query, text) {
        Some((i, j)) => Some(
            (encode_utf8(text.take(i)).len() as int, encode_utf8(text.take(j)).len() as int),
        ),
        None => None,
    }
}

/// Bytes of the lower case of a text come from one run of its characters.
proof fn lemma_chars_unique(text: Seq<char>, start: int, end: int, i: int, j: int)
    requires
        are_chars_of(text, start, end, i, j),
    ensures
        chars_of_bytes(text, start, end) == (i, j),
{
    let (a, b) = chars_of_bytes(text, start, end);
    assert(are_chars_of(text, start, end, a, b));
    if a < i {
        assert(lowered_end(text, i) > start);
    } else if i < a {
        assert(lowered_end(text, a) > start);
    }
    if b < j {
        assert(lowered_end(text, b) < end);
    } else if j < b {
        assert(lowered_end(text, j) < end);
    }
}

/// Where in lower case the first `k` characters of a text end.
fn end_of_chars(text: &str, k: usize) -> (r: usize)
    requires
        k <= text@.len(),
    ensures
        r == lowered_end(text@, k as int),
{
    let lowered = lowercase(text.substring_char(0, k));
    assert(text@.subrange(0, k as int) =~= text@.take(k as int));
    lowered.as_str().as_bytes().len()
}

/// The characters of a text that bytes of its lower case come from.
fn find_chars(text: &str, start: usize, end: usize) -> (r: (usize, usize))
    ensures
        are_chars_of(text@, start as int, end as int, r.0 as int, r.1 as int),
{
    let n: usize = text.unicode_len();
    let mut i: usize = n;
    while i > 0 && end_of_chars(text, i) > start
        invariant
            n == text@.len(),
            0 <= i <= n,
            forall|k: int| i < k <= n ==> #[trigger] lowered_end(text@, k) > start,
        decreases i,
    {
        i = i - 1;
    }
    let mut j: usize = i;
    while j < n && end_of_chars(text, j) < end
        invariant
            n == text@.len(),
            i <= j <= n,
            forall|k: int| i <= k < j ==> #[trigger] lowered_end(text@, k) < end,
        decreases n - j,
    {
        j = j + 1;
    }
    (i, j)
}

/// The characters of a text that a query marks.
fn find_marked(query: &str, text: &str) -> (r: Option<(usize, usize)>)
    ensures
        match r {
            Some((i, j)) => marked_chars(query@, text@) == Some((i as int, j as int)) && i <= j
                <= text@.len(),
            None => marked_chars(query@, text@) is None,
        },
{
    let t = trim(query);
    if t.is_empty() {
        return None;
    }
    let q = lowercase(t);
    let lowered = lowercase(text);
    let hay = lowered.as_str().as_bytes();
    let needle = q.as_str().as_bytes();
    match find_bytes(hay, needle) {
        Some(p) => {
            let end: usize = p + needle.len();
            let (i, j) = find_chars(text, p, end);
            proof {
                lemma_chars_unique(text@, p as int, end as int, i as int, j as int);
            }
            Some((i, j))
        },
        None => None,
    }
}

/// The range of bytes of a text that a query marks: the first match, letter
/// case aside; `None` for a blank query.
pub fn match_range(query: &str, haystack: &str) -> (r: Option<(usize, usize)>)
    ensures
        match r {
            Some((a, b)) => match_bytes(query@, haystack@) == Some((a as int, b as int)),
            None => match_bytes(query@, haystack@) is None,
        },
{
    match find_marked(query, haystack) {
        Some((i, j)) => {
            let start: usize = haystack.substring_char(0, i).as_bytes().len();
            let end: usize = haystack.substring_char(0, j).as_bytes().len();
            assert(haystack@.subrange(0, i as int) =~= haystack@.take(i as int));
            assert(haystack@.subrange(0, j as int) =~= haystack@.take(j as int));
            Some((start, end))
        },
        None => None,
    }
}

/// The bytes of two texts put together are the bytes of the one and those of the
/// other.
proof fn lemma_bytes_joined(a: Seq<char>, b: Seq<char>)
    ensures
        encode_utf8(a + b) == encode_utf8(a) + encode_utf8(b),
    decreases a.len(),
{
    if a.len() == 0 {
        assert(a + b =~= b);
    } else {
        assert((a + b).drop_first() =~= a.drop_first() + b);
        lemma_bytes_joined(a.drop_first(), b);
        assert(encode_utf8(a + b) =~= encode_utf8(a) + encode_utf8(b));
    }
}

/// A query marks something of a text exactly where it is not blank and the
/// filter shows the text for it. What is marked are whole characters of the
/// text, and the marked bytes are theirs.
pub proof fn lemma_marks_agree_with_filter(query: Seq<char>, text: Seq<char>)
    ensures
        match_bytes(query, text) is Some <==> !is_blank(query) && row_rank(
            query,
            seq![text],
        ) is Some,
        match_bytes(query, text) is Some <==> marked_chars(query, text) is Some,
        match_bytes(query, text) matches Some((a, b)) ==> {
            let (i, j) = marked_chars(query, text).unwrap();
            &&& 0 <= i <= j <= text.len()
            &&& 0 <= a <= b <= encode_utf8(text).len()
            &&& encode_utf8(text).subrange(a, b) == encode_utf8(text.subrange(i, j))
        },
{
    let q = query_text(query);
    lemma_row_found(query, seq![text]);
    assert(is_found(q, text) <==> some_text_holds(q, seq![text])) by {
        assert(seq![text][0] == text);
    }
    if let Some((i, j)) = marked_chars(query, text) {
        lemma_marked_run(query, text);
        lemma_bytes_joined(text.take(i), text.subrange(i, j));
        assert(text.take(i) + text.subrange(i, j) =~= text.take(j));
        lemma_bytes_joined(text.take(j), text.subrange(j, text.len() as int));
        assert(text.take(j) + text.subrange(j, text.len() as int) =~= text);
        let (a, b) = match_bytes(query, text).unwrap();
        assert(encode_utf8(text).subrange(a, b) =~= encode_utf8(text.subrange(i, j)));
    }
}

/// A query marks the characters whose lower case holds its first match in the
/// lower case of the text.
pub proof fn lemma_marked_run(query: Seq<char>, text: Seq<char>)
    ensures
        marked_chars(query, text) matches Some((i, j)) ==> {
            let q = encode_utf8(query_text(query));
            let p = first_occurrence(encode_utf8(lowercase_of(text)), q).unwrap();
            are_chars_of(text, p, p + q.len(), i, j)
        },
{
    if marked_chars(query, text) is Some {
        let q = encode_utf8(query_text(query));
        let p = first_occurrence(encode_utf8(lowercase_of(text)), q).unwrap();
        lemma_chars_exist(text, p, p + q.len());
    }
}

/// Bytes of the lower case of a text come from characters of it.
proof fn lemma_chars_exist(text: Seq<char>, start: int, end: int)
    ensures
        ({
            let (i, j) = chars_of_bytes(text, start, end);
            are_chars_of(text, start, end, i, j)
        }),
{
    lemma_char_at_exists(text, start, text.len() as int);
    let i = choose|i: int| is_char_at(text, start, i);
    lemma_end_at_exists(text, i, end, i);
    let j = choose|j: int| is_end_at(text, i, end, j);
    assert(are_chars_of(text, start, end, i, j));
}

/// A byte of the lower case of a text lies in that of a character.
proof fn lemma_char_at_exists(text: Seq<char>, byte: int, i: int)
    requires
        0 <= i <= text.len(),
        forall|k: int| i < k <= text.len() ==> #[trigger] lowered_end(text, k) > byte,
    ensures
        exists|a: int| is_char_at(text, byte, a),
    decreases i,
{
    if i > 0 && lowered_end(text, i) > byte {
        lemma_char_at_exists(text, byte, i - 1);
    } else {
        assert(is_char_at(text, byte, i));
    }
}

/// From a character on, some character is the first to reach a byte, or the text
/// ends.
proof fn lemma_end_at_exists(text: Seq<char>, i: int, byte: int, j: int)
    requires
        i <= j <= text.len(),
        forall|k: int| i <= k < j ==> #[trigger] lowered_end(text, k) < byte,
    ensures
        exists|b: int| is_end_at(text, i, byte, b),
    decreases text.len() - j,
{
    if j < text.len() && lowered_end(text, j) < byte {
        lemma_end_at_exists(text, i, byte, j + 1);
    } else {
        assert(is_end_at(text, i, byte, j));
    }
}

/// A text in pieces, the piece that a query marks marked: one unmarked piece
/// where it marks nothing, else what stands before (unless empty), what is
/// marked, and what stands after (unless empty).
pub open spec fn highlight(query: Seq<char>, label: Seq<char>) -> Seq<(Seq<char>, bool)> {
    match marked_chars(query, label) {
        None => seq![(label, false)],
        Some((i, j)) => (if i > 0 {
            seq![(label.take(i), false)]
        } else {
            Seq::empty()
        }) + seq![(label.subrange(i, j), true)] + (if j < label.len() {
            seq![(label.subrange(j, label.len() as int), false)]
        } else {
            Seq::empty()
        }),
    }
}

/// The contents of pieces of text.
pub open spec fn pieces_model(s: Seq<(String, bool)>) -> Seq<(Seq<char>, bool)> {
    s.map_values(|p: (String, bool)| (p.0@, p.1))
}

/// A text in pieces, with the piece that a query marks marked.
pub fn highlighted_name(query: &str, label: &str) -> (r: Vec<(String, bool)>)
    ensures
        pieces_model(r@) == highlight(query@, label@),
{
    let mut out: Vec<(String, bool)> = Vec::new();
    let (i, j) = match find_marked(query, label) {
        Some(run) => run,
        None => {
            out.push((label.to_owned(), false));
            assert(pieces_model(out@) =~= highlight(query@, label@));
            return out;
        },
    };
    let n: usize = label.unicode_len();
    if i > 0 {
        out.push((label.substring_char(0, i).to_owned(), false));
        assert(label@.subrange(0, i as int) =~= label@.take(i as int));
    }
    out.push((label.substring_char(i, j).to_owned(), true));
    if j < n {
        out.push((label.substring_char(j, n).to_owned(), false));
    }
    assert(pieces_model(out@) =~= highlight(query@, label@));
    out
}

/// The pieces of a highlighted text, put together.
pub open spec fn joined(pieces: Seq<(Seq<char>, bool)>) -> Seq<char>
    decreases pieces.len(),
{
    if pieces.len() == 0 {
        Seq::empty()
    } else {
        joined(pieces.drop_last()) + pieces.last().0
    }
}

/// Highlighting loses nothing: the pieces put together are the text.
pub proof fn lemma_highlight_keeps_text(query: Seq<char>, label: Seq<char>)
    ensures
        joined(highlight(query, label)) == label,
{
    reveal_with_fuel(joined, 4);
    let pieces = highlight(query, label);
    match marked_chars(query, label) {
        None => {
            assert(pieces.drop_last() =~= Seq::<(Seq<char>, bool)>::empty());
            assert(joined(pieces) =~= label);
        },
        Some((i, j)) => {
            lemma_marked_run(query, label);
            let one = pieces.drop_last();
            let two = one.drop_last();
            assert(pieces.len() >= 1);
            if pieces.len() >= 2 {
                assert(one.len() == pieces.len() - 1);
            }
            assert(joined(pieces) =~= label);
        },
    }
}

// ---- Ordering by rank -------------------------------------------------------------------

/// One row comes before another: it ranks lower, or it stands first where both
/// rank alike.
pub open spec fn comes_before(ranks: Seq<Option<u32>>, a: int, b: int) -> bool {
    ranks[a].unwrap() < ranks[b].unwrap() || (ranks[a].unwrap() == ranks[b].unwrap() && a < b)
}

/// A row has a rank.
pub open spec fn is_ranked(ranks: Seq<Option<u32>>, i: int) -> bool {
    0 <= i < ranks.len() && ranks[i] is Some
}

/// A list of places holds exactly the ranked rows, the best first, rows of one
/// rank in the order of their places.
pub open spec fn in_rank_order(ranks: Seq<Option<u32>>, places: Seq<usize>) -> bool {
    &&& forall|k: int| 0 <= k < places.len() ==> is_ranked(ranks, #[trigger] places[k] as int)
    &&& forall|i: int| #[trigger] is_ranked(ranks, i) ==> places.contains(i as usize)
    &&& forall|j: int, k: int|
        #![trigger places[j], places[k]]
        0 <= j < k < places.len() ==> comes_before(ranks, places[j] as int, places[k] as int)
}

/// A row of rank `rank` belongs where the rows up to there rank no higher and
/// those from there on rank higher.
proof fn lemma_rank_insert(ranks: Seq<Option<u32>>, i: int, rank: u32, places: Seq<usize>, p: int)
    requires
        0 <= i < ranks.len() <= usize::MAX,
        ranks[i] == Some(rank),
        in_rank_order(ranks.take(i), places),
        0 <= p <= places.len(),
        p > 0 ==> ranks[places[p - 1] as int].unwrap() <= rank,
        forall|k: int| p <= k < places.len() ==> ranks[#[trigger] places[k] as int].unwrap() > rank,
    ensures
        in_rank_order(ranks.take(i + 1), places.insert(p, i as usize)),
{
    let seen = ranks.take(i);
    let next = ranks.take(i + 1);
    let after = places.insert(p, i as usize);
    assert forall|k: int| 0 <= k < places.len() implies 0 <= (#[trigger] places[k]) < i
        && ranks[places[k] as int] is Some && seen[places[k] as int] == ranks[places[k] as int]
        && next[places[k] as int] == ranks[places[k] as int] by {
        assert(is_ranked(seen, places[k] as int));
    }
    assert forall|k: int| 0 <= k < p implies ranks[#[trigger] places[k] as int].unwrap() <= rank by {
        if k < p - 1 {
            assert(comes_before(seen, places[k] as int, places[p - 1] as int));
        }
    }
    assert forall|k: int| 0 <= k < after.len() implies is_ranked(next, #[trigger] after[k] as int) by {
        if k < p {
            assert(after[k] == places[k]);
        } else if k > p {
            assert(after[k] == places[k - 1]);
        }
    }
    assert forall|m: int| #[trigger] is_ranked(next, m) implies after.contains(m as usize) by {
        if m == i {
            assert(after[p] == i);
        } else {
            assert(is_ranked(seen, m));
            let k = choose|k: int| 0 <= k < places.len() && places[k] == m as usize;
            if k < p {
                assert(after[k] == places[k]);
            } else {
                assert(after[k + 1] == places[k]);
            }
        }
    }
    assert forall|j: int, k: int|
        #![trigger after[j], after[k]]
        0 <= j < k < after.len() implies comes_before(next, after[j] as int, after[k] as int) by {
        let bj = if j < p {
            j
        } else {
            j - 1
        };
        let bk = if k < p {
            k
        } else {
            k - 1
        };
        if j != p && k != p {
            assert(after[j] == places[bj] && after[k] == places[bk]);
            assert(comes_before(seen, places[bj] as int, places[bk] as int));
        } else if j == p {
            assert(after[k] == places[bk]);
        } else {
            assert(after[j] == places[bj]);
        }
    }
}

/// The places of the ranked rows, the best first; rows of one rank keep their
/// order, and unranked rows are left out.
pub fn order_by_rank(ranks: &Vec<Option<u32>>) -> (r: Vec<usize>)
    ensures
        in_rank_order(ranks@, r@),
{
    let mut out: Vec<usize> = Vec::new();
    let mut i: usize = 0;
    let n: usize = ranks.len();
    while i < n
        invariant
            n == ranks@.len(),
            0 <= i <= n,
            in_rank_order(ranks@.take(i as int), out@),
        decreases n - i,
    {
        let ghost seen = ranks@.take(i as int);
        let ghost before = out@;
        if let Some(rank) = ranks[i] {
            let mut p: usize = out.len();
            assert forall|k: int| 0 <= k < before.len() implies is_ranked(
                ranks@,
                #[trigger] before[k] as int,
            ) by {
                assert(is_ranked(seen, before[k] as int));
            }
            while p > 0 && ranks[out[p - 1]].unwrap() > rank
                invariant
                    out@ == before,
                    0 <= p <= out@.len(),
                    forall|k: int|
                        0 <= k < before.len() ==> is_ranked(ranks@, #[trigger] before[k] as int),
                    forall|k: int|
                        p <= k < before.len() ==> ranks@[#[trigger] before[k] as int].unwrap() > rank,
                decreases p,
            {
                p = p - 1;
            }
            out.insert(p, i);
            proof {
                lemma_rank_insert(ranks@, i as int, rank, before, p as int);
            }
        } else {
            proof {
                let next = ranks@.take(i + 1);
                assert forall|m: int| #[trigger] is_ranked(next, m) implies before.contains(
                    m as usize,
                ) by {
                    assert(is_ranked(seen, m));
                }
                assert forall|k: int| 0 <= k < before.len() implies is_ranked(
                    next,
                    #[trigger] before[k] as int,
                ) by {
                    assert(is_ranked(seen, before[k] as int));
                }
                assert forall|j: int, k: int|
                    #![trigger before[j], before[k]]
                    0 <= j < k < before.len() implies comes_before(
                    next,
                    before[j] as int,
                    before[k] as int,
                ) by {
                    assert(is_ranked(seen, before[j] as int));
                    assert(is_ranked(seen, before[k] as int));
                    assert(comes_before(seen, before[j] as int, before[k] as int));
                }
            }
        }
        i = i + 1;
    }
    assert(ranks@.take(i as int) =~= ranks@);
    out
}

// ---- Times ----------------------------------------------------------------------------------

/// A leap year of the Gregorian calendar.
pub open spec fn is_leap(y: int) -> bool {
    y % 4 == 0 && (y % 100 != 0 || y % 400 == 0)
}

/// The number of days of a year.
pub open spec fn year_days(y: int) -> int {
    if is_leap(y) {
        366
    } else {
        365
    }
}

/// The number of days of a month.
pub open spec fn month_days(y: int, m: int) -> int {
    if m == 2 {
        if is_leap(y) {
            29
        } else {
            28
        }
    } else if m == 4 || m == 6 || m == 9 || m == 11 {
        30
    } else {
        31
    }
}

/// The number of days in the years from 1 up to, and without, a year.
pub open spec fn days_before_year(y: int) -> int {
    365 * (y - 1) + (y - 1) / 4 - (y - 1) / 100 + (y - 1) / 400
}

/// The number of days in the months before a month.
pub open spec fn days_before_month(y: int, m: int) -> int
    decreases m,
{
    if m <= 1 {
        0
    } else {
        days_before_month(y, m - 1) + month_days(y, m - 1)
    }
}

/// A date of the Gregorian calendar.
pub open spec fn is_date(y: int, m: int, d: int) -> bool {
    y >= 1 && 1 <= m <= 12 && 1 <= d <= month_days(y, m)
}

/// The number of days from 1970-01-01 to a date.
pub open spec fn day_number(y: int, m: int, d: int) -> int {
    days_before_year(y) - days_before_year(1970) + days_before_month(y, m) + d - 1
}

/// The date so many days after 1970-01-01.
pub open spec fn date_of(days: int) -> (int, int, int) {
    choose|y: int, m: int, d: int| is_date(y, m, d) && #[trigger] day_number(y, m, d) == days
}

/// Each year begins as many days after the one before as that one has.
pub proof fn lemma_year_step(y: int)
    requires
        y >= 1,
    ensures
        days_before_year(y + 1) == days_before_year(y) + year_days(y),
{
}

/// Later years begin later.
proof fn lemma_years_ascend(a: int, b: int)
    requires
        1 <= a <= b,
    ensures
        days_before_year(a) <= days_before_year(b),
    decreases b - a,
{
    if a < b {
        lemma_years_ascend(a, b - 1);
        lemma_year_step(b - 1);
    }
}

/// A month ends before the later months of its year begin.
proof fn lemma_months_ascend(y: int, a: int, b: int)
    requires
        1 <= a < b,
    ensures
        days_before_month(y, a) + month_days(y, a) <= days_before_month(y, b),
    decreases b - a,
{
    if a < b - 1 {
        lemma_months_ascend(y, a, b - 1);
    }
}

/// A date lies within its year.
proof fn lemma_date_in_year(y: int, m: int, d: int)
    requires
        is_date(y, m, d),
    ensures
        0 <= days_before_month(y, m) + d - 1 < year_days(y),
{
    lemma_months_ascend(y, m, 13);
    lemma_month_nonnegative(y, m);
    reveal_with_fuel(days_before_month, 14);
    assert(days_before_month(y, 13) == year_days(y));
}

/// The days before a month are not negative.
proof fn lemma_month_nonnegative(y: int, m: int)
    ensures
        days_before_month(y, m) >= 0,
    decreases m,
{
    if m > 1 {
        lemma_month_nonnegative(y, m - 1);
    }
}

/// No two dates have one day number.
pub proof fn lemma_dates_distinct(y1: int, m1: int, d1: int, y2: int, m2: int, d2: int)
    requires
        is_date(y1, m1, d1),
        is_date(y2, m2, d2),
        day_number(y1, m1, d1) == day_number(y2, m2, d2),
    ensures
        y1 == y2 && m1 == m2 && d1 == d2,
{
    lemma_date_in_year(y1, m1, d1);
    lemma_date_in_year(y2, m2, d2);
    if y1 < y2 {
        lemma_year_step(y1);
        lemma_years_ascend(y1 + 1, y2);
    } else if y2 < y1 {
        lemma_year_step(y2);
        lemma_years_ascend(y2 + 1, y1);
    } else if m1 < m2 {
        lemma_months_ascend(y1, m1, m2);
    } else if m2 < m1 {
        lemma_months_ascend(y1, m2, m1);
    }
}

/// A time stamp as text, "YYYY-MM-DD HH:MM" in UTC, from seconds since
/// 1970-01-01; empty for 0, which stands for no time.
pub open spec fn time_text(secs: int) -> Seq<char> {
    if secs == 0 {
        Seq::empty()
    } else {
        let (y, m, d) = date_of(secs / 86400);
        let rest = secs % 86400;
        decimal_chars(y as nat) + seq!['-'] + two_digits(m as nat) + seq!['-'] + two_digits(d as nat)
            + seq![' '] + two_digits((rest / 3600) as nat) + seq![':'] + two_digits(
            (rest % 3600 / 60) as nat,
        )
    }
}

/// One date is earlier than another.
pub open spec fn is_earlier(y1: int, m1: int, d1: int, y2: int, m2: int, d2: int) -> bool {
    y1 < y2 || (y1 == y2 && (m1 < m2 || (m1 == m2 && d1 < d2)))
}

/// Earlier dates have lower day numbers.
pub proof fn lemma_dates_ascend(y1: int, m1: int, d1: int, y2: int, m2: int, d2: int)
    requires
        is_date(y1, m1, d1),
        is_date(y2, m2, d2),
        is_earlier(y1, m1, d1, y2, m2, d2),
    ensures
        day_number(y1, m1, d1) < day_number(y2, m2, d2),
{
    lemma_date_in_year(y1, m1, d1);
    lemma_date_in_year(y2, m2, d2);
    if y1 < y2 {
        lemma_year_step(y1);
        lemma_years_ascend(y1 + 1, y2);
    } else if m1 < m2 {
        lemma_months_ascend(y1, m1, m2);
    }
}

/// Every day from 1970-01-01 on has a date: the one after that of the day before.
proof fn lemma_has_date(days: int) -> (r: (int, int, int))
    requires
        days >= 0,
    ensures
        is_date(r.0, r.1, r.2),
        day_number(r.0, r.1, r.2) == days,
    decreases days,
{
    reveal_with_fuel(days_before_month, 14);
    if days == 0 {
        (1970, 1, 1)
    } else {
        let (y, m, d) = lemma_has_date(days - 1);
        if d < month_days(y, m) {
            (y, m, d + 1)
        } else if m < 12 {
            (y, m + 1, 1)
        } else {
            lemma_year_step(y);
            (y + 1, 1, 1)
        }
    }
}

/// Each day from 1970-01-01 on has its date, of four digits in the year up to
/// the end of 9999.
pub proof fn lemma_date_of(days: int)
    requires
        days >= 0,
    ensures
        ({
            let (y, m, d) = date_of(days);
            &&& is_date(y, m, d)
            &&& day_number(y, m, d) == days
            &&& y >= 1970
            &&& days < 2932897 ==> y <= 9999
        }),
{
    let (a, b, c) = lemma_has_date(days);
    let (y, m, d) = date_of(days);
    lemma_date_in_year(y, m, d);
    if y < 1970 {
        lemma_year_step(y);
        lemma_years_ascend(y + 1, 1970);
    }
    if y > 9999 {
        lemma_years_ascend(10000, y);
    }
}

/// One text stands before another in the order of their characters.
pub open spec fn stands_before(a: Seq<char>, b: Seq<char>) -> bool {
    ||| exists|i: int| 0 <= i < a.len() && i < b.len() && a.take(i) == b.take(i) && #[trigger] a[i] < b[i]
    ||| a.len() < b.len() && b.take(a.len() as int) == a
}

/// The characters of a time stamp with a year of four digits.
#[verifier::opaque]
pub open spec fn stamp_chars(y: int, m: int, d: int, h: int, n: int) -> Seq<char> {
    seq![
        (y / 100 / 10 + 48) as char,
        (y / 100 % 10 + 48) as char,
        (y % 100 / 10 + 48) as char,
        (y % 100 % 10 + 48) as char,
        '-',
        (m / 10 + 48) as char,
        (m % 10 + 48) as char,
        '-',
        (d / 10 + 48) as char,
        (d % 10 + 48) as char,
        ' ',
        (h / 10 + 48) as char,
        (h % 10 + 48) as char,
        ':',
        (n / 10 + 48) as char,
        (n % 10 + 48) as char,
    ]
}

/// A time stamp of a year of four digits, character by character.
proof fn lemma_time_chars(secs: int)
    requires
        0 < secs < 253402300800,
    ensures
        ({
            let (y, m, d) = date_of(secs / 86400);
            time_text(secs) == stamp_chars(
                y,
                m,
                d,
                secs % 86400 / 3600,
                secs % 86400 % 3600 / 60,
            )
        }),
        time_text(secs).len() == 16,
{
    reveal(stamp_chars);
    lemma_date_of(secs / 86400);
    let (y, m, d) = date_of(secs / 86400);
    assert(decimal_chars(y as nat) =~= seq![
        (y / 100 / 10 + 48) as char,
        (y / 100 % 10 + 48) as char,
        (y % 100 / 10 + 48) as char,
        (y % 100 % 10 + 48) as char,
    ]) by {
        reveal_with_fuel(decimal_chars, 5);
        assert(y / 10 / 10 == y / 100 && y / 100 / 10 == y / 10 / 10 / 10);
        assert(y / 10 % 10 == y % 100 / 10);
    }
    assert(time_text(secs) =~= stamp_chars(
        y,
        m,
        d,
        secs % 86400 / 3600,
        secs % 86400 % 3600 / 60,
    ));
}

/// Two numbers of two digits are in the order of their digits.
proof fn lemma_two_digits_ascend(s: Seq<char>, t: Seq<char>, k: int, a: int, b: int)
    requires
        0 <= k,
        k + 2 <= s.len(),
        s.len() == t.len(),
        s.take(k) == t.take(k),
        0 <= a < b < 100,
        s[k] == (a / 10 + 48) as char,
        s[k + 1] == (a % 10 + 48) as char,
        t[k] == (b / 10 + 48) as char,
        t[k + 1] == (b % 10 + 48) as char,
    ensures
        stands_before(s, t),
{
    if a / 10 < b / 10 {
        assert(s[k] < t[k]);
    } else {
        assert(s.take(k + 1) =~= s.take(k).push(s[k]));
        assert(t.take(k + 1) =~= t.take(k).push(t[k]));
        assert(s[k + 1] < t[k + 1]);
    }
}

/// Time stamps are in the order of their years, months, days, hours and minutes.
proof fn lemma_stamps_ascend(
    y1: int,
    m1: int,
    d1: int,
    h1: int,
    n1: int,
    y2: int,
    m2: int,
    d2: int,
    h2: int,
    n2: int,
)
    requires
        1000 <= y1 <= 9999,
        1000 <= y2 <= 9999,
        0 <= m1 < 100 && 0 <= d1 < 100 && 0 <= h1 < 100 && 0 <= n1 < 100,
        0 <= m2 < 100 && 0 <= d2 < 100 && 0 <= h2 < 100 && 0 <= n2 < 100,
        is_earlier(y1, m1, d1, y2, m2, d2) || (y1 == y2 && m1 == m2 && d1 == d2 && (h1 < h2 || (h1
            == h2 && n1 < n2))),
    ensures
        stands_before(stamp_chars(y1, m1, d1, h1, n1), stamp_chars(y2, m2, d2, h2, n2)),
{
    reveal(stamp_chars);
    let s = stamp_chars(y1, m1, d1, h1, n1);
    let t = stamp_chars(y2, m2, d2, h2, n2);
    if y1 < y2 {
        if y1 / 100 < y2 / 100 {
            assert(s.take(0) =~= t.take(0));
            lemma_two_digits_ascend(s, t, 0, y1 / 100, y2 / 100);
        } else {
            assert(s.take(2) =~= t.take(2));
            lemma_two_digits_ascend(s, t, 2, y1 % 100, y2 % 100);
        }
    } else if m1 < m2 {
        assert(s.take(5) =~= t.take(5));
        lemma_two_digits_ascend(s, t, 5, m1, m2);
    } else if d1 < d2 {
        assert(s.take(8) =~= t.take(8));
        lemma_two_digits_ascend(s, t, 8, d1, d2);
    } else if h1 < h2 {
        assert(s.take(11) =~= t.take(11));
        lemma_two_digits_ascend(s, t, 11, h1, h2);
    } else {
        assert(s.take(14) =~= t.take(14));
        lemma_two_digits_ascend(s, t, 14, n1, n2);
    }
}

/// The day, the hour and the minute are in the order of the minutes.
proof fn lemma_minutes_ascend(a: int, b: int)
    requires
        0 <= a,
        a / 60 < b / 60,
    ensures
        a / 86400 < b / 86400 || (a / 86400 == b / 86400 && (a % 86400 / 3600 < b % 86400 / 3600 || (
        a % 86400 / 3600 == b % 86400 / 3600 && a % 86400 % 3600 / 60 < b % 86400 % 3600 / 60))),
{
}

/// A minute has one day, one hour and one minute.
proof fn lemma_minute_parts(a: int, b: int)
    requires
        0 <= a,
        a / 60 == b / 60,
    ensures
        a / 86400 == b / 86400,
        a % 86400 / 3600 == b % 86400 / 3600,
        a % 86400 % 3600 / 60 == b % 86400 % 3600 / 60,
{
}

/// A later minute has a text that stands later.
proof fn lemma_later_minute(a: int, b: int)
    requires
        0 < a <= b < 253402300800,
        a / 60 < b / 60,
    ensures
        stands_before(time_text(a), time_text(b)),
{
    let (y1, m1, d1) = date_of(a / 86400);
    let (y2, m2, d2) = date_of(b / 86400);
    lemma_date_of(a / 86400);
    lemma_date_of(b / 86400);
    lemma_time_chars(a);
    lemma_time_chars(b);
    lemma_minutes_ascend(a, b);
    if a / 86400 < b / 86400 && is_earlier(y2, m2, d2, y1, m1, d1) {
        lemma_dates_ascend(y2, m2, d2, y1, m1, d1);
    }
    lemma_stamps_ascend(
        y1,
        m1,
        d1,
        a % 86400 / 3600,
        a % 86400 % 3600 / 60,
        y2,
        m2,
        d2,
        b % 86400 / 3600,
        b % 86400 % 3600 / 60,
    );
}

/// Time stamps of years with four digits have sixteen characters; a later
/// minute has a text that stands later, and one minute has one text.
pub proof fn lemma_times_ascend(a: int, b: int)
    requires
        0 < a <= b < 253402300800,
    ensures
        time_text(a).len() == 16,
        time_text(b).len() == 16,
        a / 60 < b / 60 ==> stands_before(time_text(a), time_text(b)),
        a / 60 == b / 60 <==> time_text(a) == time_text(b),
{
    lemma_time_chars(a);
    lemma_time_chars(b);
    if a / 60 < b / 60 {
        lemma_later_minute(a, b);
        lemma_before_differs(time_text(a), time_text(b));
    } else {
        lemma_minute_parts(a, b);
    }
}

/// A text does not stand before itself.
proof fn lemma_before_differs(a: Seq<char>, b: Seq<char>)
    requires
        stands_before(a, b),
    ensures
        a != b,
{
}

/// The number of days of a month.
fn days_in_month(leap: bool, m: u8) -> (r: u64)
    ensures
        forall|y: int| is_leap(y) == leap ==> r == #[trigger] month_days(y, m as int),
        28 <= r <= 31,
{
    if m == 2 {
        if leap {
            29
        } else {
            28
        }
    } else if m == 4 || m == 6 || m == 9 || m == 11 {
        30
    } else {
        31
    }
}

/// Whether a year is a leap year.
fn leap_year(y: u64) -> (r: bool)
    ensures
        r == is_leap(y as int),
{
    y % 4 == 0 && (y % 100 != 0 || y % 400 == 0)
}

/// The date so many days after 1970-01-01.
fn civil_date(days: u64) -> (r: (u64, u8, u8))
    requires
        days <= 213503982334601,
    ensures
        date_of(days as int) == (r.0 as int, r.1 as int, r.2 as int),
        r.0 >= 1970,
        1 <= r.1 <= 12,
        1 <= r.2 <= 31,
{
    let total: u64 = days + 719162;
    let cycles: u64 = total / 146097;
    let mut rest: u64 = total % 146097;
    let mut y: u64 = 400 * cycles + 1;
    assert(days_before_year(1970) == 719162);
    assert(days_before_year(400 * cycles + 1) == 146097 * cycles) by {
        assert((400 * cycles) / 4 == 100 * cycles);
        assert((400 * cycles) / 100 == 4 * cycles);
        assert((400 * cycles) / 400 == cycles);
    }
    let mut leap: bool = leap_year(y);
    while rest >= 366 || (rest == 365 && !leap)
        invariant
            1 <= y <= 400 * cycles + 146098 - rest,
            cycles <= 1500000000,
            rest < 146097,
            leap == is_leap(y as int),
            days_before_year(y as int) + rest == total,
        decreases rest,
    {
        proof {
            lemma_year_step(y as int);
        }
        rest = rest - (if leap {
            366
        } else {
            365
        });
        y = y + 1;
        leap = leap_year(y);
    }
    let mut m: u8 = 1;
    let mut len: u64 = 31;
    let ghost start = rest;
    assert(days_before_month(y as int, 1) == 0);
    assert(month_days(y as int, 1) == 31);
    while rest >= len
        invariant
            leap == is_leap(y as int),
            1 <= m <= 12,
            start < year_days(y as int),
            days_before_month(y as int, m as int) + rest == start,
            len == month_days(y as int, m as int),
        decreases 12 - m,
    {
        proof {
            if m == 12 {
                reveal_with_fuel(days_before_month, 14);
                assert(false);
            }
            reveal_with_fuel(days_before_month, 2);
        }
        rest = rest - len;
        m = m + 1;
        len = days_in_month(leap, m);
        assert(len == month_days(y as int, m as int));
    }
    let d: u8 = (rest as u8) + 1;
    proof {
        assert(is_date(y as int, m as int, d as int));
        assert(day_number(y as int, m as int, d as int) == days);
        let (y2, m2, d2) = date_of(days as int);
        lemma_dates_distinct(y as int, m as int, d as int, y2, m2, d2);
        if y < 1970 {
            lemma_date_in_year(y as int, m as int, d as int);
            lemma_year_step(y as int);
            lemma_years_ascend(y + 1, 1970);
        }
    }
    (y, m, d)
}

/// A time stamp as text, "YYYY-MM-DD HH:MM" in UTC; empty for 0.
pub fn format_time(unix_secs: u64) -> (r: String)
    ensures
        r@ == time_text(unix_secs as int),
{
    if unix_secs == 0 {
        return String::new();
    }
    let (y, m, d) = civil_date(unix_secs / 86400);
    let rest: u64 = unix_secs % 86400;
    let mut s: String = String::new();
    push_decimal(&mut s, y);
    s.push('-');
    push_two_digits(&mut s, m);
    s.push('-');
    push_two_digits(&mut s, d);
    s.push(' ');
    push_two_digits(&mut s, (rest / 3600) as u8);
    s.push(':');
    push_two_digits(&mut s, (rest % 3600 / 60) as u8);
    assert(s@ =~= time_text(unix_secs as int));
    s
}

// ---- Routes ---------------------------------------------------------------------------------

/// The screen to which an event leads, if to any.
pub open spec fn route_of(ev: EventModel) -> Option<screen::View> {
    match ev {
        EventModel::Ready { .. } => Some(screen::View::ContactList),
        EventModel::GroupCreated { group, .. } => Some(screen::View::GroupChat(group)),
        _ => None,
    }
}

/// The screen to which an event leads, `None` where the current one stays.
pub fn route_after_event(ev: &Event, _current: &screen::View) -> (r: Option<screen::View>)
    ensures
        r == route_of(ev@),
{
    match ev {
        Event::Ready { .. } => Some(screen::View::ContactList),
        Event::GroupCreated { group, .. } => Some(screen::View::GroupChat(*group)),
        _ => None,
    }
}

/// Applying an event leads to the screen of its route.
pub proof fn lemma_route_is_taken(s: AppState, ev: EventModel)
    ensures
        event_step(s, ev).state.view == (match route_of(ev) {
            Some(v) => v,
            None => s.view,
        }),
{
}

// ---- Laws -----------------------------------------------------------------------------------

/// A shortened key is the first eight digits of the whole one and an ellipsis.
pub proof fn lemma_short_key(bytes: Seq<u8>)
    requires
        bytes.len() >= 4,
    ensures
        short_hex_chars(bytes).len() == 9,
        short_hex_chars(bytes).take(8) == hexadecimal::hex_chars(bytes).take(8),
        short_hex_chars(bytes)[8] == '…',
{
    let head = bytes.take(4);
    hexadecimal::lemma_hex_chars(head);
    hexadecimal::lemma_hex_chars(bytes);
    let (short, whole) = (hexadecimal::hex_chars(head), hexadecimal::hex_chars(bytes));
    assert forall|i: int| 0 <= i < 8 implies short[i] == whole[i] by {
        let j = i / 2;
        assert(short[2 * j] == hexadecimal::digit_char(head[j] as int / 16));
        assert(whole[2 * j] == hexadecimal::digit_char(bytes[j] as int / 16));
        assert(head[j] == bytes[j]);
        if i != 2 * j {
            assert(i == 2 * j + 1);
        }
    }
    assert(short_hex_chars(bytes).take(8) =~= whole.take(8));
}

/// The digits of either case stand for their values, and no other byte is one.
pub proof fn lemma_nibbles(b: u8, v: int)
    requires
        0 <= v < 16,
    ensures
        nibble_of_byte(hexadecimal::digit_char(v) as u8) == Some(v as u8),
        v >= 10 ==> nibble_of_byte((hexadecimal::digit_char(v) as u8 - 32) as u8) == Some(v as u8),
        nibble_of_byte(b) matches Some(n) ==> n < 16 && (b == hexadecimal::digit_char(n as int) as u8
            || (n >= 10 && b + 32 == hexadecimal::digit_char(n as int) as u8)),
{
}

/// A text is read as a key exactly where it has, white space around it aside, 64
/// bytes that are all digits; each byte of the key is what its two digits stand
/// for.
pub proof fn lemma_key_of_text(s: Seq<char>)
    ensures
        ({
            let bytes = encode_utf8(trimmed(s));
            match key_of_text(s) {
                Ok(k) => bytes.len() == 64 && k.len() == 32 && (forall|i: int|
                    0 <= i < 32 ==> nibble_of_byte(bytes[2 * i]) == Some((#[trigger] k[i] / 16) as u8)
                        && nibble_of_byte(bytes[2 * i + 1]) == Some((k[i] % 16) as u8)),
                Err(KeyTextError::Length) => bytes.len() != 64,
                Err(KeyTextError::Digit) => bytes.len() == 64 && exists|i: int|
                    0 <= i < 64 && nibble_of_byte(#[trigger] bytes[i]) is None,
            }
        }),
{
    let bytes = encode_utf8(trimmed(s));
    if let Ok(k) = key_of_text(s) {
        assert forall|i: int| 0 <= i < 32 implies nibble_of_byte(bytes[2 * i]) == Some(
            (#[trigger] k[i] / 16) as u8,
        ) && nibble_of_byte(bytes[2 * i + 1]) == Some((k[i] % 16) as u8) by {
            let (hi, lo) = (nibble_of_byte(bytes[2 * i]), nibble_of_byte(bytes[2 * i + 1]));
            assert(hi is Some && lo is Some);
            lemma_nibbles(bytes[2 * i], 0);
            lemma_nibbles(bytes[2 * i + 1], 0);
            assert(k[i] == hi.unwrap() * 16 + lo.unwrap());
        }
    }
}

/// A text looks like a key only where it has at least eight characters and none
/// but digits of either case and ellipses.
pub proof fn lemma_looks_like_id(k: Seq<u8>, s: Seq<char>, i: int)
    requires
        k.len() >= 4,
    ensures
        looks_like_id(hexadecimal::hex_chars(k)),
        looks_like_id(short_hex_chars(k)),
        s.len() < 8 ==> !looks_like_id(s),
        0 <= i < s.len() && 'g' <= s[i] && s[i] <= 'z' ==> !looks_like_id(s),
        0 <= i < s.len() && s[i] == ' ' ==> !looks_like_id(s),
{
    lemma_digits_are_id(k);
    lemma_digits_are_id(k.take(4));
    lemma_short_key(k);
    hexadecimal::lemma_hex_chars(k);
    let short = short_hex_chars(k);
    assert forall|j: int| 0 <= j < short.len() implies is_id_char(#[trigger] short[j]) by {
        if j < 8 {
            assert(short[j] == hexadecimal::hex_chars(k.take(4))[j]);
        }
    }
}

/// Digits of a key are what a key looks like.
proof fn lemma_digits_are_id(k: Seq<u8>)
    ensures
        forall|i: int|
            0 <= i < hexadecimal::hex_chars(k).len() ==> is_id_char(
                #[trigger] hexadecimal::hex_chars(k)[i],
            ),
        hexadecimal::hex_chars(k).len() == 2 * k.len(),
{
    hexadecimal::lemma_hex_chars(k);
    let digits = hexadecimal::hex_chars(k);
    assert forall|i: int| 0 <= i < digits.len() implies is_id_char(#[trigger] digits[i]) by {
        let j = i / 2;
        assert(digits[2 * j] == hexadecimal::digit_char(k[j] as int / 16));
        if i != 2 * j {
            assert(i == 2 * j + 1);
        }
    }
}

/// The best score is the score of one of the texts, and none has a lower one.
pub proof fn lemma_best_score(q: Seq<char>, texts: Seq<Seq<char>>)
    ensures
        match best_score(q, texts) {
            Some(v) => (exists|i: int|
                0 <= i < texts.len() && text_score(q, #[trigger] texts[i]) == Some(v)) && (forall|
                i: int,
            |
                0 <= i < texts.len() && text_score(q, #[trigger] texts[i]) is Some ==> v
                    <= text_score(q, texts[i]).unwrap()),
            None => forall|i: int|
                0 <= i < texts.len() ==> text_score(q, #[trigger] texts[i]) is None,
        },
    decreases texts.len(),
{
    if texts.len() > 0 {
        let rest = texts.drop_last();
        let n = texts.len() - 1;
        lemma_best_score(q, rest);
        assert(texts[n] == texts.last());
        assert(forall|i: int| 0 <= i < n ==> rest[i] == #[trigger] texts[i]);
        match best_score(q, texts) {
            Some(v) => {
                if text_score(q, texts[n]) != Some(v) {
                    let i = choose|i: int|
                        0 <= i < rest.len() && text_score(q, #[trigger] rest[i]) == best_score(
                            q,
                            rest,
                        );
                    assert(text_score(q, texts[i]) == Some(v));
                }
                assert forall|i: int|
                    0 <= i < texts.len() && text_score(q, #[trigger] texts[i]) is Some implies v
                    <= text_score(q, texts[i]).unwrap() by {
                    if i < n {
                        assert(text_score(q, rest[i]) is Some);
                    }
                }
            },
            None => {
                assert forall|i: int| 0 <= i < texts.len() implies text_score(
                    q,
                    #[trigger] texts[i],
                ) is None by {
                    if i < n {
                        assert(text_score(q, rest[i]) is None);
                    }
                }
            },
        }
    }
}

/// A text scores 0 where it is what is asked for, and only there, 1000 where it
/// starts with it, and else 2000 and the place where it first occurs; what looks
/// like a key scores 500 more.
pub proof fn lemma_scores(q: Seq<char>, text: Seq<char>)
    ensures
        ({
            let lowered = lowercase_of(text);
            let place = first_occurrence(encode_utf8(lowered), encode_utf8(q));
            let more = if looks_like_id(text) {
                500int
            } else {
                0int
            };
            match text_score(q, text) {
                Some(v) => (v == more && lowered == q) || (v == 1000 + more && lowered != q && place
                    == Some(0int)) || (place matches Some(p) && lowered != q && p != 0 && v == 2000
                    + p + more),
                None => lowered != q && place is None,
            }
        }),
{
}

/// A highlighted text has one marked piece where the query marks something, the
/// characters that it marks, and none where not.
pub proof fn lemma_highlight_marks(query: Seq<char>, label: Seq<char>)
    ensures
        marked_chars(query, label) is None ==> highlight(query, label) == seq![(label, false)],
        marked_chars(query, label) matches Some((i, j)) ==> exists|k: int|
            0 <= k < highlight(query, label).len() && #[trigger] highlight(query, label)[k] == (
                label.subrange(i, j),
                true,
            ) && (forall|m: int|
                0 <= m < highlight(query, label).len() && m != k ==> !(#[trigger] highlight(
                    query,
                    label,
                )[m]).1),
        is_blank(query) ==> marked_chars(query, label) is None,
{
    if let Some((i, j)) = marked_chars(query, label) {
        let pieces = highlight(query, label);
        let k: int = if i > 0 {
            1
        } else {
            0
        };
        assert(pieces[k] == (label.subrange(i, j), true));
    }
}

/// Each day has the date after that of the day before, by the months' lengths and
/// the leap years of the Gregorian calendar; the first is 1970-01-01.
pub proof fn lemma_next_day(days: int)
    requires
        days >= 0,
    ensures
        date_of(0) == (1970int, 1int, 1int),
        ({
            let (y, m, d) = date_of(days);
            let leap = y % 4 == 0 && (y % 100 != 0 || y % 400 == 0);
            let last = if m == 2 {
                if leap {
                    29int
                } else {
                    28int
                }
            } else if m == 4 || m == 6 || m == 9 || m == 11 {
                30int
            } else {
                31int
            };
            date_of(days + 1) == (if d < last {
                (y, m, d + 1)
            } else if m < 12 {
                (y, m + 1, 1int)
            } else {
                (y + 1, 1int, 1int)
            })
        }),
{
    reveal_with_fuel(days_before_month, 14);
    lemma_date_of(0);
    lemma_date_of(days);
    lemma_date_of(days + 1);
    let (y0, m0, d0) = date_of(0);
    assert(is_date(1970, 1, 1) && day_number(1970, 1, 1) == 0);
    lemma_dates_distinct(y0, m0, d0, 1970, 1, 1);
    let (y, m, d) = date_of(days);
    let (a, b, c) = date_of(days + 1);
    let (p, q, r) = if d < month_days(y, m) {
        (y, m, d + 1)
    } else if m < 12 {
        (y, m + 1, 1int)
    } else {
        (y + 1, 1int, 1int)
    };
    if d >= month_days(y, m) && m >= 12 {
        lemma_year_step(y);
    }
    assert(is_date(p, q, r));
    assert(day_number(p, q, r) == days + 1);
    lemma_dates_distinct(a, b, c, p, q, r);
}

/// A time stamp of a year with four digits reads as year, month, day, hour and
/// minute of its second, with their signs between; no time has no text.
pub proof fn lemma_time_reads(secs: int)
    requires
        0 < secs < 253402300800,
    ensures
        time_text(0).len() == 0,
        ({
            let t = time_text(secs);
            let (y, m, d) = date_of(secs / 86400);
            let digit = |i: int| t[i] as int - 48;
            &&& t.len() == 16
            &&& digit(0) * 1000 + digit(1) * 100 + digit(2) * 10 + digit(3) == y
            &&& t[4] == '-'
            &&& digit(5) * 10 + digit(6) == m
            &&& t[7] == '-'
            &&& digit(8) * 10 + digit(9) == d
            &&& t[10] == ' '
            &&& digit(11) * 10 + digit(12) == secs / 3600 % 24
            &&& t[13] == ':'
            &&& digit(14) * 10 + digit(15) == secs / 60 % 60
        }),
{
    lemma_time_chars(secs);
    reveal(stamp_chars);
    lemma_date_of(secs / 86400);
    let (y, m, d) = date_of(secs / 86400);
    assert(secs % 86400 / 3600 == secs / 3600 % 24);
    assert(secs % 86400 % 3600 / 60 == secs / 60 % 60);
}

} // verus!

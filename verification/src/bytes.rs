//! Plain byte-string helpers: comparison, copying, integer encodings.
use vstd::prelude::*;

verus! {

/// Whether two byte strings are equal.
pub fn same_bytes(a: &[u8], b: &[u8]) -> (r: bool)
    ensures
        r == (a@ == b@),
{
    if a.len() != b.len() {
        return false;
    }
    let mut i: usize = 0;
    while i < a.len()
        invariant
            0 <= i <= a@.len(),
            a@.len() == b@.len(),
            forall|j: int| 0 <= j < i ==> a@[j] == b@[j],
        decreases a@.len() - i,
    {
        if a[i] != b[i] {
            return false;
        }
        i = i + 1;
    }
    assert(a@ =~= b@);
    true
}

/// Whether two 32-byte strings are equal.
pub fn same32(a: &[u8; 32], b: &[u8; 32]) -> (r: bool)
    ensures
        r == (a@ == b@),
        r == (*a == *b),
{
    let r = same_bytes(a, b);
    proof {
        lemma_array32_ext(*a, *b);
    }
    r
}

/// Arrays of 32 bytes are equal exactly when their contents are.
pub proof fn lemma_array32_ext(a: [u8; 32], b: [u8; 32])
    ensures
        (a@ == b@) == (a == b),
{
    if a@ == b@ {
        assert(a =~= b);
    }
}

/// Arrays of 24 bytes are equal exactly when their contents are.
pub proof fn lemma_array24_ext(a: [u8; 24], b: [u8; 24])
    ensures
        (a@ == b@) == (a == b),
{
    if a@ == b@ {
        assert(a =~= b);
    }
}

/// Appends `tail` to `v`.
pub fn append(v: &mut Vec<u8>, tail: &[u8])
    ensures
        final(v)@ == old(v)@ + tail@,
{
    v.extend_from_slice(tail);
    assert(v@ =~= old(v)@ + tail@);
}

/// A fresh vector with the contents of `s`.
pub fn to_vec(s: &[u8]) -> (r: Vec<u8>)
    ensures
        r@ == s@,
{
    let mut v: Vec<u8> = Vec::new();
    append(&mut v, s);
    assert(v@ =~= s@);
    v
}

/// The bytes from position `from` on.
pub fn tail_from(s: &[u8], from: usize) -> (r: Vec<u8>)
    requires
        from <= s@.len(),
    ensures
        r@ == s@.subrange(from as int, s@.len() as int),
{
    let mut v: Vec<u8> = Vec::new();
    let mut i: usize = from;
    while i < s.len()
        invariant
            from <= i <= s@.len(),
            v@ == s@.subrange(from as int, i as int),
        decreases s@.len() - i,
    {
        v.push(s[i]);
        i = i + 1;
    }
    v
}

/// Copies a 16-byte slice into an array.
pub fn array16(s: &[u8]) -> (r: [u8; 16])
    requires
        s@.len() == 16,
    ensures
        r@ == s@,
{
    let mut out: [u8; 16] = [0u8; 16];
    let mut i: usize = 0;
    while i < 16
        invariant
            0 <= i <= 16,
            s@.len() == 16,
            forall|j: int| 0 <= j < i ==> out@[j] == s@[j],
        decreases 16 - i,
    {
        out[i] = s[i];
        i = i + 1;
    }
    assert(out@ =~= s@);
    out
}

/// Copies the 24 bytes at position `from` into an array.
pub fn array24_at(s: &[u8], from: usize) -> (r: [u8; 24])
    requires
        from + 24 <= s@.len(),
    ensures
        r@ == s@.subrange(from as int, from + 24),
{
    let mut out: [u8; 24] = [0u8; 24];
    let len: usize = s.len();
    let mut i: usize = 0;
    while i < 24
        invariant
            0 <= i <= 24,
            len == s@.len(),
            from + 24 <= s@.len(),
            forall|j: int| 0 <= j < i ==> out@[j] == s@[from + j],
        decreases 24 - i,
    {
        out[i] = s[from + i];
        i = i + 1;
    }
    assert(out@ =~= s@.subrange(from as int, from + 24));
    out
}

/// Copies the 32 bytes at position `from` into an array.
pub fn array32_at(s: &[u8], from: usize) -> (r: [u8; 32])
    requires
        from + 32 <= s@.len(),
    ensures
        r@ == s@.subrange(from as int, from + 32),
{
    let mut out: [u8; 32] = [0u8; 32];
    let len: usize = s.len();
    let mut i: usize = 0;
    while i < 32
        invariant
            0 <= i <= 32,
            len == s@.len(),
            from + 32 <= s@.len(),
            forall|j: int| 0 <= j < i ==> out@[j] == s@[from + j],
        decreases 32 - i,
    {
        out[i] = s[from + i];
        i = i + 1;
    }
    assert(out@ =~= s@.subrange(from as int, from + 32));
    out
}

/// Copies a 32-byte slice into an array.
pub fn array32(s: &[u8]) -> (r: [u8; 32])
    requires
        s@.len() == 32,
    ensures
        r@ == s@,
{
    let r = array32_at(s, 0);
    assert(r@ =~= s@);
    r
}

/// Copies a 64-byte slice into an array.
pub fn array64(s: &[u8]) -> (r: [u8; 64])
    requires
        s@.len() == 64,
    ensures
        r@ == s@,
{
    let mut out: [u8; 64] = [0u8; 64];
    let mut i: usize = 0;
    while i < 64
        invariant
            0 <= i <= 64,
            s@.len() == 64,
            forall|j: int| 0 <= j < i ==> out@[j] == s@[j],
        decreases 64 - i,
    {
        out[i] = s[i];
        i = i + 1;
    }
    assert(out@ =~= s@);
    out
}

/// The little-endian encoding of a 32-bit integer.
pub open spec fn le32(x: u32) -> Seq<u8> {
    seq![
        (x % 256) as u8,
        (x / 256 % 256) as u8,
        (x / 65536 % 256) as u8,
        (x / 16777216 % 256) as u8,
    ]
}

/// Appends the little-endian encoding of `x` to `v`.
pub fn append_le32(v: &mut Vec<u8>, x: u32)
    ensures
        final(v)@ == old(v)@ + le32(x),
{
    v.push((x % 256) as u8);
    v.push((x / 256 % 256) as u8);
    v.push((x / 65536 % 256) as u8);
    v.push((x / 16777216 % 256) as u8);
    assert(v@ =~= old(v)@ + le32(x));
}

/// The big-endian encoding of a 32-bit integer.
pub open spec fn be32(x: u32) -> Seq<u8> {
    seq![
        (x / 16777216 % 256) as u8,
        (x / 65536 % 256) as u8,
        (x / 256 % 256) as u8,
        (x % 256) as u8,
    ]
}

/// The integer that four big-endian bytes stand for.
pub open spec fn from_be32(s: Seq<u8>) -> int {
    s[0] * 16777216 + s[1] * 65536 + s[2] * 256 + s[3]
}

/// Appends the big-endian encoding of `x` to `v`.
pub fn append_be32(v: &mut Vec<u8>, x: u32)
    ensures
        final(v)@ == old(v)@ + be32(x),
{
    v.push((x / 16777216 % 256) as u8);
    v.push((x / 65536 % 256) as u8);
    v.push((x / 256 % 256) as u8);
    v.push((x % 256) as u8);
    assert(v@ =~= old(v)@ + be32(x));
}

/// Reads the big-endian integer in the first four bytes of `s`.
pub fn read_be32(s: &[u8]) -> (r: u32)
    requires
        s@.len() >= 4,
    ensures
        r == from_be32(s@),
{
    (s[0] as u32) * 16777216 + (s[1] as u32) * 65536 + (s[2] as u32) * 256 + (s[3] as u32)
}

/// Decoding a big-endian encoding gives the integer back.
pub proof fn lemma_be32_round_trip(x: u32)
    ensures
        be32(x).len() == 4,
        from_be32(be32(x)) == x,
{
}

/// The big-endian encoding of a 64-bit integer.
pub open spec fn be64(x: u64) -> Seq<u8> {
    seq![
        (x / 0x100_0000_0000_0000 % 256) as u8,
        (x / 0x1_0000_0000_0000 % 256) as u8,
        (x / 0x100_0000_0000 % 256) as u8,
        (x / 0x1_0000_0000 % 256) as u8,
        (x / 0x100_0000 % 256) as u8,
        (x / 0x1_0000 % 256) as u8,
        (x / 0x100 % 256) as u8,
        (x % 256) as u8,
    ]
}

/// Appends the big-endian encoding of `x` to `v`.
pub fn append_be64(v: &mut Vec<u8>, x: u64)
    ensures
        final(v)@ == old(v)@ + be64(x),
{
    v.push((x / 0x100_0000_0000_0000 % 256) as u8);
    v.push((x / 0x1_0000_0000_0000 % 256) as u8);
    v.push((x / 0x100_0000_0000 % 256) as u8);
    v.push((x / 0x1_0000_0000 % 256) as u8);
    v.push((x / 0x100_0000 % 256) as u8);
    v.push((x / 0x1_0000 % 256) as u8);
    v.push((x / 0x100 % 256) as u8);
    v.push((x % 256) as u8);
    assert(v@ =~= old(v)@ + be64(x));
}

// ---- Keys in order -----------------------------------------------------------------

/// The 32-byte array with the given bytes.
pub open spec fn array_of(k: Seq<u8>) -> [u8; 32] {
    choose|a: [u8; 32]| #[trigger] a@ == k
}

/// An array is the one with its bytes.
pub proof fn lemma_array_of(a: [u8; 32])
    ensures
        array_of(a@) == a,
{
    let b = array_of(a@);
    assert(b@ == a@);
    assert(b =~= a);
}

/// One key comes before another: it has the smaller byte where they first
/// differ.
pub open spec fn key_less(a: Seq<u8>, b: Seq<u8>) -> bool {
    exists|i: int| #[trigger] differ_at(a, b, i) && a[i] < b[i]
}

/// Two keys first differ at a place.
pub open spec fn differ_at(a: Seq<u8>, b: Seq<u8>, i: int) -> bool {
    0 <= i < 32 && a[i] != b[i] && forall|j: int| 0 <= j < i ==> #[trigger] a[j] == b[j]
}

/// Keys in ascending order, none twice.
pub open spec fn ascending(keys: Seq<[u8; 32]>) -> bool {
    forall|i: int, j: int|
        #![trigger keys[i], keys[j]]
        0 <= i < j < keys.len() ==> key_less(keys[i]@, keys[j]@)
}

/// The order is transitive.
proof fn lemma_key_less_transitive(a: Seq<u8>, b: Seq<u8>, c: Seq<u8>)
    requires
        key_less(a, b),
        key_less(b, c),
    ensures
        key_less(a, c),
{
    let i = choose|i: int| #[trigger] differ_at(a, b, i) && a[i] < b[i];
    let j = choose|j: int| #[trigger] differ_at(b, c, j) && b[j] < c[j];
    let k = if i < j {
        i
    } else {
        j
    };
    assert(differ_at(a, c, k) && a[k] < c[k]);
}

/// Whether a key comes before another.
fn comes_first(a: &[u8; 32], b: &[u8; 32]) -> (r: bool)
    ensures
        r == key_less(a@, b@),
        !r ==> a@ == b@ || key_less(b@, a@),
{
    let mut i: usize = 0;
    while i < 32
        invariant
            0 <= i <= 32,
            forall|j: int| 0 <= j < i ==> #[trigger] a@[j] == b@[j],
        decreases 32 - i,
    {
        if a[i] != b[i] {
            proof {
                assert(differ_at(a@, b@, i as int));
                assert(differ_at(b@, a@, i as int));
                if !(a@[i as int] < b@[i as int]) {
                    assert forall|k: int| #[trigger] differ_at(a@, b@, k) implies !(a@[k] < b@[k]) by {
                        if k < i {
                            assert(a@[k] == b@[k]);
                        } else if i < k {
                            assert(a@[i as int] == b@[i as int]);
                        }
                    }
                }
            }
            return a[i] < b[i];
        }
        i = i + 1;
    }
    assert(a@ =~= b@);
    false
}

/// The keys of a list in ascending order, each once.
pub fn sorted_unique(keys: &Vec<[u8; 32]>) -> (r: Vec<[u8; 32]>)
    ensures
        ascending(r@),
        forall|k: [u8; 32]| #[trigger] r@.contains(k) == keys@.contains(k),
{
    let mut out: Vec<[u8; 32]> = Vec::new();
    let mut i: usize = 0;
    while i < keys.len()
        invariant
            0 <= i <= keys@.len(),
            ascending(out@),
            forall|k: [u8; 32]| #[trigger] out@.contains(k) == keys@.take(i as int).contains(k),
        decreases keys@.len() - i,
    {
        let x: [u8; 32] = keys[i];
        let ghost before = out@;
        let mut p: usize = 0;
        while p < out.len() && comes_first(&out[p], &x)
            invariant
                out@ == before,
                0 <= p <= out@.len(),
                forall|j: int| 0 <= j < p ==> key_less(#[trigger] before[j]@, x@),
            decreases out@.len() - p,
        {
            p = p + 1;
        }
        let known: bool = p < out.len() && same32(&out[p], &x);
        if !known {
            out.insert(p, x);
        }
        proof {
            let next = keys@.take(i + 1);
            assert(next =~= keys@.take(i as int).push(x));
            let after = out@;
            if known {
                assert(before[p as int] == x);
            } else {
                assert(after[p as int] == x);
                assert forall|a: int, b: int|
                    #![trigger after[a], after[b]]
                    0 <= a < b < after.len() implies key_less(after[a]@, after[b]@) by {
                    let ba = if a < p {
                        a
                    } else {
                        a - 1
                    };
                    let bb = if b < p {
                        b
                    } else {
                        b - 1
                    };
                    if a != p && b != p {
                        assert(after[a] == before[ba] && after[b] == before[bb]);
                    } else if b == p {
                        assert(after[a] == before[ba]);
                    } else {
                        assert(after[b] == before[bb]);
                        assert(key_less(x@, before[p as int]@));
                        if p < bb {
                            lemma_key_less_transitive(x@, before[p as int]@, before[bb]@);
                        }
                    }
                }
            }
            assert forall|k: [u8; 32]| #[trigger] after.contains(k) == next.contains(k) by {
                if before.contains(k) {
                    let q = choose|q: int| 0 <= q < before.len() && before[q] == k;
                    if known || q < p {
                        assert(after[q] == k);
                    } else {
                        assert(after[q + 1] == k);
                    }
                }
                if after.contains(k) {
                    let q = choose|q: int| 0 <= q < after.len() && after[q] == k;
                    if known || q < p {
                        assert(before[q] == k);
                    } else if q > p {
                        assert(before[q - 1] == k);
                    }
                }
                let old_list = keys@.take(i as int);
                if old_list.contains(k) {
                    let q = choose|q: int| 0 <= q < old_list.len() && old_list[q] == k;
                    assert(next[q] == k);
                }
                if next.contains(k) {
                    let q = choose|q: int| 0 <= q < next.len() && next[q] == k;
                    if q < i {
                        assert(old_list[q] == k);
                    }
                }
                assert(next[i as int] == x);
            }
        }
        i = i + 1;
    }
    assert(keys@.take(i as int) =~= keys@);
    out
}

// ---- Laws ---------------------------------------------------------------------------

/// The number that four little-endian bytes stand for.
pub open spec fn from_le32(s: Seq<u8>) -> int {
    ((s[3] * 256 + s[2]) * 256 + s[1]) * 256 + s[0]
}

/// The bytes of a little-endian encoding are the number's, the lowest first.
pub proof fn lemma_le32_round_trip(x: u32)
    ensures
        le32(x).len() == 4,
        from_le32(le32(x)) == x,
{
    let b = le32(x);
    let n = x as int;
    let (a, c, d) = (n / 0x100, n / 0x1_0000, n / 0x100_0000);
    assert(b[0] == n % 256 && n == a * 256 + b[0]);
    assert(c == a / 256);
    assert(b[1] == a % 256 && a == c * 256 + b[1]);
    assert(d == c / 256);
    assert(b[2] == c % 256 && c == d * 256 + b[2]);
    assert(b[3] == d);
}

/// Different numbers have different little-endian encodings.
pub proof fn lemma_le32(x: u32, y: u32)
    requires
        le32(x) == le32(y),
    ensures
        x == y,
{
    lemma_le32_round_trip(x);
    lemma_le32_round_trip(y);
}

/// Different numbers have different big-endian encodings, of which the first
/// byte is the highest.
pub proof fn lemma_be32(x: u32, y: u32)
    requires
        be32(x) == be32(y),
    ensures
        x == y,
        be32(x)[0] == x / 16777216,
{
    lemma_be32_round_trip(x);
    lemma_be32_round_trip(y);
}

/// The number that eight big-endian bytes stand for.
pub open spec fn from_be64(s: Seq<u8>) -> int {
    ((((((s[0] * 256 + s[1]) * 256 + s[2]) * 256 + s[3]) * 256 + s[4]) * 256 + s[5]) * 256 + s[6])
        * 256 + s[7]
}

/// The bytes of a 64-bit big-endian encoding are the number's, the highest first.
pub proof fn lemma_be64_round_trip(x: u64)
    ensures
        be64(x).len() == 8,
        from_be64(be64(x)) == x,
{
    let b = be64(x);
    let n = x as int;
    let (a, c, d, e) = (n / 0x100, n / 0x1_0000, n / 0x100_0000, n / 0x1_0000_0000);
    let (f, g, h) = (n / 0x100_0000_0000, n / 0x1_0000_0000_0000, n / 0x100_0000_0000_0000);
    assert(b[7] == n % 256 && n == a * 256 + b[7]);
    assert(c == a / 256);
    assert(b[6] == a % 256 && a == c * 256 + b[6]);
    assert(d == c / 256);
    assert(b[5] == c % 256 && c == d * 256 + b[5]);
    assert(e == d / 256);
    assert(b[4] == d % 256 && d == e * 256 + b[4]);
    assert(f == e / 256);
    assert(b[3] == e % 256 && e == f * 256 + b[3]);
    assert(g == f / 256);
    assert(b[2] == f % 256 && f == g * 256 + b[2]);
    assert(h == g / 256);
    assert(b[1] == g % 256 && g == h * 256 + b[1]);
    assert(h < 256);
    assert(b[0] == h);
}

/// Different numbers have different 64-bit encodings.
pub proof fn lemma_be64(x: u64, y: u64)
    requires
        be64(x) == be64(y),
    ensures
        x == y,
{
    lemma_be64_round_trip(x);
    lemma_be64_round_trip(y);
}

/// The order of keys is that of the byte strings: no key comes before itself, of
/// two different keys one comes first, and the first byte in which they differ
/// decides.
pub proof fn lemma_key_order(a: [u8; 32], b: [u8; 32], i: int)
    ensures
        !key_less(a@, a@),
        a != b ==> key_less(a@, b@) || key_less(b@, a@),
        !(key_less(a@, b@) && key_less(b@, a@)),
        0 <= i < 32 && a@[i] < b@[i] && (forall|j: int| 0 <= j < i ==> #[trigger] a@[j] == b@[j])
            ==> key_less(a@, b@),
{
    if 0 <= i < 32 && a@[i] < b@[i] && (forall|j: int| 0 <= j < i ==> #[trigger] a@[j] == b@[j]) {
        assert(differ_at(a@, b@, i));
    }
    if key_less(a@, b@) && key_less(b@, a@) {
        let p = choose|p: int| #[trigger] differ_at(a@, b@, p) && a@[p] < b@[p];
        let q = choose|q: int| #[trigger] differ_at(b@, a@, q) && b@[q] < a@[q];
        if p < q {
            assert(b@[p] == a@[p]);
        } else if q < p {
            assert(a@[q] == b@[q]);
        }
    }
    if a != b {
        lemma_some_difference(a, b, 0);
    }
}

/// Two keys that agree up to a place and differ somewhere differ first somewhere.
proof fn lemma_some_difference(a: [u8; 32], b: [u8; 32], from: int)
    requires
        0 <= from <= 32,
        a != b,
        forall|j: int| 0 <= j < from ==> #[trigger] a@[j] == b@[j],
    ensures
        key_less(a@, b@) || key_less(b@, a@),
    decreases 32 - from,
{
    if from == 32 {
        assert(a@ =~= b@);
        lemma_array32_ext(a, b);
    } else if a@[from] == b@[from] {
        lemma_some_difference(a, b, from + 1);
    } else {
        assert(differ_at(a@, b@, from));
        assert(differ_at(b@, a@, from));
    }
}

/// Keys in ascending order hold none twice.
pub proof fn lemma_ascending_distinct(keys: Seq<[u8; 32]>, i: int, j: int)
    requires
        ascending(keys),
        0 <= i < j < keys.len(),
    ensures
        keys[i] != keys[j],
{
    lemma_key_order(keys[i], keys[j], 0);
}

} // verus!

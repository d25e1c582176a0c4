use vstd::prelude::*;
use vstd::utf8::*;
use vstd::string::*;

verus! {

broadcast use vstd::utf8::encode_utf8_valid_utf8, vstd::utf8::encode_utf8_decode_utf8;

/// The UTF-8 bytes of a string slice.
pub open spec fn bytes(s: &str) -> Seq<u8> {
    s.spec_bytes()
}

/// The UTF-8 bytes of an owned string.
pub open spec fn string_bytes(s: &String) -> Seq<u8> {
    encode_utf8(s@)
}

/// A byte offset that starts a character of `b` (or is its end).
pub open spec fn boundary(b: Seq<u8>, i: int) -> bool {
    is_char_boundary(b, i)
}

/// Encoding distributes over concatenation.
pub proof fn lemma_encode_concat(a: Seq<char>, b: Seq<char>)
    ensures
        encode_utf8(a + b) == encode_utf8(a) + encode_utf8(b),
    decreases a.len(),
{
    if a.len() == 0 {
        assert(a + b =~= b);
        assert(encode_utf8(a) =~= Seq::<u8>::empty());
        assert(encode_utf8(a) + encode_utf8(b) =~= encode_utf8(b));
    } else {
        assert((a + b).drop_first() =~= a.drop_first() + b);
        lemma_encode_concat(a.drop_first(), b);
        assert((a + b)[0] == a[0]);
        assert(encode_utf8(a + b) =~= encode_scalar(a[0] as u32) + encode_utf8(a.drop_first() + b));
        assert(encode_utf8(a) + encode_utf8(b) =~= encode_scalar(a[0] as u32) + (encode_utf8(a.drop_first()) + encode_utf8(b)));
    }
}

/// Two character sequences with equal encodings are equal.
pub proof fn lemma_encode_injective(a: Seq<char>, b: Seq<char>)
    requires
        encode_utf8(a) == encode_utf8(b),
    ensures
        a == b,
{
    encode_utf8_decode_utf8(a);
    encode_utf8_decode_utf8(b);
}

/// Character boundaries of a slice taken between two boundaries are those of the whole.
pub proof fn lemma_boundary_subrange(b: Seq<u8>, s: int, e: int, j: int)
    requires
        valid_utf8(b),
        0 <= s <= j <= e <= b.len(),
        boundary(b, s),
        boundary(b, e),
    ensures
        valid_utf8(b.subrange(s, e)),
        boundary(b.subrange(s, e), j - s) <==> boundary(b, j),
{
    valid_utf8_split(b, s);
    let t = b.subrange(s, b.len() as int);
    lemma_boundary_suffix(b, s, e);
    valid_utf8_split(t, e - s);
    assert(t.subrange(0, e - s) =~= b.subrange(s, e));
    let u = b.subrange(s, e);
    is_char_boundary_start_end_of_seq(u);
    is_char_boundary_start_end_of_seq(b);
    if j < e {
        is_char_boundary_iff_not_is_continuation_byte(u, j - s);
        is_char_boundary_iff_not_is_continuation_byte(b, j);
        assert(u[j - s] == b[j]);
    } else if j == e {
    }
}

/// A boundary of a string, shifted, is a boundary of its suffix after another boundary.
pub proof fn lemma_boundary_suffix(b: Seq<u8>, s: int, j: int)
    requires
        valid_utf8(b),
        0 <= s <= j <= b.len(),
        boundary(b, s),
    ensures
        valid_utf8(b.subrange(s, b.len() as int)),
        boundary(b.subrange(s, b.len() as int), j - s) <==> boundary(b, j),
{
    valid_utf8_split(b, s);
    let t = b.subrange(s, b.len() as int);
    is_char_boundary_start_end_of_seq(t);
    is_char_boundary_start_end_of_seq(b);
    if j < b.len() {
        is_char_boundary_iff_not_is_continuation_byte(t, j - s);
        is_char_boundary_iff_not_is_continuation_byte(b, j);
        assert(t[j - s] == b[j]);
    }
}

/// Where two valid strings meet is a boundary of the two joined.
pub proof fn lemma_boundary_concat(a: Seq<u8>, b: Seq<u8>)
    requires
        valid_utf8(a),
        valid_utf8(b),
    ensures
        valid_utf8(a + b),
        boundary(a + b, a.len() as int),
{
    valid_utf8_concat(a, b);
    let ab = a + b;
    is_char_boundary_start_end_of_seq(ab);
    if b.len() > 0 {
        is_char_boundary_start_end_of_seq(b);
        is_char_boundary_iff_not_is_continuation_byte(b, 0);
        is_char_boundary_iff_not_is_continuation_byte(ab, a.len() as int);
        assert(ab[a.len() as int] == b[0]);
    } else {
        assert(ab.len() == a.len());
    }
}

/// A byte below 0x80 at a boundary is a whole character, so the next offset is a boundary too.
pub proof fn lemma_ascii_byte_boundary(b: Seq<u8>, i: int)
    requires
        valid_utf8(b),
        0 <= i < b.len(),
        boundary(b, i),
        b[i] < 0x80,
    ensures
        boundary(b, i + 1),
{
    valid_utf8_split(b, i);
    let t = b.subrange(i, b.len() as int);
    assert(t[0] == b[i]);
    assert(length_of_first_scalar(t) == 1);
    reveal_with_fuel(is_char_boundary, 2);
    assert(is_char_boundary(pop_first_scalar(t), 0));
    assert(is_char_boundary(t, 1));
    lemma_boundary_suffix(b, i, i + 1);
}

/// The bytes of a string slice are valid UTF-8, with boundaries at both ends.
pub proof fn lemma_str_valid(s: &str)
    ensures
        valid_utf8(bytes(s)),
        boundary(bytes(s), 0),
        boundary(bytes(s), bytes(s).len() as int),
{
    encode_utf8_valid_utf8(s@);
    is_char_boundary_start_end_of_seq(bytes(s));
}

/// Returns the part of `s` between the byte offsets `start` and `end`.
pub fn sub_str(s: &str, start: usize, end: usize) -> (r: &str)
    requires
        start <= end <= bytes(s).len(),
        boundary(bytes(s), start as int),
        boundary(bytes(s), end as int),
    ensures
        bytes(r) == bytes(s).subrange(start as int, end as int),
{
    proof { lemma_str_valid(s); }
    let (_, rest) = s.split_at(start);
    proof {
        let b = bytes(s);
        valid_utf8_split(b, start as int);
        assert(bytes(rest) == b.subrange(start as int, b.len() as int));
        lemma_boundary_suffix(b, start as int, end as int);
    }
    let (mid, _) = rest.split_at(end - start);
    mid
}

/// The length of `s` in bytes.
pub fn str_len(s: &str) -> (n: usize)
    ensures
        n == bytes(s).len(),
{
    s.as_bytes().len()
}

/// Byte-wise equality of two string slices, which is equality of their characters.
pub fn str_eq(a: &str, b: &str) -> (r: bool)
    ensures
        r == (a@ == b@),
        r == (bytes(a) == bytes(b)),
{
    let x = a.as_bytes();
    let y = b.as_bytes();
    if x.len() != y.len() {
        proof {
            if a@ == b@ {
                assert(bytes(a) == bytes(b));
            }
        }
        return false;
    }
    let mut i: usize = 0;
    while i < x.len()
        invariant
            x@ == bytes(a),
            y@ == bytes(b),
            x@.len() == y@.len(),
            i <= x@.len(),
            forall|k: int| 0 <= k < i ==> x@[k] == y@[k],
        decreases x@.len() - i,
    {
        if x[i] != y[i] {
            proof {
                if a@ == b@ {
                    assert(bytes(a) == bytes(b));
                    assert(x@[i as int] == y@[i as int]);
                }
            }
            return false;
        }
        i = i + 1;
    }
    proof {
        assert(x@ =~= y@);
        lemma_encode_injective(a@, b@);
    }
    true
}

/// A new owned string holding the characters of `s`.
pub fn string_from(s: &str) -> (r: String)
    ensures
        r@ == s@,
        string_bytes(&r) == bytes(s),
{
    String::from_str(s)
}

/// Appends `s` to `t`.
pub fn push_str(t: &mut String, s: &str)
    ensures
        final(t)@ == old(t)@ + s@,
        string_bytes(final(t)) == string_bytes(old(t)) + bytes(s),
{
    t.append(s);
    proof {
        lemma_encode_concat(old(t)@, s@);
    }
}

/// Calls `String::clear`: the string becomes empty and keeps its allocation.
#[verifier::external_body]
pub(crate) fn clear_string(t: &mut String)
    ensures
        final(t)@ == Seq::<char>::empty(),
{
    t.clear();
}

/// Calls `String::truncate`: the string is cut to its first `len` bytes, which must end at a
/// character boundary; a `len` past the end leaves it as it is.
#[verifier::external_body]
pub(crate) fn truncate_string(t: &mut String, len: usize)
    requires
        len <= string_bytes(old(t)).len() ==> boundary(string_bytes(old(t)), len as int),
    ensures
        len <= string_bytes(old(t)).len() ==> string_bytes(final(t)) == string_bytes(old(t)).subrange(
            0,
            len as int,
        ),
        len > string_bytes(old(t)).len() ==> final(t)@ == old(t)@,
{
    t.truncate(len);
}

/// Calls `String::insert_str`: `s` is put in at the byte offset `at`, a character boundary.
#[verifier::external_body]
pub(crate) fn insert_str_at(t: &mut String, at: usize, s: &str)
    requires
        at <= string_bytes(old(t)).len(),
        boundary(string_bytes(old(t)), at as int),
    ensures
        string_bytes(final(t)) == string_bytes(old(t)).subrange(0, at as int) + bytes(s)
            + string_bytes(old(t)).subrange(at as int, string_bytes(old(t)).len() as int),
{
    t.insert_str(at, s);
}

/// Calls `String::drain` on the byte range `start..end`, whose ends are character boundaries,
/// and drops what it yields: those bytes leave the string.
#[verifier::external_body]
pub(crate) fn drain_range(t: &mut String, start: usize, end: usize)
    requires
        start <= end <= string_bytes(old(t)).len(),
        boundary(string_bytes(old(t)), start as int),
        boundary(string_bytes(old(t)), end as int),
    ensures
        string_bytes(final(t)) == string_bytes(old(t)).subrange(0, start as int)
            + string_bytes(old(t)).subrange(end as int, string_bytes(old(t)).len() as int),
{
    t.drain(start..end);
}

/// Calls `String::push`: `c` is appended.
#[verifier::external_body]
pub(crate) fn push_char(t: &mut String, c: char)
    ensures
        final(t)@ == old(t)@.push(c),
{
    t.push(c);
}

/// A space is the single byte 0x20.
pub proof fn lemma_space_bytes()
    ensures
        encode_utf8(seq![' ']) == seq![0x20u8],
{
    let n: u32 = ' ' as u32;
    assert(n == 32);
    assert((n & 0x7F) as u8 == 32u8) by (bit_vector)
        requires
            n == 32,
    ;
    assert(seq![' '].drop_first() =~= Seq::<char>::empty());
    assert(seq![' '][0] == ' ');
    assert(encode_utf8(Seq::<char>::empty()) =~= Seq::<u8>::empty());
    assert(has_width_1_encoding(n));
    assert(encode_scalar(n) =~= seq![32u8]);
    assert(encode_utf8(seq![' ']) == encode_scalar(n) + encode_utf8(Seq::<char>::empty()));
    assert(encode_utf8(seq![' ']) =~= seq![0x20u8]);
}

/// A carriage return is the single byte 0x0D.
pub proof fn lemma_return_bytes()
    ensures
        encode_utf8(seq!['\r']) == seq![0x0Du8],
{
    let n: u32 = '\r' as u32;
    assert(n == 13);
    assert((n & 0x7F) as u8 == 13u8) by (bit_vector)
        requires
            n == 13,
    ;
    assert(seq!['\r'].drop_first() =~= Seq::<char>::empty());
    assert(seq!['\r'][0] == '\r');
    assert(encode_utf8(Seq::<char>::empty()) =~= Seq::<u8>::empty());
    assert(has_width_1_encoding(n));
    assert(encode_scalar(n) =~= seq![13u8]);
    assert(encode_utf8(seq!['\r']) == encode_scalar(n) + encode_utf8(Seq::<char>::empty()));
    assert(encode_utf8(seq!['\r']) =~= seq![0x0Du8]);
}

/// Appends a carriage return to `t`.
pub fn push_return(t: &mut String)
    ensures
        string_bytes(final(t)) == string_bytes(old(t)) + seq![0x0Du8],
{
    push_char(t, '\r');
    proof {
        lemma_encode_concat(old(t)@, seq!['\r']);
        lemma_return_bytes();
        assert(old(t)@.push('\r') =~= old(t)@ + seq!['\r']);
    }
}

/// A line feed is the single byte 0x0A.
pub proof fn lemma_newline_bytes()
    ensures
        encode_utf8(seq!['\n']) == seq![0x0Au8],
{
    let n: u32 = '\n' as u32;
    assert(n == 10);
    assert((n & 0x7F) as u8 == 10u8) by (bit_vector)
        requires
            n == 10,
    ;
    assert(seq!['\n'].drop_first() =~= Seq::<char>::empty());
    assert(seq!['\n'][0] == '\n');
    assert(encode_utf8(Seq::<char>::empty()) =~= Seq::<u8>::empty());
    assert(has_width_1_encoding(n));
    assert(encode_scalar(n) =~= seq![10u8]);
    assert(encode_utf8(seq!['\n']) == encode_scalar(n) + encode_utf8(Seq::<char>::empty()));
    assert(encode_utf8(seq!['\n']) =~= seq![0x0Au8]);
}

/// Appends a line feed.
pub fn push_newline(t: &mut String)
    ensures
        string_bytes(final(t)) == string_bytes(old(t)) + seq![0x0Au8],
{
    push_char(t, '\n');
    proof {
        lemma_encode_concat(old(t)@, seq!['\n']);
        lemma_newline_bytes();
        assert(old(t)@.push('\n') =~= old(t)@ + seq!['\n']);
    }
}

/// The bytes of a string seen through `as_str`.
pub proof fn lemma_as_str(s: &String, r: &str)
    requires
        r@ == s@,
    ensures
        bytes(r) == string_bytes(s),
{
}

} // verus!

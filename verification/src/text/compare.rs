use vstd::prelude::*;
use std::cmp::Ordering;
use vstd::utf8::*;
use super::strs::{bytes, str_len, lemma_encode_concat};

verus! {

/// The code of a character with ASCII capitals made small.
pub open spec fn lower_code(c: char) -> int {
    if 'A' <= c <= 'Z' {
        c as u32 + 32
    } else {
        c as u32 as int
    }
}

/// A number as an integer.
pub open spec fn num(x: u32) -> int {
    x as int
}

/// A length as an integer.
pub open spec fn len_num(x: usize) -> int {
    x as int
}

/// The shorter of the two lengths.
pub open spec fn min_len(a: Seq<char>, b: Seq<char>) -> int {
    if a.len() <= b.len() { a.len() as int } else { b.len() as int }
}

/// The byte length of a string as an integer.
pub open spec fn byte_len(s: &str) -> int {
    bytes(s).len() as int
}

/// The code of `c` with ASCII capitals made small.
fn ascii_lower_code(c: char) -> (r: u32)
    ensures
        r as int == lower_code(c),
{
    if 'A' <= c && c <= 'Z' {
        c as u32 + 32
    } else {
        c as u32
    }
}

/// Whether the first `n` characters of `a` and `b` agree, ignoring ASCII case.
pub open spec fn agree_upto(a: Seq<char>, b: Seq<char>, n: int) -> bool {
    forall|k: int| 0 <= k < n ==> lower_code(#[trigger] a[k]) == lower_code(b[k])
}

/// Orders two numbers.
pub open spec fn order(x: int, y: int) -> Ordering {
    if x < y {
        Ordering::Less
    } else if x > y {
        Ordering::Greater
    } else {
        Ordering::Equal
    }
}

/// The order of `a` and `b` ignoring ASCII case: by the first character where they differ,
/// else by their length in bytes.
pub open spec fn compare_spec(a: &str, b: &str) -> Ordering {
    let n = min_len(a@, b@);
    if exists|k: int| 0 <= k < n && lower_code(a@[k]) != lower_code(b@[k]) {
        let k = choose|k: int| 0 <= k < n && lower_code(a@[k]) != lower_code(b@[k]) && agree_upto(a@, b@, k);
        order(lower_code(a@[k]), lower_code(b@[k]))
    } else {
        order(byte_len(a), byte_len(b))
    }
}

fn order_of(x: u32, y: u32) -> (r: Ordering)
    ensures
        r == order(num(x), num(y)),
{
    if x < y {
        Ordering::Less
    } else if x > y {
        Ordering::Greater
    } else {
        Ordering::Equal
    }
}

fn order_of_len(x: usize, y: usize) -> (r: Ordering)
    ensures
        r == order(len_num(x), len_num(y)),
{
    if x < y {
        Ordering::Less
    } else if x > y {
        Ordering::Greater
    } else {
        Ordering::Equal
    }
}

pub fn compare_ignore_ascii_case(a: &str, b: &str) -> (r: Ordering)
    ensures
        r == compare_spec(a, b),
{
    let na = a.unicode_len();
    let nb = b.unicode_len();
    let n = if na <= nb { na } else { nb };
    let mut k: usize = 0;
    while k < n
        invariant
            na == a@.len(),
            nb == b@.len(),
            n == min_len(a@, b@),
            k <= n,
            agree_upto(a@, b@, len_num(k)),
        decreases n - k,
    {
        let a_char = ascii_lower_code(a.get_char(k));
        let b_char = ascii_lower_code(b.get_char(k));
        if a_char != b_char {
            proof {
                let w = choose|w: int| 0 <= w < n && lower_code(a@[w]) != lower_code(b@[w]) && agree_upto(a@, b@, w);
                let kk = len_num(k);
                assert(0 <= kk < n && lower_code(a@[kk]) != lower_code(b@[kk]) && agree_upto(a@, b@, kk));
                if w < k {
                    assert(lower_code(a@[w]) == lower_code(b@[w]));
                } else if w > kk {
                    assert(lower_code(a@[kk]) == lower_code(b@[kk]));
                }
            }
            return order_of(a_char, b_char);
        }
        k = k + 1;
    }
    order_of_len(str_len(a), str_len(b))
}

/// Swapping the arguments reverses the order.
pub proof fn law_compare_antisymmetric(a: &str, b: &str)
    ensures
        compare_spec(a, b) == match compare_spec(b, a) {
            Ordering::Less => Ordering::Greater,
            Ordering::Greater => Ordering::Less,
            Ordering::Equal => Ordering::Equal,
        },
{
    let n = min_len(a@, b@);
    if exists|k: int| 0 <= k < n && lower_code(a@[k]) != lower_code(b@[k]) {
        let k0 = choose|k: int| 0 <= k < n && lower_code(a@[k]) != lower_code(b@[k]);
        lemma_first_difference(a@, b@, n, k0);
        let k1 = choose|k: int| 0 <= k < n && lower_code(a@[k]) != lower_code(b@[k]) && agree_upto(a@, b@, k);
        assert(exists|k: int| 0 <= k < n && lower_code(b@[k]) != lower_code(a@[k]) && agree_upto(b@, a@, k)) by {
            assert(agree_upto(b@, a@, k1));
        }
        let k2 = choose|k: int| 0 <= k < n && lower_code(b@[k]) != lower_code(a@[k]) && agree_upto(b@, a@, k);
        if k1 < k2 {
            assert(lower_code(b@[k1]) == lower_code(a@[k1]));
        } else if k2 < k1 {
            assert(lower_code(a@[k2]) == lower_code(b@[k2]));
        }
    } else {
        assert(!exists|k: int| 0 <= k < n && lower_code(b@[k]) != lower_code(a@[k]));
    }
}

/// Where two sequences differ before `n`, they differ first somewhere.
pub proof fn lemma_first_difference(a: Seq<char>, b: Seq<char>, n: int, k0: int)
    requires
        0 <= k0 < n,
        lower_code(a[k0]) != lower_code(b[k0]),
    ensures
        exists|k: int| 0 <= k < n && lower_code(a[k]) != lower_code(b[k]) && agree_upto(a, b, k),
    decreases k0,
{
    if agree_upto(a, b, k0) {
    } else {
        let j = choose|j: int| 0 <= j < k0 && lower_code(a[j]) != lower_code(b[j]);
        lemma_first_difference(a, b, n, j);
    }
}

/// Characters alike but for ASCII case take as many bytes.
proof fn lemma_alike_chars_bytes(a: Seq<char>, b: Seq<char>)
    requires
        a.len() == b.len(),
        agree_upto(a, b, a.len() as int),
    ensures
        encode_utf8(a).len() == encode_utf8(b).len(),
    decreases a.len(),
{
    if a.len() > 0 {
        assert(agree_upto(a.drop_first(), b.drop_first(), a.len() - 1)) by {
            assert forall|k: int| 0 <= k < a.len() - 1 implies lower_code(#[trigger] a.drop_first()[k]) == lower_code(
                b.drop_first()[k],
            ) by {
                assert(lower_code(a[k + 1]) == lower_code(b[k + 1]));
            }
        }
        lemma_alike_chars_bytes(a.drop_first(), b.drop_first());
        assert(lower_code(a[0]) == lower_code(b[0]));
        assert(encode_scalar(a[0] as u32).len() == encode_scalar(b[0] as u32).len());
    }
}

/// A nonempty sequence of characters takes some bytes.
proof fn lemma_chars_take_bytes(a: Seq<char>)
    requires
        a.len() > 0,
    ensures
        encode_utf8(a).len() > 0,
{
}

/// Whether two character sequences are alike but for ASCII case: as many characters, each
/// with the same code once ASCII capitals are made small.
pub open spec fn alike_but_case(a: Seq<char>, b: Seq<char>) -> bool {
    a.len() == b.len() && agree_upto(a, b, a.len() as int)
}

/// Where two sequences agree as far as the shorter goes, they are alike exactly where they
/// take as many bytes.
proof fn lemma_alike_iff_bytes(a: Seq<char>, b: Seq<char>)
    requires
        agree_upto(a, b, min_len(a, b)),
    ensures
        alike_but_case(a, b) <==> encode_utf8(a).len() == encode_utf8(b).len(),
{
    if a.len() < b.len() {
        let bt = b.subrange(0, a.len() as int);
        let bs = b.subrange(a.len() as int, b.len() as int);
        assert(b =~= bt + bs);
        lemma_encode_concat(bt, bs);
        assert(agree_upto(a, bt, a.len() as int));
        lemma_alike_chars_bytes(a, bt);
        lemma_chars_take_bytes(bs);
    } else if b.len() < a.len() {
        let at = a.subrange(0, b.len() as int);
        let rest = a.subrange(b.len() as int, a.len() as int);
        assert(a =~= at + rest);
        lemma_encode_concat(at, rest);
        assert(agree_upto(at, b, b.len() as int));
        lemma_alike_chars_bytes(at, b);
        lemma_chars_take_bytes(rest);
    } else {
        lemma_alike_chars_bytes(a, b);
    }
}

/// Two texts compare equal exactly where they are alike but for ASCII case.
pub proof fn law_compare_equal(a: &str, b: &str)
    ensures
        (compare_spec(a, b) == Ordering::Equal) <==> alike_but_case(a@, b@),
{
    let n = min_len(a@, b@);
    if exists|k: int| 0 <= k < n && lower_code(a@[k]) != lower_code(b@[k]) {
        let k0 = choose|k: int| 0 <= k < n && lower_code(a@[k]) != lower_code(b@[k]);
        lemma_first_difference(a@, b@, n, k0);
        assert(lower_code(a@[k0]) != lower_code(b@[k0]));
    } else {
        assert(agree_upto(a@, b@, n));
        lemma_alike_iff_bytes(a@, b@);
    }
}

} // verus!

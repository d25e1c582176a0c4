use vstd::prelude::*;
use vstd::utf8::*;

verus! {

/// `v` in front of the values of `rest`, where there are any.
pub open spec fn cons(v: u32, rest: Option<Seq<u32>>) -> Option<Seq<u32>> {
    match rest {
        Some(s) => Some(seq![v] + s),
        None => None,
    }
}

/// The values that `utf8_to_utf32` reads from `b` at byte `i` on, or `None` where a sequence
/// is cut short by the end. A lead byte below 0x80 stands for itself; below 0xE0 it starts a
/// two-byte sequence, below 0xF0 a three-byte one, above 0xF8 a four-byte one; any other byte
/// stands for itself.
pub open spec fn decode_units(b: Seq<u8>, i: nat) -> Option<Seq<u32>>
    decreases b.len() - i,
{
    if i >= b.len() {
        Some(Seq::empty())
    } else {
        let f = b[i as int] as u32;
        if f < 0x80 {
            cons(f, decode_units(b, i + 1))
        } else if f < 0xE0 {
            if i + 1 < b.len() {
                cons(((f & 0x1F) << 6) | (b[i as int + 1] as u32 & 0x3F), decode_units(b, i + 2))
            } else {
                None
            }
        } else if f < 0xF0 {
            if i + 2 < b.len() {
                cons(
                    ((f & 0xF) << 12) | ((b[i as int + 1] as u32 & 0x3F) << 6) | (b[i as int + 2] as u32 & 0x3F),
                    decode_units(b, i + 3),
                )
            } else {
                None
            }
        } else if f > 0xF8 {
            if i + 3 < b.len() {
                cons(
                    ((f & 0x7) << 18) | ((b[i as int + 1] as u32 & 0x3F) << 12) | ((b[i as int + 2] as u32 & 0x3F) << 6)
                        | (b[i as int + 3] as u32 & 0x3F),
                    decode_units(b, i + 4),
                )
            } else {
                None
            }
        } else {
            cons(f, decode_units(b, i + 1))
        }
    }
}

/// The bytes `utf32_to_utf8` writes for one value: the UTF-8 encoding of a Unicode scalar,
/// else the value's low byte.
pub open spec fn unit_bytes(v: u32) -> Seq<u8> {
    if is_scalar(v) {
        encode_scalar(v)
    } else {
        seq![v as u8]
    }
}

/// The bytes `utf32_to_utf8` writes for the values `vs`.
pub open spec fn encode_units(vs: Seq<u32>) -> Seq<u8>
    decreases vs.len(),
{
    if vs.len() == 0 {
        Seq::empty()
    } else {
        encode_units(vs.drop_last()) + unit_bytes(vs.last())
    }
}

/// Appends to `result` the values read from the bytes `utf8`.
pub fn utf8_to_utf32(utf8: &[u8], result: &mut Vec<u32>)
    requires
        decode_units(utf8@, 0) is Some,
    ensures
        final(result)@ == old(result)@ + decode_units(utf8@, 0)->0,
{
    let ghost b = utf8@;
    let ghost all = decode_units(b, 0)->0;
    let mut i: usize = 0;
    while i < utf8.len()
        invariant
            b == utf8@,
            i <= b.len(),
            decode_units(b, 0) == Some(all),
            decode_units(b, i as nat) is Some,
            result@ + decode_units(b, i as nat)->0 == old(result)@ + all,
        decreases b.len() - i,
    {
        let ghost before = result@;
        let ghost i0 = i;
        let first_byte = utf8[i] as u32;
        if first_byte < 0x80 {
            result.push(first_byte);
            i = i + 1;
        } else if first_byte < 0xE0 {
            let second_byte = utf8[i + 1] as u32;
            i = i + 2;
            let value = ((first_byte & 0x1F) << 6) | (second_byte & 0x3F);
            result.push(value);
        } else if first_byte < 0xF0 {
            let second_byte = utf8[i + 1] as u32;
            let third_byte = utf8[i + 2] as u32;
            i = i + 3;
            let value = ((first_byte & 0xF) << 12) | ((second_byte & 0x3F) << 6) | (third_byte & 0x3F);
            result.push(value);
        } else if first_byte > 0xF8 {
            let second_byte = utf8[i + 1] as u32;
            let third_byte = utf8[i + 2] as u32;
            let fourth_byte = utf8[i + 3] as u32;
            i = i + 4;
            let value = ((first_byte & 0x7) << 18) | ((second_byte & 0x3F) << 12) | ((third_byte
                & 0x3F) << 6) | (fourth_byte & 0x3F);
            result.push(value);
        } else {
            result.push(first_byte);
            i = i + 1;
        }
        proof {
            assert(decode_units(b, i as nat) is Some);
            assert(result@ + decode_units(b, i as nat)->0 =~= before + decode_units(b, i0 as nat)->0);
        }
    }
}

/// Appends to `result` the bytes written for the values `utf32`.
pub fn utf32_to_utf8(utf32: &[u32], result: &mut Vec<u8>)
    ensures
        final(result)@ == old(result)@ + encode_units(utf32@),
{
    let mut k: usize = 0;
    while k < utf32.len()
        invariant
            k <= utf32@.len(),
            final(result)@ == final(result)@,
            result@ == old(result)@ + encode_units(utf32@.subrange(0, k as int)),
        decreases utf32@.len() - k,
    {
        let c = utf32[k];
        let ghost before = result@;
        if c <= 0x7F {
            result.push((c & 0x7F) as u8);
        } else if c <= 0x7FF {
            result.push(0xC0 | ((c >> 6) & 0x1F) as u8);
            result.push(0x80 | (c & 0x3F) as u8);
        } else if c <= 0xFFFF && !(0xD800 <= c && c <= 0xDFFF) {
            result.push(0xE0 | ((c >> 12) & 0x0F) as u8);
            result.push(0x80 | ((c >> 6) & 0x3F) as u8);
            result.push(0x80 | (c & 0x3F) as u8);
        } else if 0x10000 <= c && c <= 0x10FFFF {
            result.push(0xF0 | ((c >> 18) & 0x7) as u8);
            result.push(0x80 | ((c >> 12) & 0x3F) as u8);
            result.push(0x80 | ((c >> 6) & 0x3F) as u8);
            result.push(0x80 | (c & 0x3F) as u8);
        } else {
            result.push(c as u8);
        }
        proof {
            let pre = utf32@.subrange(0, k as int);
            let post = utf32@.subrange(0, k + 1);
            assert(post.drop_last() =~= pre);
            assert(post.last() == c);
            assert(result@ =~= before + unit_bytes(c));
        }
        k = k + 1;
    }
    proof {
        assert(utf32@.subrange(0, k as int) =~= utf32@);
    }
}

/// Reading `y` after bytes `p` reads as reading `y` alone.
proof fn lemma_decode_shift(p: Seq<u8>, y: Seq<u8>, j: nat)
    ensures
        decode_units(p + y, p.len() + j) == decode_units(y, j),
    decreases y.len() - j,
{
    let x = p + y;
    let i = p.len() + j;
    if j < y.len() {
        assert(x[i as int] == y[j as int]);
        if j + 1 < y.len() {
            assert(x[i as int + 1] == y[j as int + 1]);
        }
        if j + 2 < y.len() {
            assert(x[i as int + 2] == y[j as int + 2]);
        }
        if j + 3 < y.len() {
            assert(x[i as int + 3] == y[j as int + 3]);
        }
        lemma_decode_shift(p, y, j + 1);
        if j + 2 <= y.len() {
            lemma_decode_shift(p, y, j + 2);
        }
        if j + 3 <= y.len() {
            lemma_decode_shift(p, y, j + 3);
        }
        if j + 4 <= y.len() {
            lemma_decode_shift(p, y, j + 4);
        }
    }
}

/// Bytes that read completely from `i` on, followed by more bytes, read as the two parts.
proof fn lemma_decode_concat(x: Seq<u8>, y: Seq<u8>, i: nat)
    requires
        i <= x.len(),
        decode_units(x, i) is Some,
    ensures
        decode_units(x + y, i) == match decode_units(y, 0) {
            Some(t) => Some(decode_units(x, i)->0 + t),
            None => None::<Seq<u32>>,
        },
    decreases x.len() - i,
{
    let z = x + y;
    if i >= x.len() {
        lemma_decode_shift(x, y, 0);
        assert(x.len() + 0 == i);
        match decode_units(y, 0) {
            Some(t) => {
                assert(decode_units(x, i)->0 + t =~= t);
            },
            None => {},
        }
    } else {
        assert(z[i as int] == x[i as int]);
        let f = x[i as int] as u32;
        if i + 1 < x.len() {
            assert(z[i as int + 1] == x[i as int + 1]);
        }
        if i + 2 < x.len() {
            assert(z[i as int + 2] == x[i as int + 2]);
        }
        if i + 3 < x.len() {
            assert(z[i as int + 3] == x[i as int + 3]);
        }
        let n: nat = if f < 0x80 { 1 } else if f < 0xE0 { 2 } else if f < 0xF0 { 3 } else if f > 0xF8 { 4 } else { 1 };
        lemma_decode_concat(x, y, i + n);
        match decode_units(y, 0) {
            Some(t) => {
                let v = decode_units(x, i)->0[0];
                assert(decode_units(x, i)->0 =~= seq![v] + decode_units(x, i + n)->0);
                assert(seq![v] + (decode_units(x, i + n)->0 + t) =~= decode_units(x, i)->0 + t);
            },
            None => {},
        }
    }
}

/// The bytes written for a scalar below 0x10000 read back as that scalar.
proof fn lemma_unit_round_trip(v: u32)
    requires
        is_scalar(v),
        v <= 0xFFFF,
    ensures
        decode_units(unit_bytes(v), 0) == Some(seq![v]),
{
    let b = unit_bytes(v);
    if has_width_1_encoding(v) {
        let b1 = (v & 0x7F) as u8;
        assert(b1 as u32 == v && b1 < 0x80) by (bit_vector)
            requires
                v <= 0x7F,
                b1 == (v & 0x7F) as u8,
        ;
        assert(b =~= seq![b1]);
        assert(decode_units(b, 1) == Some(Seq::<u32>::empty()));
        assert(seq![v] + Seq::<u32>::empty() =~= seq![v]);
    } else if has_width_2_encoding(v) {
        let b1 = 0xC0 | ((v >> 6) & 0x1F) as u8;
        let b2 = 0x80 | (v & 0x3F) as u8;
        assert(0x80 <= b1 < 0xE0 && ((b1 as u32 & 0x1F) << 6) | (b2 as u32 & 0x3F) == v) by (bit_vector)
            requires
                0x80 <= v <= 0x7FF,
                b1 == 0xC0 | ((v >> 6) & 0x1F) as u8,
                b2 == 0x80 | (v & 0x3F) as u8,
        ;
        assert(b =~= seq![b1, b2]);
        assert(decode_units(b, 2) == Some(Seq::<u32>::empty()));
        assert(seq![v] + Seq::<u32>::empty() =~= seq![v]);
    } else {
        let b1 = 0xE0 | ((v >> 12) & 0x0F) as u8;
        let b2 = 0x80 | ((v >> 6) & 0x3F) as u8;
        let b3 = 0x80 | (v & 0x3F) as u8;
        assert(0xE0 <= b1 < 0xF0 && ((b1 as u32 & 0xF) << 12) | ((b2 as u32 & 0x3F) << 6) | (b3 as u32
            & 0x3F) == v) by (bit_vector)
            requires
                0x800 <= v <= 0xFFFF,
                b1 == 0xE0 | ((v >> 12) & 0x0F) as u8,
                b2 == 0x80 | ((v >> 6) & 0x3F) as u8,
                b3 == 0x80 | (v & 0x3F) as u8,
        ;
        assert(b =~= seq![b1, b2, b3]);
        assert(decode_units(b, 3) == Some(Seq::<u32>::empty()));
        assert(seq![v] + Seq::<u32>::empty() =~= seq![v]);
    }
}

/// Values that are Unicode scalars below 0x10000, written by `utf32_to_utf8`, are read back
/// unchanged by `utf8_to_utf32`.
pub proof fn law_utf32_round_trip(vs: Seq<u32>)
    requires
        forall|k: int| 0 <= k < vs.len() ==> is_scalar(#[trigger] vs[k]) && vs[k] <= 0xFFFF,
    ensures
        decode_units(encode_units(vs), 0) == Some(vs),
    decreases vs.len(),
{
    if vs.len() == 0 {
        assert(encode_units(vs) =~= Seq::<u8>::empty());
    } else {
        let init = vs.drop_last();
        assert forall|k: int| 0 <= k < init.len() implies is_scalar(#[trigger] init[k]) && init[k] <= 0xFFFF by {
            assert(init[k] == vs[k]);
        }
        law_utf32_round_trip(init);
        lemma_unit_round_trip(vs.last());
        lemma_decode_concat(encode_units(init), unit_bytes(vs.last()), 0);
        assert(init + seq![vs.last()] =~= vs);
    }
}

} // verus!

use vstd::prelude::*;
use crate::text::strs::bytes;

verus! {

#[derive(Clone, Copy, Debug, PartialEq, Eq, Structural)]
pub struct Color {
    pub r: u8,
    pub g: u8,
    pub b: u8,
    pub a: u8,
}

/// The value of a hexadecimal digit, in either case.
pub open spec fn hex_digit(c: u8) -> Option<u32> {
    if 0x30 <= c <= 0x39 {
        Some((c - 0x30) as u32)
    } else if 0x61 <= c <= 0x66 {
        Some((c - 0x61 + 10) as u32)
    } else if 0x41 <= c <= 0x46 {
        Some((c - 0x41 + 10) as u32)
    } else {
        None
    }
}

/// The number that the hexadecimal digits `d` spell, or `None` if one is no digit.
pub open spec fn hex_digits_value(d: Seq<u8>) -> Option<int>
    decreases d.len(),
{
    if d.len() == 0 {
        Some(0)
    } else {
        match (hex_digits_value(d.drop_last()), hex_digit(d.last())) {
            (Some(v), Some(x)) => Some(v * 16 + x),
            _ => None,
        }
    }
}

/// What `u32::from_str_radix(s, 16)` gives for text `s` of at most eight bytes: the digits
/// after an optional `+`, of which there must be at least one.
pub open spec fn hex_value(s: Seq<u8>) -> Option<int> {
    let d = if s.len() > 0 && s[0] == 0x2B { s.drop_first() } else { s };
    if d.len() == 0 { None } else { hex_digits_value(d) }
}

/// Why a text is no hexadecimal color.
#[derive(Clone, Copy, Debug, PartialEq, Eq, Structural)]
pub enum ColorParseError {
    InvalidLength,
    InvalidDigits,
}

impl ColorParseError {
    /// The message the error is reported with.
    pub fn message(&self) -> (r: &'static str)
        ensures
            *self == ColorParseError::InvalidLength ==> r@ == "invalid hex color length, expected 6 or 8 digits"@,
            *self == ColorParseError::InvalidDigits ==> r@ == "invalid hex color"@,
    {
        match self {
            ColorParseError::InvalidLength => "invalid hex color length, expected 6 or 8 digits",
            ColorParseError::InvalidDigits => "invalid hex color",
        }
    }
}

/// The bytes of a color given as `0xRRGGBBAA`.
pub open spec fn color_of(value: u32) -> Color {
    Color {
        r: (value / 0x1000000) as u8,
        g: (value / 0x10000 % 0x100) as u8,
        b: (value / 0x100 % 0x100) as u8,
        a: (value % 0x100) as u8,
    }
}

/// What `Color::parse_hex` gives for the text with bytes `s`.
pub open spec fn parse_hex_spec(s: Seq<u8>) -> Result<Color, ColorParseError> {
    if s.len() != 6 && s.len() != 8 {
        Err(ColorParseError::InvalidLength)
    } else {
        match hex_value(s) {
            None => Err(ColorParseError::InvalidDigits),
            Some(v) => Ok(color_of(if s.len() == 6 { (v * 0x100 + 0xFF) as u32 } else { v as u32 })),
        }
    }
}

/// Eight hexadecimal digits fit in 32 bits.
proof fn lemma_hex_digits_bound(d: Seq<u8>)
    requires
        hex_digits_value(d) is Some,
    ensures
        0 <= hex_digits_value(d)->0,
        d.len() <= 8 ==> hex_digits_value(d)->0 < pow16(d.len()),
    decreases d.len(),
{
    if d.len() > 0 {
        lemma_hex_digits_bound(d.drop_last());
        if d.len() <= 8 {
            let v = hex_digits_value(d.drop_last())->0;
            let x = hex_digit(d.last())->0;
            let p = pow16((d.len() - 1) as nat);
            assert(v * 16 + x < p * 16) by (nonlinear_arith)
                requires
                    0 <= v < p,
                    0 <= x < 16,
            ;
        }
    }
}

/// Sixteen to the power `n`.
pub open spec fn pow16(n: nat) -> int
    decreases n,
{
    if n == 0 { 1 } else { 16 * pow16((n - 1) as nat) }
}

impl Color {
    /// The color given as `0xRRGGBBAA`.
    pub fn from_hex(value: u32) -> (r: Self)
        ensures
            r == color_of(value),
    {
        let r = Self {
            r: (value >> 24) as u8,
            g: (value >> 16) as u8,
            b: (value >> 8) as u8,
            a: value as u8,
        };
        assert((value >> 24) as u8 == (value / 0x1000000) as u8) by (bit_vector);
        assert((value >> 16) as u8 == (value / 0x10000 % 0x100) as u8) by (bit_vector);
        assert((value >> 8) as u8 == (value / 0x100 % 0x100) as u8) by (bit_vector);
        assert(value as u8 == (value % 0x100) as u8) by (bit_vector);
        r
    }

    /// An opaque color.
    pub fn from_rgb(r: u8, g: u8, b: u8) -> (c: Self)
        ensures
            c == (Color { r, g, b, a: 255 }),
    {
        Self { r, g, b, a: 255 }
    }

    /// Reads a color written as six (opaque) or eight hexadecimal digits, `RRGGBB` or
    /// `RRGGBBAA`.
    pub fn parse_hex(s: &str) -> (r: Result<Self, ColorParseError>)
        ensures
            r == parse_hex_spec(bytes(s)),
    {
        let b = s.as_bytes();
        let n = b.len();
        if n != 6 && n != 8 {
            return Err(ColorParseError::InvalidLength);
        }
        let ghost sb = b@;
        let first: usize = if b[0] == 0x2B { 1 } else { 0 };
        let ghost d = sb.subrange(first as int, n as int);
        proof {
            if first == 1 {
                assert(d =~= sb.drop_first());
            } else {
                assert(d =~= sb);
            }
        }
        if first == n {
            return Err(ColorParseError::InvalidDigits);
        }
        let mut value: u32 = 0;
        let mut k: usize = first;
        while k < n
            invariant
                b@ == sb,
                sb == bytes(s),
                n == sb.len(),
                n == 6 || n == 8,
                first <= k <= n,
                d == sb.subrange(first as int, n as int),
                d.len() > 0,
                hex_value(sb) == hex_digits_value(d),
                hex_digits_value(sb.subrange(first as int, k as int)) == Some(value as int),
            decreases n - k,
        {
            let c = b[k];
            let x: u32 = if 0x30 <= c && c <= 0x39 {
                (c - 0x30) as u32
            } else if 0x61 <= c && c <= 0x66 {
                (c - 0x61 + 10) as u32
            } else if 0x41 <= c && c <= 0x46 {
                (c - 0x41 + 10) as u32
            } else {
                proof {
                    let pre = sb.subrange(first as int, (k + 1) as int);
                    assert(pre.drop_last() =~= sb.subrange(first as int, k as int));
                    assert(pre.last() == c);
                    assert(pre =~= d.subrange(0, pre.len() as int));
                    lemma_invalid_digit_spreads(sb.subrange(first as int, (k + 1) as int), d);
                }
                return Err(ColorParseError::InvalidDigits);
            };
            proof {
                let pre = sb.subrange(first as int, (k + 1) as int);
                assert(pre.drop_last() =~= sb.subrange(first as int, k as int));
                assert(pre.last() == c);
                lemma_hex_digits_bound(pre);
                assert(pow16(pre.len()) <= pow16(8)) by {
                    lemma_pow16_mono(pre.len(), 8);
                }
                assert(pow16(8) == 0x100000000) by {
                    reveal_with_fuel(pow16, 9);
                }
            }
            value = value * 16 + x;
            k = k + 1;
        }
        proof {
            assert(sb.subrange(first as int, n as int) =~= d);
            lemma_hex_digits_bound(d);
        }
        let value = if n == 6 {
            proof {
                lemma_pow16_mono(d.len(), 6);
                assert(pow16(6) == 0x1000000) by {
                    reveal_with_fuel(pow16, 7);
                }
            }
            assert((value << 8) | 0xFF == value * 256 + 255) by (bit_vector)
                requires
                    value < 0x1000000,
            ;
            (value << 8) | 0xFF
        } else {
            value
        };
        Ok(Self::from_hex(value))
    }
}

/// Powers of sixteen grow.
proof fn lemma_pow16_mono(a: nat, b: nat)
    requires
        a <= b,
    ensures
        pow16(a) <= pow16(b),
        1 <= pow16(a),
    decreases b,
{
    if a < b {
        lemma_pow16_mono(a, (b - 1) as nat);
    } else if a > 0 {
        lemma_pow16_mono((a - 1) as nat, (a - 1) as nat);
    }
}

/// A text with a bad digit in its first part has no value as a whole.
proof fn lemma_invalid_digit_spreads(pre: Seq<u8>, d: Seq<u8>)
    requires
        pre.len() > 0,
        hex_digit(pre.last()) is None,
        pre.len() <= d.len(),
        pre =~= d.subrange(0, pre.len() as int),
    ensures
        hex_digits_value(d) is None,
    decreases d.len(),
{
    if d.len() > pre.len() {
        assert(d.drop_last().subrange(0, pre.len() as int) =~= pre);
        lemma_invalid_digit_spreads(pre, d.drop_last());
    } else {
        assert(d =~= pre);
    }
}

} // verus!

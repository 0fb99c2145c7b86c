//! ASCII text primitives: hexadecimal and decimal numerals as byte sequences.
use vstd::prelude::*;
use vstd::utf8::decode_utf8;
use vstd::utf8::encode_utf8;
use vstd::utf8::encode_utf8_decode_utf8;
use vstd::utf8::encode_utf8_valid_utf8;
use vstd::utf8::is_ascii_chars;
use vstd::utf8::is_ascii_chars_encode_utf8;
use vstd::utf8::valid_utf8;
use vstd::slice::slice_subrange;

verus! {

/// Numeric value of an ASCII hexadecimal digit byte; 16 when the byte is no hex digit.
pub open spec fn hex_digit_val(b: u8) -> int {
    if 48 <= b && b <= 57 {
        b - 48
    } else if 97 <= b && b <= 102 {
        b - 87
    } else if 65 <= b && b <= 70 {
        b - 55
    } else {
        16
    }
}

pub open spec fn is_hex_digit(b: u8) -> bool {
    hex_digit_val(b) < 16
}

pub open spec fn all_hex_digits(s: Seq<u8>) -> bool {
    forall|i: int| 0 <= i < s.len() ==> is_hex_digit(#[trigger] s[i])
}

/// Value of a big-endian ASCII hexadecimal numeral.
pub open spec fn hex_val(s: Seq<u8>) -> int
    decreases s.len(),
{
    if s.len() == 0 {
        0
    } else {
        hex_val(s.drop_last()) * 16 + hex_digit_val(s.last())
    }
}

pub open spec fn pow16(n: nat) -> int
    decreases n,
{
    if n == 0 {
        1
    } else {
        16 * pow16((n - 1) as nat)
    }
}

pub proof fn lemma_hex_val_bound(s: Seq<u8>)
    requires
        all_hex_digits(s),
    ensures
        0 <= hex_val(s) < pow16(s.len()),
    decreases s.len(),
{
    if s.len() > 0 {
        assert(all_hex_digits(s.drop_last())) by {
            assert(forall|i: int| 0 <= i < s.len() - 1 ==> s.drop_last()[i] == s[i]);
        }
        lemma_hex_val_bound(s.drop_last());
        assert(0 <= hex_digit_val(s.last()) < 16);
    }
}

fn hex_digit_of(b: u8) -> (r: u8)
    ensures
        r as int == hex_digit_val(b),
{
    if 48 <= b && b <= 57 {
        b - 48
    } else if 97 <= b && b <= 102 {
        b - 87
    } else if 65 <= b && b <= 70 {
        b - 55
    } else {
        16
    }
}

pub proof fn lemma_pow16_mono(a: nat, b: nat)
    requires
        a <= b,
    ensures
        pow16(a) <= pow16(b),
    decreases b,
{
    if a < b {
        lemma_pow16_mono(a, (b - 1) as nat);
        assert(pow16((b - 1) as nat) >= 1) by {
            lemma_pow16_pos((b - 1) as nat);
        }
    }
}

pub proof fn lemma_pow16_pos(n: nat)
    ensures
        pow16(n) >= 1,
    decreases n,
{
    if n > 0 {
        lemma_pow16_pos((n - 1) as nat);
    }
}

/// Parses a big-endian ASCII hexadecimal numeral of at most 8 digits.
/// Returns `None` exactly when some byte is no hexadecimal digit.
pub fn parse_hex_u32(s: &[u8]) -> (r: Option<u32>)
    requires
        1 <= s@.len() <= 8,
    ensures
        r is Some <==> all_hex_digits(s@),
        r matches Some(n) ==> n as int == hex_val(s@),
{
    let mut acc: u32 = 0;
    let mut i: usize = 0;
    while i < s.len()
        invariant
            1 <= s@.len() <= 8,
            i <= s@.len(),
            all_hex_digits(s@.take(i as int)),
            acc as int == hex_val(s@.take(i as int)),
        decreases s@.len() - i,
    {
        let d = hex_digit_of(s[i]);
        if d == 16 {
            assert(!is_hex_digit(s@[i as int]));
            return None;
        }
        proof {
            lemma_hex_val_bound(s@.take(i as int));
            lemma_pow16_mono(i as nat, 7);
            assert(pow16(7) == 0x10000000) by {
                reveal_with_fuel(pow16, 9);
            }
        }
        acc = acc * 16 + d as u32;
        i += 1;
        proof {
            assert(s@.take(i as int).drop_last() =~= s@.take(i as int - 1));
            assert(s@.take(i as int).last() == s@[i as int - 1]);
        }
    }
    proof {
        assert(s@.take(s@.len() as int) =~= s@);
    }
    Some(acc)
}

/// Decimal digit bytes of a natural number, most significant first.
pub open spec fn dec_bytes(n: nat) -> Seq<u8>
    decreases n,
{
    if n < 10 {
        seq![(48 + n) as u8]
    } else {
        dec_bytes(n / 10).push((48 + n % 10) as u8)
    }
}

/// Decimal numeral of a signed integer, with a leading minus sign when negative.
pub open spec fn dec_bytes_int(n: int) -> Seq<u8> {
    if n < 0 {
        seq![45u8] + dec_bytes((-n) as nat)
    } else {
        dec_bytes(n as nat)
    }
}

/// Appends the decimal numeral of `n` to `out`.
pub fn push_dec_u64(n: u64, out: &mut Vec<u8>)
    ensures
        final(out)@ == old(out)@ + dec_bytes(n as nat),
    decreases n,
{
    if n < 10 {
        out.push(48 + n as u8);
    } else {
        push_dec_u64(n / 10, out);
        out.push(48 + (n % 10) as u8);
    }
    proof {
        assert(out@ =~= old(out)@ + dec_bytes(n as nat));
    }
}

/// Appends the decimal numeral of `n` to `out`, minus sign first when negative.
pub fn push_dec_i64(n: i64, out: &mut Vec<u8>)
    ensures
        final(out)@ == old(out)@ + dec_bytes_int(n as int),
{
    if n < 0 {
        out.push(45);
        let m: u64 = if n == i64::MIN {
            9223372036854775808u64
        } else {
            (-n) as u64
        };
        assert(m as nat == (-(n as int)) as nat);
        push_dec_u64(m, out);
        proof {
            assert(out@ =~= old(out)@ + dec_bytes_int(n as int));
        }
    } else {
        push_dec_u64(n as u64, out);
    }
}

/// Hexadecimal digit bytes (lowercase) of a natural number, most significant first.
pub open spec fn hex_bytes(n: nat) -> Seq<u8>
    decreases n,
{
    if n < 16 {
        seq![hex_digit_byte(n as int)]
    } else {
        hex_bytes(n / 16).push(hex_digit_byte((n % 16) as int))
    }
}

/// The lowercase ASCII digit byte for a value in `[0, 16)`.
pub open spec fn hex_digit_byte(d: int) -> u8 {
    if d < 10 {
        (48 + d) as u8
    } else {
        (87 + d) as u8
    }
}

pub fn hex_digit_byte_of(d: u8) -> (r: u8)
    requires
        d < 16,
    ensures
        r == hex_digit_byte(d as int),
{
    if d < 10 {
        48 + d
    } else {
        87 + d
    }
}

/// Appends the lowercase hexadecimal numeral of `n` to `out`.
pub fn push_hex_u32(n: u32, out: &mut Vec<u8>)
    ensures
        final(out)@ == old(out)@ + hex_bytes(n as nat),
    decreases n,
{
    if n < 16 {
        let b = hex_digit_byte_of(n as u8);
        out.push(b);
    } else {
        push_hex_u32(n / 16, out);
        let b = hex_digit_byte_of((n % 16) as u8);
        out.push(b);
    }
    proof {
        assert(out@ =~= old(out)@ + hex_bytes(n as nat));
    }
}

/// The characters of an ASCII byte sequence, one character per byte.
pub open spec fn chars_of_ascii(s: Seq<u8>) -> Seq<char> {
    Seq::new(s.len(), |i: int| s[i] as char)
}

pub proof fn lemma_ascii_chars(s: Seq<u8>)
    requires
        forall|i: int| 0 <= i < s.len() ==> #[trigger] s[i] < 128,
    ensures
        is_ascii_chars(chars_of_ascii(s)),
        encode_utf8(chars_of_ascii(s)) == s,
{
    let c = chars_of_ascii(s);
    assert forall|i: int| 0 <= i < c.len() implies '\0' <= #[trigger] c[i]
        <= '\u{7f}' by {
        assert(c[i] == s[i] as char);
        assert(s[i] < 128);
    }
    assert(is_ascii_chars(c));
    is_ascii_chars_encode_utf8(c);
    assert forall|i: int| 0 <= i < s.len() implies encode_utf8(c)[i] == s[i] by {
        assert(c[i] as u8 == encode_utf8(c)[i]);
    }
    assert(encode_utf8(c) =~= s);
}

/// Concatenating characters concatenates their UTF-8 encodings.
pub proof fn lemma_encode_utf8_concat(a: Seq<char>, b: Seq<char>)
    ensures
        encode_utf8(a + b) == encode_utf8(a) + encode_utf8(b),
    decreases a.len(),
{
    if a.len() == 0 {
        assert(a + b =~= b);
        assert(encode_utf8(a) + encode_utf8(b) =~= encode_utf8(b));
    } else {
        assert((a + b).drop_first() =~= a.drop_first() + b);
        lemma_encode_utf8_concat(a.drop_first(), b);
        assert((a + b)[0] == a[0]);
        assert(encode_utf8(a + b) =~= encode_utf8(a) + encode_utf8(b));
    }
}

/// Relies on String::from_utf8: `Some` exactly on valid UTF-8 input,
/// yielding the string the bytes encode.
#[verifier::external_body]
pub fn string_from_utf8(bytes: Vec<u8>) -> (r: Option<String>)
    ensures
        r is Some <==> valid_utf8(bytes@),
        r matches Some(s) ==> s@ == decode_utf8(bytes@),
{
    String::from_utf8(bytes).ok()
}

/// Builds the string whose characters are the given ASCII bytes.
pub fn ascii_to_string(bytes: Vec<u8>) -> (r: String)
    requires
        forall|i: int| 0 <= i < bytes@.len() ==> #[trigger] bytes@[i] < 128,
    ensures
        r@ == chars_of_ascii(bytes@),
{
    proof {
        lemma_ascii_chars(bytes@);
        encode_utf8_valid_utf8(chars_of_ascii(bytes@));
        encode_utf8_decode_utf8(chars_of_ascii(bytes@));
    }
    string_from_utf8(bytes).unwrap()
}

pub proof fn lemma_dec_bytes_range(n: nat)
    ensures
        forall|i: int|
            0 <= i < dec_bytes(n).len() ==> 48 <= #[trigger] dec_bytes(n)[i] <= 57,
    decreases n,
{
    if n >= 10 {
        lemma_dec_bytes_range(n / 10);
        assert forall|i: int|
            0 <= i < dec_bytes(n).len() implies 48 <= #[trigger] dec_bytes(n)[i]
            <= 57 by {
            if i < dec_bytes(n).len() - 1 {
                assert(dec_bytes(n)[i] == dec_bytes(n / 10)[i]);
            }
        }
    }
}

pub proof fn lemma_dec_bytes_int_range(n: int)
    ensures
        forall|i: int|
            0 <= i < dec_bytes_int(n).len() ==> (48 <= #[trigger] dec_bytes_int(n)[i]
                <= 57 || dec_bytes_int(n)[i] == 45),
{
    if n < 0 {
        lemma_dec_bytes_range((-n) as nat);
        assert forall|i: int|
            0 <= i < dec_bytes_int(n).len() implies (48 <= #[trigger] dec_bytes_int(
            n,
        )[i] <= 57 || dec_bytes_int(n)[i] == 45) by {
            if i > 0 {
                assert(dec_bytes_int(n)[i] == dec_bytes((-n) as nat)[i - 1]);
            }
        }
    } else {
        lemma_dec_bytes_range(n as nat);
    }
}

/// The characters of the decimal numeral of `n`.
pub open spec fn dec_chars_int(n: int) -> Seq<char> {
    chars_of_ascii(dec_bytes_int(n))
}

pub open spec fn is_dec_digit(b: u8) -> bool {
    48 <= b && b <= 57
}

pub open spec fn all_dec_digits(s: Seq<u8>) -> bool {
    forall|i: int| 0 <= i < s.len() ==> is_dec_digit(#[trigger] s[i])
}

/// Value of a big-endian ASCII decimal numeral.
pub open spec fn dec_val(s: Seq<u8>) -> int
    decreases s.len(),
{
    if s.len() == 0 {
        0
    } else {
        dec_val(s.drop_last()) * 10 + (s.last() - 48)
    }
}

/// A decimal integer numeral, optionally signed.
pub open spec fn is_int_token(s: Seq<u8>) -> bool {
    if s.len() > 0 && s[0] == 45 {
        s.len() > 1 && all_dec_digits(s.skip(1))
    } else {
        s.len() > 0 && all_dec_digits(s)
    }
}

/// The integer a signed decimal numeral denotes.
pub open spec fn int_token_val(s: Seq<u8>) -> int {
    if s.len() > 0 && s[0] == 45 {
        -dec_val(s.skip(1))
    } else {
        dec_val(s)
    }
}

/// A numeral's prefixes never exceed its value.
pub proof fn lemma_dec_val_mono(s: Seq<u8>, i: int)
    requires
        all_dec_digits(s),
        0 <= i <= s.len(),
    ensures
        0 <= dec_val(s.take(i)) <= dec_val(s),
    decreases s.len() - i,
{
    lemma_dec_val_nonneg(s.take(i));
    if i < s.len() {
        lemma_dec_val_mono(s, i + 1);
        assert(s.take(i + 1).drop_last() =~= s.take(i));
        assert(s.take(i + 1).last() == s[i]);
        lemma_dec_val_nonneg(s.take(i));
        assert(dec_val(s.take(i + 1)) == dec_val(s.take(i)) * 10 + (s[i] - 48));
        assert(dec_val(s.take(i)) * 10 >= dec_val(s.take(i))) by (nonlinear_arith)
            requires
                dec_val(s.take(i)) >= 0,
        ;
    } else {
        assert(s.take(i) =~= s);
    }
}

pub proof fn lemma_dec_val_nonneg(s: Seq<u8>)
    requires
        all_dec_digits(s),
    ensures
        dec_val(s) >= 0,
    decreases s.len(),
{
    if s.len() > 0 {
        assert(all_dec_digits(s.drop_last())) by {
            assert(forall|i: int| 0 <= i < s.len() - 1 ==> s.drop_last()[i] == s[i]);
        }
        lemma_dec_val_nonneg(s.drop_last());
        assert(dec_val(s.drop_last()) * 10 >= 0) by (nonlinear_arith)
            requires
                dec_val(s.drop_last()) >= 0,
        ;
    }
}

/// Parses an optionally signed decimal numeral. `Some` exactly when the
/// bytes form such a numeral whose value fits an `i64`.
pub fn parse_int_i64(s: &[u8]) -> (r: Option<i64>)
    ensures
        r is Some <==> (is_int_token(s@) && -0x8000_0000_0000_0000 <= int_token_val(s@)
            <= 0x7fff_ffff_ffff_ffff),
        r matches Some(n) ==> n as int == int_token_val(s@),
{
    if s.len() == 0 {
        return None;
    }
    let neg = s[0] == 45;
    let start: usize = if neg {
        1
    } else {
        0
    };
    if s.len() == start {
        return None;
    }
    let cap: u64 = if neg {
        0x8000_0000_0000_0000
    } else {
        0x7fff_ffff_ffff_ffff
    };
    let digits = slice_subrange(s, start, s.len());
    let ghost dg = digits@;
    proof {
        if neg {
            assert(dg =~= s@.skip(1));
        } else {
            assert(dg =~= s@);
        }
    }
    let mut acc: u64 = 0;
    let mut i: usize = 0;
    while i < digits.len()
        invariant
            digits@ == dg,
            dg.len() >= 1,
            s@.len() >= 1,
            neg == (s@[0] == 45),
            neg ==> dg == s@.skip(1),
            !neg ==> dg == s@,
            cap == if neg {
                0x8000_0000_0000_0000u64
            } else {
                0x7fff_ffff_ffff_ffffu64
            },
            i <= dg.len(),
            all_dec_digits(dg.take(i as int)),
            acc as int == dec_val(dg.take(i as int)),
            acc <= cap,
        decreases dg.len() - i,
    {
        let d = digits[i];
        if !(48 <= d && d <= 57) {
            proof {
                assert(!is_dec_digit(dg[i as int]));
                if neg {
                    assert(!all_dec_digits(s@.skip(1)));
                } else {
                    assert(!all_dec_digits(s@));
                }
            }
            return None;
        }
        let dv = (d - 48) as u64;
        if acc > (cap - dv) / 10 {
            proof {
                assert(s@.len() > 0);
                assert(acc as int * 10 + dv as int > cap as int);
                if is_int_token(s@) {
                    assert(all_dec_digits(dg));
                    assert(dg.take(i as int + 1).drop_last() =~= dg.take(i as int));
                    assert(dg.take(i as int + 1).last() == dg[i as int]);
                    assert(dec_val(dg.take(i as int + 1)) == acc as int * 10 + dv as int);
                    lemma_dec_val_mono(dg, i as int + 1);
                    assert(dg.take(dg.len() as int) =~= dg);
                    assert(dec_val(dg) > cap as int);
                }
            }
            return None;
        }
        acc = acc * 10 + dv;
        i += 1;
        proof {
            assert(dg.take(i as int).drop_last() =~= dg.take(i as int - 1));
            assert(dg.take(i as int).last() == dg[i as int - 1]);
        }
    }
    proof {
        assert(dg.take(dg.len() as int) =~= dg);
        assert(s@.len() > 0);
        assert(is_int_token(s@));
    }
    if neg {
        if acc == 0x8000_0000_0000_0000 {
            Some(i64::MIN)
        } else {
            Some(-(acc as i64))
        }
    } else {
        Some(acc as i64)
    }
}

} // verus!

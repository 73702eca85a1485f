//! Lowercase hexadecimal digits and zero-padded hexadecimal renderings.

use vstd::prelude::*;

verus! {

/// The ASCII code of the lowercase hexadecimal digit for a value below 16.
pub open spec fn hex_digit(d: nat) -> u8 {
    if d < 10 {
        (48 + d) as u8
    } else {
        (87 + d) as u8
    }
}

/// Whether a byte is the ASCII code of a lowercase hexadecimal digit.
pub open spec fn is_hex_digit_byte(b: u8) -> bool {
    (48 <= b && b <= 57) || (97 <= b && b <= 102)
}

/// The value of the lowercase hexadecimal digit with ASCII code `b`.
pub open spec fn hex_digit_val(b: u8) -> nat {
    if 48 <= b && b <= 57 {
        (b - 48) as nat
    } else if 97 <= b && b <= 102 {
        (b - 87) as nat
    } else {
        0
    }
}

pub proof fn lemma_hex_digit_inverse(d: nat)
    requires
        d < 16,
    ensures
        is_hex_digit_byte(hex_digit(d)),
        hex_digit_val(hex_digit(d)) == d,
{
}

/// The bytes of `n` written in lowercase hexadecimal, zero-padded on the
/// left to at least `min_digits` digits: what `{:0w$x}` prints.
pub open spec fn hex_rep(n: nat, min_digits: nat) -> Seq<u8>
    decreases n, min_digits,
{
    if n < 16 && min_digits <= 1 {
        seq![hex_digit(n)]
    } else {
        hex_rep(n / 16, if min_digits == 0 { 0 } else { (min_digits - 1) as nat }).push(
            hex_digit(n % 16),
        )
    }
}

/// 16 to the power `k`.
pub open spec fn pow16(k: nat) -> nat
    decreases k,
{
    if k == 0 {
        1
    } else {
        16 * pow16((k - 1) as nat)
    }
}

pub proof fn lemma_pow16_8()
    ensures
        pow16(2) == 0x100,
        pow16(8) == 0x100000000,
{
    assert(pow16(0) == 1);
    assert(pow16(1) == 16);
    assert(pow16(2) == 0x100);
    assert(pow16(3) == 0x1000);
    assert(pow16(4) == 0x10000);
    assert(pow16(5) == 0x100000);
    assert(pow16(6) == 0x1000000);
    assert(pow16(7) == 0x10000000);
    assert(pow16(8) == 0x100000000);
}

/// A rendering asked to be at least `min_digits` wide is exactly that wide
/// whenever the value fits in `min_digits` digits.
pub proof fn lemma_hex_rep_len(n: nat, min_digits: nat)
    requires
        min_digits >= 1,
        n < pow16(min_digits),
    ensures
        hex_rep(n, min_digits).len() == min_digits,
    decreases min_digits,
{
    if min_digits == 1 {
        assert(hex_rep(n, 1) =~= seq![hex_digit(n)]);
    } else {
        assert(pow16(min_digits) == 16 * pow16((min_digits - 1) as nat));
        assert(n / 16 < pow16((min_digits - 1) as nat)) by {
            assert(16 * (n / 16) <= n) by (nonlinear_arith);
            assert(16 * (n / 16) < 16 * pow16((min_digits - 1) as nat));
            assert(n / 16 < pow16((min_digits - 1) as nat)) by (nonlinear_arith)
                requires
                    16 * (n / 16) < 16 * pow16((min_digits - 1) as nat),
            ;
        }
        lemma_hex_rep_len(n / 16, (min_digits - 1) as nat);
    }
}

/// Every byte of a hexadecimal rendering is a lowercase hexadecimal digit.
pub proof fn lemma_hex_rep_digits(n: nat, min_digits: nat)
    ensures
        forall|i: int|
            0 <= i < hex_rep(n, min_digits).len() ==> is_hex_digit_byte(
                #[trigger] hex_rep(n, min_digits)[i],
            ),
    decreases n, min_digits,
{
    if n < 16 && min_digits <= 1 {
        lemma_hex_digit_inverse(n);
    } else {
        let md = if min_digits == 0 {
            0
        } else {
            (min_digits - 1) as nat
        };
        lemma_hex_rep_digits(n / 16, md);
        lemma_hex_digit_inverse(n % 16);
        let prefix = hex_rep(n / 16, md);
        assert(hex_rep(n, min_digits) == prefix.push(hex_digit(n % 16)));
        assert forall|i: int| 0 <= i < hex_rep(n, min_digits).len() implies is_hex_digit_byte(
            #[trigger] hex_rep(n, min_digits)[i],
        ) by {
            if i < prefix.len() {
                assert(hex_rep(n, min_digits)[i] == prefix[i]);
            } else {
                assert(hex_rep(n, min_digits)[i] == hex_digit(n % 16));
            }
        }
    }
}

/// The two-digit rendering of a byte, spelled out.
pub proof fn lemma_hex_rep_byte(b: u8)
    ensures
        hex_rep(b as nat, 2) =~= seq![hex_digit(b as nat / 16), hex_digit(b as nat % 16)],
        hex_rep(b as nat, 2).len() == 2,
        hex_digit_val(hex_rep(b as nat, 2)[0]) * 16 + hex_digit_val(hex_rep(b as nat, 2)[1])
            == b as nat,
{
    let n = b as nat;
    assert(hex_rep(n, 2) == hex_rep(n / 16, 1).push(hex_digit(n % 16)));
    assert(hex_rep(n / 16, 1) =~= seq![hex_digit(n / 16)]);
    lemma_hex_digit_inverse(n / 16);
    lemma_hex_digit_inverse(n % 16);
}

/// The lowercase hexadecimal digit for `d`, as a byte.
pub fn hex_digit_byte(d: u8) -> (r: u8)
    requires
        d < 16,
    ensures
        r == hex_digit(d as nat),
{
    if d < 10 {
        48 + d
    } else {
        87 + d
    }
}

/// Appends the lowercase hexadecimal rendering of `n`, zero-padded to at
/// least `min_digits` digits, to `out`.
pub fn push_hex(out: &mut Vec<u8>, n: usize, min_digits: usize)
    ensures
        final(out)@ =~= old(out)@ + hex_rep(n as nat, min_digits as nat),
    decreases n, min_digits,
{
    if n < 16 && min_digits <= 1 {
        out.push(hex_digit_byte(n as u8));
    } else {
        let next_md: usize = if min_digits == 0 {
            0
        } else {
            min_digits - 1
        };
        push_hex(out, n / 16, next_md);
        out.push(hex_digit_byte((n % 16) as u8));
    }
}

} // verus!

//! Reading the bytes back out of a dump.
//!
//! A dump determines its input: scanning each line's field region for
//! hexadecimal pairs — ignoring the offset labels and the blank padding —
//! recovers exactly the bytes that were dumped.  The decoder here is the
//! specification of that reading, and the round-trip law proves it
//! inverts the formatter.

use vstd::prelude::*;

use crate::format::{
    SPACE, dump_lines, fields_from, hexdump, lemma_line_len, line_for, pair_field,
};
use crate::hex::{
    hex_digit_val, hex_rep, is_hex_digit_byte, lemma_hex_rep_byte, lemma_hex_rep_digits,
    lemma_hex_rep_len, lemma_pow16_8, pow16,
};

verus! {

/// The byte written as the two hexadecimal digits `h` then `l`.
pub open spec fn pair_byte(h: u8, l: u8) -> u8 {
    (hex_digit_val(h) * 16 + hex_digit_val(l)) as u8
}

/// The bytes spelled by the hexadecimal pairs of `s`: spaces are skipped,
/// and each run of digits is read two at a time.
pub open spec fn decode_pairs(s: Seq<u8>) -> Seq<u8>
    decreases s.len(),
{
    if s.len() == 0 {
        Seq::empty()
    } else if is_hex_digit_byte(s[0]) {
        if s.len() >= 2 {
            seq![pair_byte(s[0], s[1])] + decode_pairs(s.skip(2))
        } else {
            Seq::empty()
        }
    } else {
        decode_pairs(s.skip(1))
    }
}

/// The bytes one dump line spells: its field region — everything between
/// the eight-digit label with its space and the final newline — read as
/// hexadecimal pairs.
pub open spec fn decode_line(line: Seq<u8>) -> Seq<u8> {
    if line.len() >= 10 {
        decode_pairs(line.subrange(9, line.len() - 1))
    } else {
        Seq::empty()
    }
}

/// The bytes a whole dump spells: every full line is 50 bytes, so the
/// output is read line by line at that stride, the last line possibly
/// shorter.
pub open spec fn decode_dump(out: Seq<u8>) -> Seq<u8>
    decreases out.len(),
{
    if out.len() == 0 {
        Seq::empty()
    } else if out.len() <= 50 {
        decode_line(out)
    } else {
        decode_line(out.take(50)) + decode_dump(out.skip(50))
    }
}

proof fn lemma_decode_byte(b: u8, t: Seq<u8>)
    ensures
        decode_pairs(hex_rep(b as nat, 2) + t) == seq![b] + decode_pairs(t),
{
    lemma_hex_rep_byte(b);
    lemma_hex_rep_digits(b as nat, 2);
    let s = hex_rep(b as nat, 2) + t;
    assert(is_hex_digit_byte(s[0]));
    assert(s.len() >= 2);
    assert(pair_byte(s[0], s[1]) == b) by {
        assert(hex_digit_val(s[0]) * 16 + hex_digit_val(s[1]) == b as nat);
    }
    assert(s.skip(2) =~= t);
    assert(decode_pairs(s) =~= seq![b] + decode_pairs(t));
}

proof fn lemma_decode_space(t: Seq<u8>)
    ensures
        decode_pairs(seq![SPACE] + t) == decode_pairs(t),
{
    let s = seq![SPACE] + t;
    assert(!is_hex_digit_byte(s[0]));
    assert(s.skip(1) =~= t);
}

proof fn lemma_decode_blanks(t: Seq<u8>)
    ensures
        decode_pairs(seq![SPACE, SPACE, SPACE, SPACE, SPACE] + t) == decode_pairs(t),
{
    let blanks = seq![SPACE, SPACE, SPACE, SPACE, SPACE];
    assert(blanks + t =~= seq![SPACE] + (seq![SPACE] + (seq![SPACE] + (seq![SPACE] + (seq![SPACE]
        + t)))));
    lemma_decode_space(t);
    lemma_decode_space(seq![SPACE] + t);
    lemma_decode_space(seq![SPACE] + (seq![SPACE] + t));
    lemma_decode_space(seq![SPACE] + (seq![SPACE] + (seq![SPACE] + t)));
    lemma_decode_space(seq![SPACE] + (seq![SPACE] + (seq![SPACE] + (seq![SPACE] + t))));
}

/// The field region from slot `k` on spells exactly the bytes it renders:
/// those from `i + 2k` to the end of the line's span.
proof fn lemma_decode_fields(data: Seq<u8>, i: int, k: int)
    requires
        0 <= i < data.len(),
        0 <= k <= 8,
    ensures
        decode_pairs(fields_from(data, i, k)) == data.subrange(
            if i + 2 * k <= i + 16 && i + 2 * k <= data.len() {
                i + 2 * k
            } else if data.len() <= i + 16 {
                data.len() as int
            } else {
                i + 16
            },
            if data.len() <= i + 16 {
                data.len() as int
            } else {
                i + 16
            },
        ),
    decreases 8 - k,
{
    let hi: int = if data.len() <= i + 16 {
        data.len() as int
    } else {
        i + 16
    };
    let lo: int = if i + 2 * k <= hi {
        i + 2 * k
    } else {
        hi
    };
    if k == 8 {
        assert(fields_from(data, i, k) =~= Seq::<u8>::empty());
        assert(data.subrange(lo, hi) =~= Seq::<u8>::empty());
    } else {
        let j = 2 * k;
        let rest = fields_from(data, i, k + 1);
        lemma_decode_fields(data, i, k + 1);
        if i + j + 1 < data.len() {
            let b0 = data[i + j];
            let b1 = data[i + j + 1];
            assert(pair_field(data, i, j) + rest =~= hex_rep(b0 as nat, 2) + (hex_rep(b1 as nat, 2)
                + (seq![SPACE] + rest)));
            lemma_decode_byte(b0, hex_rep(b1 as nat, 2) + (seq![SPACE] + rest));
            lemma_decode_byte(b1, seq![SPACE] + rest);
            lemma_decode_space(rest);
            assert(decode_pairs(fields_from(data, i, k)) =~= seq![b0, b1] + decode_pairs(rest));
            assert(seq![b0, b1] + data.subrange(
                if i + 2 * (k + 1) <= hi {
                    i + 2 * (k + 1)
                } else {
                    hi
                },
                hi,
            ) =~= data.subrange(lo, hi));
        } else if i + j < data.len() {
            let b0 = data[i + j];
            assert(pair_field(data, i, j) + rest =~= hex_rep(b0 as nat, 2) + rest);
            lemma_decode_byte(b0, rest);
            assert(decode_pairs(fields_from(data, i, k)) =~= seq![b0] + decode_pairs(rest));
            assert(seq![b0] + data.subrange(
                if i + 2 * (k + 1) <= hi {
                    i + 2 * (k + 1)
                } else {
                    hi
                },
                hi,
            ) =~= data.subrange(lo, hi));
        } else {
            assert(pair_field(data, i, j) + rest =~= seq![SPACE, SPACE, SPACE, SPACE, SPACE]
                + rest);
            lemma_decode_blanks(rest);
            assert(data.subrange(lo, hi) =~= data.subrange(
                if i + 2 * (k + 1) <= hi {
                    i + 2 * (k + 1)
                } else {
                    hi
                },
                hi,
            ));
        }
    }
}

/// One line spells exactly the bytes of its span.
proof fn lemma_decode_one_line(data: Seq<u8>, i: int, label: nat)
    requires
        0 <= i < data.len(),
        label < pow16(8),
    ensures
        decode_line(line_for(data, i, label)) == data.subrange(
            i,
            if data.len() <= i + 16 {
                data.len() as int
            } else {
                i + 16
            },
        ),
{
    lemma_hex_rep_len(label, 8);
    let line = line_for(data, i, label);
    let f = fields_from(data, i, 0);
    assert(line.len() == 10 + f.len());
    assert(line.subrange(9, line.len() - 1) =~= f);
    lemma_decode_fields(data, i, 0);
}

proof fn lemma_decode_dump_lines(data: Seq<u8>, i: int, label: nat)
    requires
        0 <= i <= data.len(),
        label + (data.len() - i) <= 0x100000000,
    ensures
        decode_dump(dump_lines(data, i, label)) == data.subrange(i, data.len() as int),
    decreases data.len() - i + 16,
{
    lemma_pow16_8();
    if i >= data.len() {
        assert(dump_lines(data, i, label) =~= Seq::<u8>::empty());
        assert(data.subrange(i, data.len() as int) =~= Seq::<u8>::empty());
    } else {
        let line = line_for(data, i, label);
        let rest = dump_lines(data, i + 16, label + 16);
        let whole = dump_lines(data, i, label);
        assert(whole == line + rest);
        lemma_line_len(data, i, label);
        lemma_decode_one_line(data, i, label);
        if i + 16 >= data.len() {
            assert(rest =~= Seq::<u8>::empty());
            assert(whole =~= line);
            assert(1 <= whole.len() <= 50);
            assert(decode_dump(whole) == decode_line(line));
            assert(data.subrange(i, if data.len() <= i + 16 {
                data.len() as int
            } else {
                i + 16
            }) =~= data.subrange(i, data.len() as int));
        } else {
            assert(line.len() == 50);
            assert(rest.len() > 0) by {
                assert(rest == line_for(data, i + 16, label + 16) + dump_lines(
                    data,
                    i + 32,
                    label + 32,
                ));
                assert(line_for(data, i + 16, label + 16).len() > 0);
            }
            assert(whole.len() > 50);
            assert(whole.take(50) =~= line);
            assert(whole.skip(50) =~= rest);
            lemma_decode_dump_lines(data, i + 16, label + 16);
            assert(decode_dump(whole) == decode_line(line) + decode_dump(rest));
            assert(data.subrange(i, i + 16) + data.subrange(i + 16, data.len() as int)
                =~= data.subrange(i, data.len() as int));
        }
    }
}

/// Law: the dump is lossless — reading the hexadecimal pairs back out of
/// the output, line by line, yields exactly the dumped bytes.  This needs
/// every offset label to fit in eight digits, so that lines sit at a
/// 50-byte stride.
pub proof fn lemma_round_trip(data: Seq<u8>, start_offset: nat)
    requires
        start_offset + data.len() <= 0x100000000,
    ensures
        decode_dump(hexdump(data, start_offset)) == data,
{
    lemma_decode_dump_lines(data, 0, start_offset);
    assert(data.subrange(0, data.len() as int) =~= data);
}

} // verus!

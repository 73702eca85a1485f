//! The dump formatter: renders a span of bytes as hex-dump lines.
//!
//! Each line is an eight-digit lowercase hexadecimal offset label, a
//! space, eight byte-pair fields, and a newline.  A field holding a full
//! pair prints four digits and a trailing space; a field whose second
//! byte lies past the valid length prints two digits and no space; a
//! field whose first byte lies past the valid length prints five blank
//! spaces, so column alignment is kept on incomplete trailing lines.

use vstd::prelude::*;

use crate::hex::{hex_rep, push_hex};

verus! {

pub const SPACE: u8 = 32;

pub const NEWLINE: u8 = 10;

/// The bytes printed for the pair slot at byte offset `i + j` of `data`
/// (`j` is even and below 16): a full pair, an odd tail, or blank padding.
pub open spec fn pair_field(data: Seq<u8>, i: int, j: int) -> Seq<u8> {
    if i + j + 1 < data.len() {
        hex_rep(data[i + j] as nat, 2) + hex_rep(data[i + j + 1] as nat, 2) + seq![SPACE]
    } else if i + j < data.len() {
        hex_rep(data[i + j] as nat, 2)
    } else {
        seq![SPACE, SPACE, SPACE, SPACE, SPACE]
    }
}

/// The pair fields of the line starting at byte offset `i`, from slot `k`
/// (of 8) onward.
pub open spec fn fields_from(data: Seq<u8>, i: int, k: int) -> Seq<u8>
    decreases 8 - k,
{
    if k < 0 || k >= 8 {
        Seq::empty()
    } else {
        pair_field(data, i, 2 * k) + fields_from(data, i, k + 1)
    }
}

/// One dump line for the bytes of `data` from offset `i`, labelled `label`.
pub open spec fn line_for(data: Seq<u8>, i: int, label: nat) -> Seq<u8> {
    hex_rep(label, 8) + seq![SPACE] + fields_from(data, i, 0) + seq![NEWLINE]
}

/// The dump lines for `data` from byte offset `i` onward, the first line
/// labelled `label` and each following line 16 higher.
pub open spec fn dump_lines(data: Seq<u8>, i: int, label: nat) -> Seq<u8>
    decreases data.len() - i + 16,
{
    if i < 0 || i >= data.len() {
        Seq::empty()
    } else {
        line_for(data, i, label) + dump_lines(data, i + 16, label + 16)
    }
}

/// The full hex dump of `data`, with the first line labelled
/// `start_offset`.
pub open spec fn hexdump(data: Seq<u8>, start_offset: nat) -> Seq<u8> {
    dump_lines(data, 0, start_offset)
}

/// How long the pair fields of one line are: 40 bytes, except 37 when the
/// line is the last and holds an odd number of bytes (its odd tail prints
/// two digits and no trailing space where a full pair prints five bytes).
pub proof fn lemma_fields_len(data: Seq<u8>, i: int, k: int)
    requires
        0 <= k <= 8,
        0 <= i < data.len(),
    ensures
        fields_from(data, i, k).len() == 5 * (8 - k) - (if data.len() - i < 16 && (data.len() - i)
            % 2 == 1 && 2 * k < data.len() - i {
            3int
        } else {
            0int
        }),
    decreases 8 - k,
{
    if k < 8 {
        let j = 2 * k;
        if i + j < data.len() {
            crate::hex::lemma_hex_rep_byte(data[i + j]);
        }
        if i + j + 1 < data.len() {
            crate::hex::lemma_hex_rep_byte(data[i + j + 1]);
        }
        lemma_fields_len(data, i, k + 1);
    }
}

/// How long one line is: 50 bytes, except 47 for a final line holding an
/// odd number of bytes.  The label must fit in eight digits.
pub proof fn lemma_line_len(data: Seq<u8>, i: int, label: nat)
    requires
        0 <= i < data.len(),
        label < crate::hex::pow16(8),
    ensures
        line_for(data, i, label).len() == (if data.len() - i < 16 && (data.len() - i) % 2 == 1 {
            47int
        } else {
            50int
        }),
{
    crate::hex::lemma_hex_rep_len(label, 8);
    lemma_fields_len(data, i, 0);
}

/// Renders the first `valid_length` bytes of `buffer` as hex-dump lines,
/// the first line labelled `start_offset`.
pub fn format_hexdump(buffer: &[u8], valid_length: usize, start_offset: usize) -> (out: Vec<u8>)
    requires
        valid_length <= buffer@.len(),
        start_offset + valid_length <= usize::MAX,
    ensures
        out@ == hexdump(buffer@.take(valid_length as int), start_offset as nat),
{
    let ghost data = buffer@.take(valid_length as int);
    let mut out: Vec<u8> = Vec::new();
    let mut i: usize = 0;
    while i < valid_length
        invariant
            data == buffer@.take(valid_length as int),
            valid_length <= buffer@.len(),
            start_offset + valid_length <= usize::MAX,
            i <= valid_length,
            out@ + dump_lines(data, i as int, (start_offset + i) as nat) == hexdump(
                data,
                start_offset as nat,
            ),
        decreases valid_length - i,
    {
        let ghost line_start = out@;
        let ghost label = (start_offset + i) as nat;
        push_hex(&mut out, start_offset + i, 8);
        out.push(SPACE);
        assert(out@ =~= line_start + hex_rep(label, 8) + seq![SPACE]);
        let ghost fields_start = out@;
        let remaining: usize = valid_length - i;
        let mut k: usize = 0;
        while k < 8
            invariant
                data == buffer@.take(valid_length as int),
                valid_length <= buffer@.len(),
                i < valid_length,
                remaining == valid_length - i,
                k <= 8,
                out@ + fields_from(data, i as int, k as int) == fields_start + fields_from(
                    data,
                    i as int,
                    0,
                ),
            decreases 8 - k,
        {
            let ghost slot_start = out@;
            let j: usize = 2 * k;
            if j + 1 < remaining {
                let b0: u8 = buffer[i + j];
                let b1: u8 = buffer[i + j + 1];
                assert(b0 == data[i + j]);
                assert(b1 == data[i + j + 1]);
                push_hex(&mut out, b0 as usize, 2);
                push_hex(&mut out, b1 as usize, 2);
                out.push(SPACE);
                assert(out@ =~= slot_start + pair_field(data, i as int, j as int));
            } else if j < remaining {
                let b0: u8 = buffer[i + j];
                assert(b0 == data[i + j]);
                push_hex(&mut out, b0 as usize, 2);
                assert(out@ =~= slot_start + pair_field(data, i as int, j as int));
            } else {
                out.push(SPACE);
                out.push(SPACE);
                out.push(SPACE);
                out.push(SPACE);
                out.push(SPACE);
                assert(out@ =~= slot_start + pair_field(data, i as int, j as int));
            }
            proof {
                assert(fields_from(data, i as int, k as int) == pair_field(data, i as int, 2 * k)
                    + fields_from(data, i as int, k as int + 1));
                assert(out@ + fields_from(data, i as int, k as int + 1) =~= slot_start
                    + fields_from(data, i as int, k as int));
            }
            k = k + 1;
        }
        out.push(NEWLINE);
        proof {
            assert(out@ =~= line_start + line_for(data, i as int, label)) by {
                assert(out@ =~= fields_start + fields_from(data, i as int, 0) + seq![NEWLINE]);
                assert(line_for(data, i as int, label) =~= hex_rep(label, 8) + seq![SPACE]
                    + fields_from(data, i as int, 0) + seq![NEWLINE]);
            }
            assert(dump_lines(data, i as int, label) == line_for(data, i as int, label)
                + dump_lines(data, i as int + 16, label + 16));
            assert(out@ + dump_lines(data, i as int + 16, label + 16) =~= line_start + dump_lines(
                data,
                i as int,
                label,
            ));
        }
        if remaining <= 16 {
            proof {
                assert(dump_lines(data, i as int + 16, label + 16) =~= Seq::<u8>::empty());
                assert(dump_lines(data, valid_length as int, (start_offset + valid_length) as nat)
                    =~= Seq::<u8>::empty());
                assert(out@ + dump_lines(
                    data,
                    valid_length as int,
                    (start_offset + valid_length) as nat,
                ) =~= out@ + dump_lines(data, i as int + 16, label + 16));
            }
            i = valid_length;
        } else {
            i = i + 16;
        }
    }
    proof {
        assert(dump_lines(data, i as int, (start_offset + i) as nat) =~= Seq::<u8>::empty());
        assert(out@ =~= hexdump(data, start_offset as nat));
    }
    out
}

/// Renders all of `data` as hex-dump lines starting at offset zero.
pub fn hexdump_bytes(data: &[u8]) -> (out: Vec<u8>)
    ensures
        out@ == hexdump(data@, 0),
{
    let n: usize = data.len();
    let out = format_hexdump(data, n, 0);
    proof {
        assert(data@.take(n as int) =~= data@);
    }
    out
}

} // verus!

//! Laws of the dump format: how many lines a dump has and what labels
//! they carry, that dumping in budget-clamped chunks equals dumping a
//! prefix in one piece, that the output is a function of its inputs, and
//! the boundary behaviour at empty, even and odd lengths.

use vstd::prelude::*;

use crate::format::{
    NEWLINE, SPACE, dump_lines, fields_from, hexdump, lemma_line_len, line_for, pair_field,
};
use crate::hex::{
    hex_rep, is_hex_digit_byte, lemma_hex_rep_digits, lemma_hex_rep_len, lemma_pow16_8,
};

verus! {

/// How many newline bytes `s` holds; each dump line ends in exactly one.
pub open spec fn line_count(s: Seq<u8>) -> nat
    decreases s.len(),
{
    if s.len() == 0 {
        0
    } else {
        line_count(s.drop_last()) + (if s.last() == NEWLINE {
            1nat
        } else {
            0nat
        })
    }
}

/// Whether no byte of `s` is a newline.
pub open spec fn no_newline(s: Seq<u8>) -> bool {
    forall|t: int| 0 <= t < s.len() ==> s[t] != NEWLINE
}

proof fn lemma_line_count_concat(a: Seq<u8>, b: Seq<u8>)
    ensures
        line_count(a + b) == line_count(a) + line_count(b),
    decreases b.len(),
{
    if b.len() == 0 {
        assert(a + b =~= a);
    } else {
        assert((a + b).drop_last() =~= a + b.drop_last());
        assert((a + b).last() == b.last());
        lemma_line_count_concat(a, b.drop_last());
    }
}

proof fn lemma_no_newline_count(s: Seq<u8>)
    requires
        no_newline(s),
    ensures
        line_count(s) == 0,
    decreases s.len(),
{
    if s.len() > 0 {
        lemma_no_newline_count(s.drop_last());
    }
}

proof fn lemma_fields_no_newline(data: Seq<u8>, i: int, k: int)
    ensures
        no_newline(fields_from(data, i, k)),
    decreases 8 - k,
{
    if 0 <= k < 8 {
        let j = 2 * k;
        if i + j < data.len() {
            lemma_hex_rep_digits(data[i + j] as nat, 2);
        }
        if i + j + 1 < data.len() {
            lemma_hex_rep_digits(data[i + j + 1] as nat, 2);
        }
        assert forall|t: int| 0 <= t < pair_field(data, i, j).len() implies pair_field(
            data,
            i,
            j,
        )[t] != NEWLINE by {
            assert(is_hex_digit_byte(pair_field(data, i, j)[t]) || pair_field(data, i, j)[t]
                == SPACE);
        }
        lemma_fields_no_newline(data, i, k + 1);
    }
}

/// Each line holds exactly one newline, its last byte.
proof fn lemma_line_count_one(data: Seq<u8>, i: int, label: nat)
    ensures
        line_count(line_for(data, i, label)) == 1,
{
    let body = hex_rep(label, 8) + seq![SPACE] + fields_from(data, i, 0);
    lemma_hex_rep_digits(label, 8);
    lemma_fields_no_newline(data, i, 0);
    assert(no_newline(body)) by {
        assert forall|t: int| 0 <= t < body.len() implies body[t] != NEWLINE by {
            let r = hex_rep(label, 8);
            let f = fields_from(data, i, 0);
            if t < r.len() {
                assert(body[t] == r[t]);
                assert(is_hex_digit_byte(r[t]));
            } else if t == r.len() {
                assert(body[t] == SPACE);
            } else {
                assert(body[t] == f[t - r.len() - 1]);
            }
        }
    }
    lemma_no_newline_count(body);
    lemma_line_count_concat(body, seq![NEWLINE]);
    assert(line_count(seq![NEWLINE]) == 1) by {
        let one = seq![NEWLINE];
        assert(one.len() == 1);
        assert(one.last() == NEWLINE);
        assert(one.drop_last() =~= Seq::<u8>::empty());
        assert(line_count(Seq::<u8>::empty()) == 0);
    }
    assert(line_for(data, i, label) =~= body + seq![NEWLINE]);
}

proof fn lemma_dump_lines_count(data: Seq<u8>, i: int, label: nat)
    requires
        0 <= i,
    ensures
        line_count(dump_lines(data, i, label)) == if i >= data.len() {
            0int
        } else {
            (data.len() - i - 1) / 16 + 1
        },
    decreases data.len() - i + 16,
{
    if i < data.len() {
        lemma_line_count_one(data, i, label);
        lemma_line_count_concat(line_for(data, i, label), dump_lines(data, i + 16, label + 16));
        lemma_dump_lines_count(data, i + 16, label + 16);
        if i + 16 < data.len() {
            assert((data.len() - i - 1) / 16 == (data.len() - i - 17) / 16 + 1) by {
                vstd::arithmetic::div_mod::lemma_div_plus_one(data.len() - i - 17, 16);
            }
        }
    }
}

/// Law: a dump of `data` holds exactly one line per started group of 16
/// bytes — `ceil(len / 16)` lines in all.
pub proof fn lemma_dump_line_count(data: Seq<u8>, start_offset: nat)
    ensures
        line_count(hexdump(data, start_offset)) == (data.len() + 15) / 16,
{
    lemma_dump_lines_count(data, 0, start_offset);
    if data.len() > 0 {
        assert((data.len() - 1) / 16 + 1 == (data.len() + 15) / 16) by {
            vstd::arithmetic::div_mod::lemma_div_plus_one(data.len() - 1, 16);
        }
    }
}

/// Law: line `k` of a dump starts at byte `50 * k` of the output and its
/// first eight bytes are the offset label `start_offset + 16 * k`, written
/// as eight zero-padded lowercase hexadecimal digits.  This needs every
/// label of the dump to fit in eight digits.
pub proof fn lemma_kth_line_label(data: Seq<u8>, start_offset: nat, k: int)
    requires
        0 <= k,
        16 * k < data.len(),
        start_offset + data.len() <= 0x100000000,
    ensures
        hexdump(data, start_offset).subrange(50 * k, 50 * k + 8) == hex_rep(
            (start_offset + 16 * k) as nat,
            8,
        ),
{
    lemma_label_pos(data, 0, start_offset, k);
}

proof fn lemma_dump_lines_len_lower(data: Seq<u8>, i: int, label: nat, k: int)
    requires
        0 <= i,
        0 <= k,
        i + 16 * k < data.len(),
        label + (data.len() - i) <= 0x100000000,
    ensures
        dump_lines(data, i, label).len() >= 50 * k + 10,
    decreases k,
{
    lemma_pow16_8();
    lemma_line_len(data, i, label);
    if k > 0 {
        lemma_dump_lines_len_lower(data, i + 16, label + 16, k - 1);
    }
}

proof fn lemma_label_pos(data: Seq<u8>, i: int, label: nat, k: int)
    requires
        0 <= i,
        0 <= k,
        i + 16 * k < data.len(),
        label + (data.len() - i) <= 0x100000000,
    ensures
        dump_lines(data, i, label).subrange(50 * k, 50 * k + 8) == hex_rep(
            (label + 16 * k) as nat,
            8,
        ),
    decreases k,
{
    lemma_pow16_8();
    let line = line_for(data, i, label);
    let rest = dump_lines(data, i + 16, label + 16);
    assert(dump_lines(data, i, label) == line + rest);
    if k == 0 {
        lemma_hex_rep_len(label, 8);
        let r = hex_rep(label, 8);
        assert((line + rest).subrange(0, 8) =~= r);
    } else {
        assert(data.len() - i >= 16);
        lemma_line_len(data, i, label);
        assert(line.len() == 50);
        lemma_dump_lines_len_lower(data, i + 16, label + 16, k - 1);
        lemma_label_pos(data, i + 16, label + 16, k - 1);
        assert((line + rest).subrange(50 * k, 50 * k + 8) =~= rest.subrange(
            50 * (k - 1),
            50 * (k - 1) + 8,
        ));
    }
}

/// What one full run of the read loop prints: from `offset`, each
/// iteration reads up to `chunk` of the remaining bytes of `file`, clamps
/// them against the budget `limit`, dumps the clamped span, and stops at
/// end of file or a met budget.
pub open spec fn run_output(file: Seq<u8>, offset: nat, limit: nat, chunk: nat) -> Seq<u8>
    decreases file.len() - offset,
{
    if chunk == 0 || offset >= file.len() || offset >= limit {
        Seq::empty()
    } else {
        let bytes_read: int = if chunk <= file.len() - offset {
            chunk as int
        } else {
            file.len() - offset
        };
        let to_print: int = if bytes_read <= limit - offset {
            bytes_read
        } else {
            limit - offset
        };
        hexdump(file.subrange(offset as int, offset + to_print), offset) + run_output(
            file,
            (offset + to_print) as nat,
            limit,
            chunk,
        )
    }
}

proof fn lemma_fields_take(data: Seq<u8>, m: int, i: int, k: int)
    requires
        0 <= i,
        i + 16 <= m <= data.len(),
        0 <= k <= 8,
    ensures
        fields_from(data, i, k) == fields_from(data.take(m), i, k),
    decreases 8 - k,
{
    if k < 8 {
        let j = 2 * k;
        assert(pair_field(data, i, j) =~= pair_field(data.take(m), i, j));
        lemma_fields_take(data, m, i, k + 1);
        assert(fields_from(data, i, k) =~= fields_from(data.take(m), i, k));
    }
}

proof fn lemma_fields_skip(data: Seq<u8>, m: int, i: int, k: int)
    requires
        0 <= m <= i,
        m <= data.len(),
        0 <= k <= 8,
    ensures
        fields_from(data, i, k) == fields_from(data.skip(m), i - m, k),
    decreases 8 - k,
{
    if k < 8 {
        let j = 2 * k;
        assert(pair_field(data, i, j) =~= pair_field(data.skip(m), i - m, j));
        lemma_fields_skip(data, m, i, k + 1);
        assert(fields_from(data, i, k) =~= fields_from(data.skip(m), i - m, k));
    }
}

proof fn lemma_dump_lines_skip(data: Seq<u8>, m: int, i: int, label: nat)
    requires
        0 <= m <= i,
        m <= data.len(),
    ensures
        dump_lines(data, i, label) == dump_lines(data.skip(m), i - m, label),
    decreases data.len() - i + 16,
{
    if i < data.len() {
        lemma_fields_skip(data, m, i, 0);
        assert(line_for(data, i, label) == line_for(data.skip(m), i - m, label));
        lemma_dump_lines_skip(data, m, i + 16, label + 16);
        assert(dump_lines(data, i, label) =~= dump_lines(data.skip(m), i - m, label));
    } else {
        assert(dump_lines(data, i, label) =~= Seq::<u8>::empty());
        assert(dump_lines(data.skip(m), i - m, label) =~= Seq::<u8>::empty());
    }
}

proof fn lemma_dump_lines_take(data: Seq<u8>, m: int, i: int, label: nat)
    requires
        0 <= i <= m <= data.len(),
        (m - i) % 16 == 0,
    ensures
        dump_lines(data, i, label) == dump_lines(data.take(m), i, label) + dump_lines(
            data,
            m,
            (label + (m - i)) as nat,
        ),
    decreases m - i,
{
    if i == m {
        assert(dump_lines(data.take(m), i, label) =~= Seq::<u8>::empty());
        assert(dump_lines(data, i, label) =~= dump_lines(data.take(m), i, label) + dump_lines(
            data,
            m,
            (label + (m - i)) as nat,
        ));
    } else {
        assert(i + 16 <= m);
        lemma_fields_take(data, m, i, 0);
        assert(line_for(data, i, label) == line_for(data.take(m), i, label));
        lemma_dump_lines_take(data, m, i + 16, (label + 16) as nat);
        assert(dump_lines(data, i, label) =~= dump_lines(data.take(m), i, label) + dump_lines(
            data,
            m,
            (label + (m - i)) as nat,
        ));
    }
}

/// A dump splits at any 16-byte boundary: the lines for the first `m`
/// bytes, then the lines for the rest, labelled `m` further on.
pub proof fn lemma_dump_split(data: Seq<u8>, start_offset: nat, m: int)
    requires
        0 <= m <= data.len(),
        m % 16 == 0,
    ensures
        hexdump(data, start_offset) == hexdump(data.take(m), start_offset) + hexdump(
            data.skip(m),
            (start_offset + m) as nat,
        ),
{
    lemma_dump_lines_take(data, m, 0, start_offset);
    lemma_dump_lines_skip(data, m, m, (start_offset + m) as nat);
}

proof fn lemma_run_output_dump(file: Seq<u8>, offset: nat, limit: nat, chunk: nat)
    requires
        chunk > 0,
        chunk % 16 == 0,
        offset <= limit,
        offset <= file.len(),
    ensures
        run_output(file, offset, limit, chunk) == hexdump(
            file.subrange(
                offset as int,
                if limit <= file.len() {
                    limit as int
                } else {
                    file.len() as int
                },
            ),
            offset,
        ),
    decreases file.len() - offset,
{
    let end: int = if limit <= file.len() {
        limit as int
    } else {
        file.len() as int
    };
    if offset >= file.len() || offset >= limit {
        assert(end == offset);
        assert(file.subrange(offset as int, end) =~= Seq::<u8>::empty());
        assert(hexdump(Seq::<u8>::empty(), offset) =~= Seq::<u8>::empty());
    } else {
        let bytes_read: int = if chunk <= file.len() - offset {
            chunk as int
        } else {
            file.len() - offset
        };
        let to_print: int = if bytes_read <= limit - offset {
            bytes_read
        } else {
            limit - offset
        };
        if offset + to_print >= end {
            assert(offset + to_print == end);
            assert(run_output(file, (offset + to_print) as nat, limit, chunk) =~= Seq::<
                u8,
            >::empty());
            assert(run_output(file, offset, limit, chunk) =~= hexdump(
                file.subrange(offset as int, end),
                offset,
            ));
        } else {
            assert(to_print == chunk);
            let big = file.subrange(offset as int, end);
            assert(big.take(chunk as int) =~= file.subrange(
                offset as int,
                offset as int + chunk as int,
            ));
            assert(big.skip(chunk as int) =~= file.subrange(offset as int + chunk as int, end));
            lemma_dump_split(big, offset, chunk as int);
            lemma_run_output_dump(file, (offset + chunk) as nat, limit, chunk);
            assert(run_output(file, offset, limit, chunk) =~= hexdump(big, offset));
        }
    }
}

/// Law: with a budget of `budget` bytes, the read loop's whole output is
/// the dump of the first `budget` bytes of the file, exactly as if that
/// prefix had been dumped with no budget at all.  `chunk` is the staging
/// buffer's capacity, a positive multiple of 16.
pub proof fn lemma_budget_prefix(file: Seq<u8>, budget: nat, unbounded: nat, chunk: nat)
    requires
        chunk > 0,
        chunk % 16 == 0,
        budget <= file.len(),
        budget <= unbounded,
    ensures
        run_output(file, 0, budget, chunk) == run_output(file.take(budget as int), 0, unbounded, chunk),
        run_output(file, 0, budget, chunk) == hexdump(file.take(budget as int), 0),
{
    lemma_run_output_dump(file, 0, budget, chunk);
    lemma_run_output_dump(file.take(budget as int), 0, unbounded, chunk);
    let prefix = file.take(budget as int);
    assert(file.subrange(0, budget as int) =~= prefix);
    let end: int = if unbounded <= prefix.len() {
        unbounded as int
    } else {
        prefix.len() as int
    };
    assert(prefix.subrange(0, end) =~= prefix);
}

/// Law: with no budget — any limit at least the file's length — the read
/// loop's whole output is the one-piece dump of the whole file.
pub proof fn lemma_unbounded_run(file: Seq<u8>, limit: nat, chunk: nat)
    requires
        chunk > 0,
        chunk % 16 == 0,
        limit >= file.len(),
    ensures
        run_output(file, 0, limit, chunk) == hexdump(file, 0),
{
    lemma_run_output_dump(file, 0, limit, chunk);
    assert(file.subrange(
        0,
        if limit <= file.len() {
            limit as int
        } else {
            file.len() as int
        },
    ) =~= file);
}

/// Law: the dump is a function of the bytes, the valid length and the
/// starting offset alone; two renderings of the same span are
/// byte-identical.
pub proof fn lemma_dump_deterministic(data: Seq<u8>, start_offset: nat, out1: Seq<u8>, out2: Seq<u8>)
    requires
        out1 == hexdump(data, start_offset),
        out2 == hexdump(data, start_offset),
    ensures
        out1 == out2,
{
}

/// Law: a span of no bytes dumps to no output at all — zero lines.
pub proof fn lemma_empty_dump(data: Seq<u8>, start_offset: nat)
    requires
        data.len() == 0,
    ensures
        hexdump(data, start_offset) == Seq::<u8>::empty(),
        line_count(hexdump(data, start_offset)) == 0,
{
    assert(hexdump(data, start_offset) =~= Seq::<u8>::empty());
}

/// Law: in any line that still has 16 bytes of data ahead of it — every
/// line of a dump whose length is a multiple of 16, and every line but
/// the last of any dump — each of the eight slots holds a full pair and a
/// trailing space; no blank padding appears.
pub proof fn lemma_full_line_no_padding(data: Seq<u8>, i: int, k: int)
    requires
        0 <= i,
        i + 16 <= data.len(),
        0 <= k < 8,
    ensures
        pair_field(data, i, 2 * k) == hex_rep(data[i + 2 * k] as nat, 2) + hex_rep(
            data[i + 2 * k + 1] as nat,
            2,
        ) + seq![SPACE],
{
}

/// Law: when the dump's length is a positive multiple of 16, every line
/// is full, so no blank padding appears anywhere.
pub proof fn lemma_multiple_of_16_no_padding(data: Seq<u8>, i: int, k: int)
    requires
        data.len() % 16 == 0,
        0 <= i < data.len(),
        i % 16 == 0,
        0 <= k < 8,
    ensures
        pair_field(data, i, 2 * k) == hex_rep(data[i + 2 * k] as nat, 2) + hex_rep(
            data[i + 2 * k + 1] as nat,
            2,
        ) + seq![SPACE],
{
    assert((data.len() - i) % 16 == 0) by {
        vstd::arithmetic::div_mod::lemma_fundamental_div_mod(i, 16);
        assert(i == 16 * (i / 16));
        vstd::arithmetic::div_mod::lemma_mod_multiples_vanish(
            -(i / 16),
            data.len() as int,
            16,
        );
    }
    assert(data.len() - i >= 16);
    lemma_full_line_no_padding(data, i, k);
}

/// Law: when the valid length is odd, the final byte's pair slot prints
/// its two digits and no trailing space.
pub proof fn lemma_odd_tail(data: Seq<u8>)
    requires
        data.len() % 2 == 1,
    ensures
        pair_field(
            data,
            16 * ((data.len() - 1) / 16),
            data.len() - 1 - 16 * ((data.len() - 1) / 16),
        ) == hex_rep(data[data.len() - 1] as nat, 2),
{
    let i = 16 * ((data.len() - 1) / 16);
    let j = data.len() - 1 - i;
    assert(i + j == data.len() - 1);
    assert(i + j + 1 == data.len());
}

} // verus!

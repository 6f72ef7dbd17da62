use vstd::prelude::*;

use crate::diagnostic::{Position, Range};
use crate::parser::{shifted_position, Point};
use vstd::string::StringSliceAdditionalSpecFns;

verus! {

/// Number of line feeds in `bytes`.
pub open spec fn count_newlines(bytes: Seq<u8>) -> nat
    decreases bytes.len(),
{
    if bytes.len() == 0 {
        0
    } else {
        count_newlines(bytes.drop_last()) + if bytes.last() == 10u8 { 1nat } else { 0nat }
    }
}

/// The column reached after `bytes`, starting at column `start`: bytes since the
/// last line feed, or `start` plus the length when there is none.
pub open spec fn column_after(bytes: Seq<u8>, start: nat) -> nat
    decreases bytes.len(),
{
    if bytes.len() == 0 {
        start
    } else if bytes.last() == 10u8 {
        0
    } else {
        column_after(bytes.drop_last(), start) + 1
    }
}

/// The position reached after walking over `bytes` from `base`.
pub open spec fn position_after(base: Point, bytes: Seq<u8>) -> Position {
    Position {
        row: (base.row + count_newlines(bytes)) as usize,
        column: column_after(bytes, base.column as nat) as usize,
    }
}

/// The first `offset` bytes of `bytes`, or all of them when there are fewer.
pub open spec fn clamped_prefix(bytes: Seq<u8>, offset: int) -> Seq<u8> {
    if offset < bytes.len() {
        bytes.take(offset)
    } else {
        bytes
    }
}

/// The position of byte `offset` of `bytes`, counted from `base`, fits in `usize`.
pub open spec fn position_fits(bytes: Seq<u8>, base: Point, offset: int) -> bool {
    &&& base.row + clamped_prefix(bytes, offset).len() <= usize::MAX
    &&& base.column + clamped_prefix(bytes, offset).len() <= usize::MAX
}

pub proof fn lemma_counts_bounded(bytes: Seq<u8>, start: nat)
    ensures
        count_newlines(bytes) <= bytes.len(),
        column_after(bytes, start) <= start + bytes.len(),
    decreases bytes.len(),
{
    if bytes.len() > 0 {
        lemma_counts_bounded(bytes.drop_last(), start);
    }
}

/// The starting column matters only on the first row.
proof fn lemma_column_after_start(bytes: Seq<u8>, start: nat)
    ensures
        column_after(bytes, start) == if count_newlines(bytes) == 0 {
            start + column_after(bytes, 0)
        } else {
            column_after(bytes, 0)
        },
    decreases bytes.len(),
{
    if bytes.len() > 0 {
        lemma_column_after_start(bytes.drop_last(), start);
    }
}

/// A position counted from the start of a fragment and then shifted by the
/// fragment's base is the position counted from the base directly.
pub proof fn lemma_shifted_position(bytes: Seq<u8>, base: Point)
    requires
        base.row + bytes.len() <= usize::MAX,
        base.column + bytes.len() <= usize::MAX,
    ensures
        ({
            let relative = position_after(Point { row: 0, column: 0 }, bytes);
            shifted_position(Point { row: relative.row, column: relative.column }, base)
                == position_after(base, bytes)
        }),
{
    lemma_counts_bounded(bytes, 0);
    lemma_counts_bounded(bytes, base.column as nat);
    lemma_column_after_start(bytes, base.column as nat);
}

/// The position of byte `offset` of `source`, where `source` itself starts at `base`.
pub fn position_for_offset(source: &str, base: Point, offset: usize) -> (position: Position)
    requires
        position_fits(source.spec_bytes(), base, offset as int),
    ensures
        position == position_after(base, clamped_prefix(source.spec_bytes(), offset as int)),
{
    let bytes = source.as_bytes();
    position_in_bytes(bytes, base, offset)
}

/// [`position_for_offset`] on the bytes of the text.
pub fn position_in_bytes(bytes: &[u8], base: Point, offset: usize) -> (position: Position)
    requires
        position_fits(bytes@, base, offset as int),
    ensures
        position == position_after(base, clamped_prefix(bytes@, offset as int)),
{
    let end = if offset < bytes.len() { offset } else { bytes.len() };
    let mut row = base.row;
    let mut column = base.column;
    let mut i: usize = 0;
    proof {
        assert(bytes@.take(0) =~= Seq::<u8>::empty());
        assert(clamped_prefix(bytes@, offset as int) =~= bytes@.take(end as int));
    }
    while i < end
        invariant
            end <= bytes@.len(),
            clamped_prefix(bytes@, offset as int) =~= bytes@.take(end as int),
            base.row + end <= usize::MAX,
            base.column + end <= usize::MAX,
            i <= end,
            row == base.row + count_newlines(bytes@.take(i as int)),
            column == column_after(bytes@.take(i as int), base.column as nat),
        decreases end - i,
    {
        proof {
            assert(bytes@.take(i + 1).drop_last() =~= bytes@.take(i as int));
            lemma_counts_bounded(bytes@.take(i as int), base.column as nat);
        }
        if bytes[i] == 10u8 {
            row = row + 1;
            column = 0;
        } else {
            column = column + 1;
        }
        i = i + 1;
    }
    Position { row, column }
}

/// The range between byte offsets `start` and `end` of `source`, where `source`
/// starts at byte `base_byte` and position `base_position` of a larger text.
pub fn range_for_offsets(
    source: &str,
    base_byte: usize,
    base_position: Point,
    start: usize,
    end: usize,
) -> (range: Range)
    requires
        position_fits(source.spec_bytes(), base_position, start as int),
        position_fits(source.spec_bytes(), base_position, end as int),
        base_byte + start <= usize::MAX,
        base_byte + end <= usize::MAX,
    ensures
        range == span_range(source.spec_bytes(), base_byte, base_position, start, end),
{
    range_in_bytes(source.as_bytes(), base_byte, base_position, start, end)
}

/// The range of bytes `start..end` of `bytes`, shifted by `base_byte` and `base_position`.
pub open spec fn span_range(
    bytes: Seq<u8>,
    base_byte: usize,
    base_position: Point,
    start: usize,
    end: usize,
) -> Range {
    Range {
        start: position_after(base_position, clamped_prefix(bytes, start as int)),
        end: position_after(base_position, clamped_prefix(bytes, end as int)),
        start_byte: (base_byte + start) as usize,
        end_byte: (base_byte + end) as usize,
    }
}

/// [`range_for_offsets`] on the bytes of the text.
pub fn range_in_bytes(
    bytes: &[u8],
    base_byte: usize,
    base_position: Point,
    start: usize,
    end: usize,
) -> (range: Range)
    requires
        position_fits(bytes@, base_position, start as int),
        position_fits(bytes@, base_position, end as int),
        base_byte + start <= usize::MAX,
        base_byte + end <= usize::MAX,
    ensures
        range == span_range(bytes@, base_byte, base_position, start, end),
{
    Range {
        start: position_in_bytes(bytes, base_position, start),
        end: position_in_bytes(bytes, base_position, end),
        start_byte: base_byte + start,
        end_byte: base_byte + end,
    }
}

} // verus!

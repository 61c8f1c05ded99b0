//! Ragged, append-only table growth: rows are addressed by index, created
//! lazily the first time data targets them, and padded with placeholder
//! cells — one per column already contributed — so that each contributor's
//! column block keeps its fixed offset across the whole table.

use vstd::prelude::*;

verus! {

/// A row of `n` copies of `x`.
pub open spec fn repeat_val<T>(x: T, n: nat) -> Seq<T> {
    Seq::new(n, |i: int| x)
}

/// A row extended with placeholder cells up to `width`; a row already that
/// wide stays as it is.
pub open spec fn pad_to<T>(row: Seq<T>, width: int, pad: T) -> Seq<T> {
    if row.len() >= width {
        row
    } else {
        row + repeat_val(pad, (width - row.len()) as nat)
    }
}

/// One contributor's column-aligned fold into a ragged table.  Row `r` of
/// the result:
/// - reached by a block: the existing row, padded with placeholder cells up
///   to `target` (the full width contributed so far), then the block — so
///   the block always starts at column `target`;
/// - not reached, but existing: unchanged (no synthetic padding for rows no
///   later contributor extends);
/// - not existing yet: created as `new_prefix` (one placeholder per column
///   contributed so far) followed by the block.
pub open spec fn aligned_fill<T>(
    rows: Seq<Seq<T>>,
    blocks: Seq<Seq<T>>,
    target: int,
    pad: T,
    new_prefix: Seq<T>,
) -> Seq<Seq<T>> {
    Seq::new(
        if rows.len() >= blocks.len() {
            rows.len()
        } else {
            blocks.len()
        },
        |r: int|
            if r < blocks.len() {
                (if r < rows.len() {
                    pad_to(rows[r], target, pad)
                } else {
                    new_prefix
                }) + blocks[r]
            } else {
                rows[r]
            },
    )
}

/// How one more block changes the partially folded aligned table: an update
/// of an existing row, or the creation of exactly one new padded row.
pub proof fn lemma_aligned_step<T>(
    rows: Seq<Seq<T>>,
    blocks: Seq<Seq<T>>,
    target: int,
    pad: T,
    new_prefix: Seq<T>,
    i: int,
)
    requires
        0 <= i < blocks.len(),
    ensures
        i < rows.len() ==> aligned_fill(rows, blocks.take(i + 1), target, pad, new_prefix)
            == aligned_fill(rows, blocks.take(i), target, pad, new_prefix).update(
            i,
            pad_to(rows[i], target, pad) + blocks[i],
        ),
        i >= rows.len() ==> aligned_fill(rows, blocks.take(i + 1), target, pad, new_prefix)
            == aligned_fill(rows, blocks.take(i), target, pad, new_prefix).push(
            new_prefix + blocks[i],
        ),
{
    if i < rows.len() {
        assert(aligned_fill(rows, blocks.take(i + 1), target, pad, new_prefix) =~= aligned_fill(
            rows,
            blocks.take(i),
            target,
            pad,
            new_prefix,
        ).update(i, pad_to(rows[i], target, pad) + blocks[i]));
    } else {
        assert(aligned_fill(rows, blocks.take(i + 1), target, pad, new_prefix) =~= aligned_fill(
            rows,
            blocks.take(i),
            target,
            pad,
            new_prefix,
        ).push(new_prefix + blocks[i]));
    }
}

/// The cell-placement facts of one aligned fold, for rows no wider than the
/// contributed width: a reached row ends exactly at `target` plus its
/// block's width, with the block's cells standing at columns `target`
/// onward; and no existing cell moves.
pub proof fn lemma_aligned_fill_cells<T>(
    rows: Seq<Seq<T>>,
    blocks: Seq<Seq<T>>,
    target: int,
    pad: T,
    new_prefix: Seq<T>,
)
    requires
        new_prefix.len() == target,
        forall|r: int| 0 <= r < rows.len() ==> #[trigger] rows[r].len() <= target,
    ensures
        forall|r: int|
            0 <= r < blocks.len() ==> #[trigger] aligned_fill(
                rows,
                blocks,
                target,
                pad,
                new_prefix,
            )[r].len() == target + blocks[r].len(),
        forall|r: int, t: int|
            0 <= r < blocks.len() && 0 <= t < blocks[r].len() ==> #[trigger] aligned_fill(
                rows,
                blocks,
                target,
                pad,
                new_prefix,
            )[r][target + t] == blocks[r][t],
        forall|r: int, i: int|
            0 <= r < rows.len() && 0 <= i < rows[r].len() ==> #[trigger] aligned_fill(
                rows,
                blocks,
                target,
                pad,
                new_prefix,
            )[r][i] == rows[r][i],
{
    let out = aligned_fill(rows, blocks, target, pad, new_prefix);
    assert forall|r: int| 0 <= r < blocks.len() implies #[trigger] out[r].len() == target
        + blocks[r].len() by {
        if r < rows.len() {
            assert(pad_to(rows[r], target, pad).len() == target);
        }
    }
    assert forall|r: int, t: int|
        0 <= r < blocks.len() && 0 <= t < blocks[r].len() implies #[trigger] out[r][target + t]
        == blocks[r][t] by {
        if r < rows.len() {
            assert(pad_to(rows[r], target, pad).len() == target);
        }
    }
    assert forall|r: int, i: int|
        0 <= r < rows.len() && 0 <= i < rows[r].len() implies #[trigger] out[r][i]
        == rows[r][i] by {
        if r < blocks.len() {
            assert(pad_to(rows[r], target, pad)[i] == rows[r][i]);
        }
    }
}

/// One contributor's contribution folded into the per-sample value rows:
/// row `r` gains the block `blocks[r]`; rows the contributor does not reach
/// stay as they are; rows the table does not have yet are created as
/// `new_prefix` followed by the block.
pub open spec fn fill_file_rows<T>(
    rows: Seq<Seq<T>>,
    blocks: Seq<Seq<T>>,
    new_prefix: Seq<T>,
) -> Seq<Seq<T>> {
    Seq::new(
        if rows.len() >= blocks.len() {
            rows.len()
        } else {
            blocks.len()
        },
        |r: int|
            if r < rows.len() {
                if r < blocks.len() {
                    rows[r] + blocks[r]
                } else {
                    rows[r]
                }
            } else {
                new_prefix + blocks[r]
            },
    )
}

/// How one more block changes the partially folded table: an update of an
/// existing row, or the creation of exactly one new padded row.
pub proof fn lemma_fill_step<T>(rows: Seq<Seq<T>>, blocks: Seq<Seq<T>>, new_prefix: Seq<T>, i: int)
    requires
        0 <= i < blocks.len(),
    ensures
        i < rows.len() ==> fill_file_rows(rows, blocks.take(i + 1), new_prefix)
            == fill_file_rows(rows, blocks.take(i), new_prefix).update(i, rows[i] + blocks[i]),
        i >= rows.len() ==> fill_file_rows(rows, blocks.take(i + 1), new_prefix)
            == fill_file_rows(rows, blocks.take(i), new_prefix).push(new_prefix + blocks[i]),
{
    if i < rows.len() {
        assert(fill_file_rows(rows, blocks.take(i + 1), new_prefix) =~= fill_file_rows(
            rows,
            blocks.take(i),
            new_prefix,
        ).update(i, rows[i] + blocks[i]));
    } else {
        assert(fill_file_rows(rows, blocks.take(i + 1), new_prefix) =~= fill_file_rows(
            rows,
            blocks.take(i),
            new_prefix,
        ).push(new_prefix + blocks[i]));
    }
}

/// The contents of a table: the view of each row.
pub open spec fn rows_view<T>(rows: Seq<Vec<T>>) -> Seq<Seq<T>> {
    rows.map_values(|v: Vec<T>| v@)
}

/// Appends `cells` to row `i`, in place.
pub fn append_cells<T>(rows: &mut Vec<Vec<T>>, i: usize, cells: Vec<T>)
    requires
        i < old(rows)@.len(),
    ensures
        rows_view(final(rows)@) == rows_view(old(rows)@).update(
            i as int,
            old(rows)@[i as int]@ + cells@,
        ),
{
    let row = &mut rows[i];
    let mut cs = cells;
    row.append(&mut cs);
    proof {
        assert(rows_view(rows@) =~= rows_view(old(rows)@).update(
            i as int,
            old(rows)@[i as int]@ + cells@,
        ));
    }
}

/// Appends one cell to row `i`, in place.
pub fn push_cell<T>(rows: &mut Vec<Vec<T>>, i: usize, cell: T)
    requires
        i < old(rows)@.len(),
    ensures
        rows_view(final(rows)@) == rows_view(old(rows)@).update(
            i as int,
            old(rows)@[i as int]@.push(cell),
        ),
{
    let row = &mut rows[i];
    row.push(cell);
    proof {
        assert(rows_view(rows@) =~= rows_view(old(rows)@).update(
            i as int,
            old(rows)@[i as int]@.push(cell),
        ));
    }
}

/// A vector holding `n` copies of `x`.
pub fn vec_repeat<T: Copy>(x: T, n: usize) -> (r: Vec<T>)
    ensures
        r@ == repeat_val(x, n as nat),
{
    let mut r: Vec<T> = Vec::new();
    let mut i: usize = 0;
    while i < n
        invariant
            i <= n,
            r@.len() == i,
            forall|k: int| 0 <= k < i ==> r@[k] == x,
        decreases n - i,
    {
        r.push(x);
        i += 1;
    }
    proof {
        assert(r@ =~= repeat_val(x, n as nat));
    }
    r
}

} // verus!

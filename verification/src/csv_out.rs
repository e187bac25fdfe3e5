//! The CSV form of a quantized grid: one record per grid row, fields the
//! decimal form of each level, records closed by a newline, row 0 first.

use vstd::prelude::*;

verus! {

use vstd::arithmetic::div_mod::lemma_div_denominator;
use crate::grid::LevelGrid;

/// Decimal digits of `n`, most significant first.
pub open spec fn dec_bytes(n: int) -> Seq<u8>
    decreases n,
    when n >= 0
{
    if n < 10 {
        seq![(n + 48) as u8]
    } else {
        dec_bytes(n / 10).push((n % 10 + 48) as u8)
    }
}

/// One CSV record: the fields of a row, comma-separated.
pub open spec fn row_bytes(row: Seq<u8>) -> Seq<u8>
    decreases row.len(),
{
    if row.len() == 0 {
        Seq::empty()
    } else if row.len() == 1 {
        dec_bytes(row[0] as int)
    } else {
        row_bytes(row.drop_last()) + seq![44u8] + dec_bytes(row.last() as int)
    }
}

/// The first `y` records of a grid laid out row-major in `cells`, each
/// closed by a newline.
pub open spec fn csv_prefix(cells: Seq<u8>, size: int, y: int) -> Seq<u8>
    decreases y,
    when y >= 0
{
    if y <= 0 {
        Seq::empty()
    } else {
        csv_prefix(cells, size, y - 1) + row_bytes(cells.subrange((y - 1) * size, (y - 1) * size + size))
            + seq![10u8]
    }
}

/// The whole CSV document of a quantized grid.
pub open spec fn grid_csv(g: LevelGrid) -> Seq<u8> {
    csv_prefix(g.cells@, g.size as int, g.size as int)
}

/// Appends the decimal form of `v`, without sign or padding.
pub(crate) fn push_dec_u8(out: &mut Vec<u8>, v: u8)
    ensures
        final(out)@ == old(out)@ + dec_bytes(v as int),
{
    if v < 10 {
        out.push(v + 48);
        proof {
            assert(out@ =~= old(out)@ + dec_bytes(v as int));
        }
    } else if v < 100 {
        out.push(v / 10 + 48);
        out.push(v % 10 + 48);
        proof {
            assert(dec_bytes(v as int / 10) =~= seq![(v as int / 10 + 48) as u8]);
            assert(out@ =~= old(out)@ + dec_bytes(v as int));
        }
    } else {
        out.push(v / 100 + 48);
        out.push((v / 10) % 10 + 48);
        out.push(v % 10 + 48);
        proof {
            lemma_div_denominator(v as int, 10, 10);
            assert(dec_bytes(v as int / 100) =~= seq![(v as int / 100 + 48) as u8]);
            assert(dec_bytes(v as int / 10) =~= seq![
                (v as int / 100 + 48) as u8,
                ((v as int / 10) % 10 + 48) as u8,
            ]);
            assert(out@ =~= old(out)@ + dec_bytes(v as int));
        }
    }
}

/// Lays a quantized grid out as CSV bytes: `size` records of `size` decimal
/// fields each, in grid order, so the text reads north-up and west-left.
#[verifier::loop_isolation(false)]
pub fn format_grid_csv(grid: &LevelGrid) -> (out: Vec<u8>)
    requires
        grid.wf(),
    ensures
        out@ == grid_csv(*grid),
{
    let size = grid.size;
    let mut out: Vec<u8> = Vec::new();
    let mut y: usize = 0;
    proof {
        vstd::arithmetic::mul::lemma_mul_upper_bound(size as int, 1000, size as int, 1000);
    }
    while y < size
        invariant
            y <= size,
            out@ == csv_prefix(grid.cells@, size as int, y as int),
        decreases size - y,
    {
        proof {
            vstd::arithmetic::mul::lemma_mul_upper_bound(y as int, 999, size as int, 1000);
            vstd::arithmetic::mul::lemma_mul_inequality(y as int + 1, size as int, size as int);
            vstd::arithmetic::mul::lemma_mul_is_distributive_add_other_way(size as int, y as int, 1);
        }
        let base = y * size;
        let mut x: usize = 0;
        while x < size
            invariant
                x <= size,
                base == y * size,
                base + size <= grid.cells.len(),
                out@ == csv_prefix(grid.cells@, size as int, y as int) + row_bytes(
                    grid.cells@.subrange(base as int, base + x),
                ),
            decreases size - x,
        {
            if x > 0 {
                out.push(44);
            }
            let v = grid.cells[base + x];
            push_dec_u8(&mut out, v);
            proof {
                assert(grid.cells@.subrange(base as int, base + x + 1).drop_last()
                    =~= grid.cells@.subrange(base as int, base + x));
                assert(grid.cells@.subrange(base as int, base + x + 1).last() == grid.cells@[base
                    + x]);
                if x == 0 {
                    assert(grid.cells@.subrange(base as int, base + 1) =~= seq![
                        grid.cells@[base as int],
                    ]);
                }
                assert(out@ =~= csv_prefix(grid.cells@, size as int, y as int) + row_bytes(
                    grid.cells@.subrange(base as int, base + x + 1),
                ));
            }
            x = x + 1;
        }
        out.push(10);
        proof {
            assert(out@ =~= csv_prefix(grid.cells@, size as int, y as int + 1));
        }
        y = y + 1;
    }
    out
}

} // verus!

//! Writing out a tessellated grid: for every raster cell that holds a
//! sample, one record for each of the cells that cover it.
use vstd::prelude::*;
use crate::gpwascii::GpwAscii;
use crate::gpwascii::GridView;
use crate::record::encoding;
use crate::record::push_record;
use crate::record::stream_of;
use crate::record::Record;

verus! {

/// A raster cell after tessellation: the keys of the cells that cover it,
/// and the bit pattern of the share of its value that each of them takes.
#[derive(Clone, Debug, PartialEq, Eq)]
pub struct Tessellated {
    pub addresses: Vec<u64>,
    pub share: u32,
}

/// The records of one raster cell: its share at each covering cell, in the
/// order of the cells.
pub open spec fn cell_records(addresses: Seq<u64>, share: u32) -> Seq<Record> {
    Seq::new(addresses.len(), |i: int| Record { address: addresses[i], value: share })
}

/// The records of the raster cells, cell after cell.
pub open spec fn grid_records(cells: Seq<Tessellated>) -> Seq<Record>
    decreases cells.len(),
{
    if cells.len() == 0 {
        seq![]
    } else {
        grid_records(cells.drop_last()) + cell_records(
            cells.last().addresses@,
            cells.last().share,
        )
    }
}

/// The stream of two runs of records is the stream of the first followed by
/// the stream of the second.
pub proof fn lemma_stream_of_concat(a: Seq<Record>, b: Seq<Record>)
    ensures
        stream_of(a + b) == stream_of(a) + stream_of(b),
    decreases b.len(),
{
    if b.len() == 0 {
        assert(a + b =~= a);
        assert(stream_of(a) + stream_of(b) =~= stream_of(a));
    } else {
        lemma_stream_of_concat(a, b.drop_last());
        assert((a + b).drop_last() =~= a + b.drop_last());
        assert((a + b).last() == b.last());
        assert(stream_of(a) + (stream_of(b.drop_last()) + encoding(b.last())) =~= (stream_of(a)
            + stream_of(b.drop_last())) + encoding(b.last()));
    }
}

/// Appends the records of one raster cell to `dst`.
pub fn write_cell(addresses: &Vec<u64>, share: u32, dst: &mut Vec<u8>)
    ensures
        final(dst)@ == old(dst)@ + stream_of(cell_records(addresses@, share)),
{
    let ghost before = dst@;
    let ghost all = cell_records(addresses@, share);
    let mut i: usize = 0;
    assert(all.subrange(0, 0) =~= Seq::empty());
    assert(before + stream_of(Seq::<Record>::empty()) =~= before);
    while i < addresses.len()
        invariant
            0 <= i <= addresses@.len(),
            all == cell_records(addresses@, share),
            dst@ == before + stream_of(all.subrange(0, i as int)),
        decreases addresses@.len() - i,
    {
        let rec = Record { address: addresses[i], value: share };
        proof {
            let next = all.subrange(0, i + 1);
            assert(next.drop_last() =~= all.subrange(0, i as int));
            assert(next.last() == rec);
            assert(before + (stream_of(all.subrange(0, i as int)) + encoding(rec)) =~= (before
                + stream_of(all.subrange(0, i as int))) + encoding(rec));
        }
        push_record(dst, rec);
        i += 1;
    }
    assert(all.subrange(0, i as int) =~= all);
}

/// Appends to `dst` the records of every raster cell in `cells`: one record
/// of twelve bytes for each covering cell, holding the raster cell's share.
pub fn gen_to_disk(cells: &Vec<Tessellated>, dst: &mut Vec<u8>)
    ensures
        final(dst)@ == old(dst)@ + stream_of(grid_records(cells@)),
{
    let ghost before = dst@;
    let mut i: usize = 0;
    assert(cells@.subrange(0, 0) =~= Seq::empty());
    assert(before + stream_of(Seq::<Record>::empty()) =~= before);
    while i < cells.len()
        invariant
            0 <= i <= cells@.len(),
            dst@ == before + stream_of(grid_records(cells@.subrange(0, i as int))),
        decreases cells@.len() - i,
    {
        proof {
            let next = cells@.subrange(0, i + 1);
            let done = grid_records(cells@.subrange(0, i as int));
            let more = cell_records(cells@[i as int].addresses@, cells@[i as int].share);
            assert(next.drop_last() =~= cells@.subrange(0, i as int));
            assert(next.last() == cells@[i as int]);
            lemma_stream_of_concat(done, more);
            assert(before + (stream_of(done) + stream_of(more)) =~= (before + stream_of(done))
                + stream_of(more));
        }
        write_cell(&cells[i].addresses, cells[i].share, dst);
        i += 1;
    }
    assert(cells@.subrange(0, i as int) =~= cells@);
}

/// The place of a raster cell in its grid, rows counted from the north.
#[derive(Clone, Copy, Debug, PartialEq, Eq, Structural)]
pub struct RasterCell {
    pub row: usize,
    pub col: usize,
}

/// Whether the grid holds a sample at `(row, col)`.
pub open spec fn holds_sample(g: GridView, row: int, col: int) -> bool {
    0 <= row < g.data.len() && 0 <= col < g.data[row].len() && g.data[row][col] is Some
}

/// Whether `a` comes before `b` when the grid is read row by row.
pub open spec fn comes_before(a: RasterCell, b: RasterCell) -> bool {
    a.row < b.row || (a.row == b.row && a.col < b.col)
}

/// Whether `cells` are the places among the first `rows` rows, and the first
/// `cols` places of the row after them, that hold a sample, in reading order.
pub open spec fn lists_samples(cells: Seq<RasterCell>, g: GridView, rows: int, cols: int) -> bool {
    &&& forall|i: int|
        0 <= i < cells.len() ==> holds_sample(
            g,
            (#[trigger] cells[i]).row as int,
            cells[i].col as int,
        ) && (cells[i].row < rows || (cells[i].row == rows && cells[i].col < cols))
    &&& forall|i: int, j: int|
        0 <= i < j < cells.len() ==> comes_before(#[trigger] cells[i], #[trigger] cells[j])
    &&& forall|row: int, col: int|
        #![trigger g.data[row][col]]
        holds_sample(g, row, col) && (row < rows || (row == rows && col < cols))
            ==> exists|i: int|
            0 <= i < cells.len() && #[trigger] cells[i] == (RasterCell {
                row: row as usize,
                col: col as usize,
            })
}

/// The raster cells to tessellate: every place that holds a sample, and no
/// place without data, in reading order.
pub fn sampled_cells(grid: &GpwAscii) -> (cells: Vec<RasterCell>)
    ensures
        lists_samples(cells@, grid@, grid@.data.len() as int, 0),
{
    let mut cells: Vec<RasterCell> = Vec::new();
    let mut row: usize = 0;
    while row < grid.data.len()
        invariant
            0 <= row <= grid.data@.len(),
            grid@.data.len() == grid.data@.len(),
            lists_samples(cells@, grid@, row as int, 0),
        decreases grid.data@.len() - row,
    {
        let samples = &grid.data[row];
        assert(grid@.data[row as int].len() == samples@.len());
        let mut col: usize = 0;
        while col < samples.len()
            invariant
                0 <= col <= samples@.len(),
                row < grid.data@.len(),
                grid@.data.len() == grid.data@.len(),
                *samples == grid.data@[row as int],
                grid@.data[row as int].len() == samples@.len(),
                lists_samples(cells@, grid@, row as int, col as int),
            decreases samples@.len() - col,
        {
            let ghost before = cells@;
            let here = RasterCell { row, col };
            assert((grid@.data[row as int][col as int] is Some) == (samples@[col as int] is Some));
            if samples[col].is_some() {
                cells.push(here);
                proof {
                    assert forall|i: int, j: int| 0 <= i < j < cells@.len() implies comes_before(
                        #[trigger] cells@[i],
                        #[trigger] cells@[j],
                    ) by {
                        if j == before.len() {
                            assert(cells@[i] == before[i]);
                        } else {
                            assert(cells@[i] == before[i] && cells@[j] == before[j]);
                        }
                    }
                }
            }
            proof {
                assert forall|r: int, c: int|
                    #![trigger grid@.data[r][c]]
                    holds_sample(grid@, r, c) && (r < row || (r == row && c < col + 1))
                        implies exists|i: int|
                    0 <= i < cells@.len() && #[trigger] cells@[i] == (RasterCell {
                        row: r as usize,
                        col: c as usize,
                    }) by {
                    if r == row && c == col {
                        assert(cells@[before.len() as int] == here);
                    } else {
                        let i = choose|i: int|
                            0 <= i < before.len() && #[trigger] before[i] == (RasterCell {
                                row: r as usize,
                                col: c as usize,
                            });
                        assert(cells@[i] == before[i]);
                    }
                }
                assert forall|i: int| 0 <= i < cells@.len() implies holds_sample(
                    grid@,
                    (#[trigger] cells@[i]).row as int,
                    cells@[i].col as int,
                ) && (cells@[i].row < row || (cells@[i].row == row && cells@[i].col < col + 1)) by {
                    if i < before.len() {
                        assert(cells@[i] == before[i]);
                    }
                }
            }
            col += 1;
        }
        proof {
            assert forall|i: int| 0 <= i < cells@.len() implies (#[trigger] cells@[i]).row < row
                + 1 by {}
        }
        row += 1;
    }
    cells
}

} // verus!

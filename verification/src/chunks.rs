use vstd::prelude::*;
use crate::random::random_range;

verus! {

/// A rectangle of cells: the columns from `xmin` up to but not including
/// `xmax`, and the rows from `ymin` up to but not including `ymax`.
#[derive(Clone, Copy, Debug)]
pub struct Chunk {
    pub xmin: usize,
    pub xmax: usize,
    pub ymin: usize,
    pub ymax: usize,
}

/// The number of bands that `count` stands for: a count of zero counts as one.
pub open spec fn band_limit(count: usize) -> int {
    if count == 0 {
        1
    } else {
        count as int
    }
}

/// The width of a band when `width` columns are split into `count` bands:
/// the whole part of the width divided by the count, and at least one column.
pub open spec fn band_size(width: usize, count: usize) -> int {
    if width as int / band_limit(count) == 0 {
        1
    } else {
        width as int / band_limit(count)
    }
}

/// The number of bands that `width` columns are split into for a count of
/// `count`: as many as the count says, but no more than there are columns.
pub open spec fn band_count(width: usize, count: usize) -> int {
    if width < band_limit(count) {
        width as int
    } else {
        band_limit(count)
    }
}

/// Whether `chunks` are bands of a grid of `width` columns and `height` rows,
/// for bands of `size` columns of which the first is narrower by `inset`:
/// they are of full height and lie side by side from the first column to the
/// last, all but the last have their width, and the last takes what is left.
pub open spec fn tiles(chunks: Seq<Chunk>, height: usize, width: usize, size: int, inset: int) -> bool {
    &&& width == 0 ==> chunks.len() == 0
    &&& width > 0 ==> chunks.len() > 0 && chunks[0].xmin == 0 && chunks.last().xmax == width
    &&& forall|i: int|
        0 <= i < chunks.len() ==> {
            &&& (#[trigger] chunks[i]).ymin == 0
            &&& chunks[i].ymax == height
            &&& chunks[i].xmin < chunks[i].xmax <= width
        }
    &&& forall|i: int|
        0 <= i < chunks.len() - 1 ==> {
            &&& (#[trigger] chunks[i]).xmax == chunks[i + 1].xmin
            &&& chunks[i].xmax - chunks[i].xmin == (if i == 0 {
                size - inset
            } else {
                size
            })
        }
}

/// Whether `chunks` are the bands that a tick may split a grid into, for a
/// count of `count` and an inset drawn below `offset`: there are as many
/// bands as the count says, or as there are columns where those are fewer;
/// the inset is below the width of a band, and zero where `offset` allows no
/// other.
pub open spec fn banded(chunks: Seq<Chunk>, height: usize, width: usize, count: usize, offset: i32) -> bool {
    &&& chunks.len() == band_count(width, count)
    &&& exists|inset: int|
        0 <= inset < band_size(width, count) && (inset == 0 || inset < offset) && #[trigger] tiles(
            chunks,
            height,
            width,
            band_size(width, count),
            inset,
        )
}

/// As many bands as a grid is split into fit into the grid side by side.
pub proof fn lemma_bands_fit(width: usize, count: usize)
    ensures
        band_count(width, count) * band_size(width, count) <= width,
        band_size(width, count) >= 1,
        0 <= band_count(width, count) <= band_limit(count),
        width > 0 ==> band_count(width, count) >= 1,
{
    let limit = band_limit(count);
    if width < limit {
        vstd::arithmetic::div_mod::lemma_basic_div(width as int, limit);
        assert(band_count(width, count) * 1 == width);
    } else {
        vstd::arithmetic::div_mod::lemma_fundamental_div_mod(width as int, limit);
        vstd::arithmetic::div_mod::lemma_mod_bound(width as int, limit);
        let size = width as int / limit;
        assert(size >= 1) by (nonlinear_arith)
            requires
                width as int == limit * size + width as int % limit,
                0 <= width as int % limit < limit,
                width >= limit,
                limit >= 1,
        ;
        assert(limit * size == band_count(width, count) * band_size(width, count));
    }
}

impl Chunk {
    /// The rectangle with the given bounds.
    pub fn build(xmin: usize, xmax: usize, ymin: usize, ymax: usize) -> (chunk: Self)
        ensures
            chunk.xmin == xmin,
            chunk.xmax == xmax,
            chunk.ymin == ymin,
            chunk.ymax == ymax,
    {
        Chunk { xmin, xmax, ymin, ymax }
    }

    /// Computes the width of a band when `width` columns are split into
    /// `count` bands.
    pub fn band_width(width: usize, count: usize) -> (size: usize)
        ensures
            size == band_size(width, count),
            size >= 1,
    {
        let bands: usize = if count == 0 {
            1
        } else {
            count
        };
        let size: usize = width / bands;
        if size == 0 {
            1
        } else {
            size
        }
    }

    /// Computes the number of bands that `width` columns are split into for
    /// a count of `count`.
    pub fn band_number(width: usize, count: usize) -> (bands: usize)
        ensures
            bands == band_count(width, count),
    {
        let limit: usize = if count == 0 {
            1
        } else {
            count
        };
        if width < limit {
            width
        } else {
            limit
        }
    }

    /// Splits a grid into bands of full height: as many as `count` says, or
    /// as there are columns where those are fewer. Where there is more than
    /// one band, the first is narrower than a band by `inset` columns; the
    /// last band reaches to the edge of the grid. An inset that would leave
    /// nothing of the first band counts as the largest that leaves a column.
    pub fn columns(height: usize, width: usize, count: usize, inset: usize) -> (chunks: Vec<Chunk>)
        ensures
            chunks@.len() == band_count(width, count),
            tiles(
                chunks@,
                height,
                width,
                band_size(width, count),
                if inset < band_size(width, count) {
                    inset as int
                } else {
                    band_size(width, count) - 1
                },
            ),
    {
        let size: usize = Self::band_width(width, count);
        let bands: usize = Self::band_number(width, count);
        let inset: usize = if inset < size {
            inset
        } else {
            size - 1
        };
        proof {
            lemma_bands_fit(width, count);
        }
        let mut chunks: Vec<Chunk> = Vec::new();
        let mut xmin: usize = 0;
        let mut done: usize = 0;
        while done < bands
            invariant
                size >= 1,
                inset < size,
                done <= bands,
                bands >= 1 ==> width > 0,
                chunks@.len() == done,
                xmin <= width,
                xmin + (bands - done) * size <= width,
                done == 0 ==> xmin == 0,
                done > 0 ==> chunks@[0].xmin == 0 && chunks@.last().xmax == xmin,
                done == bands && done > 0 ==> xmin == width,
                forall|i: int|
                    0 <= i < chunks@.len() ==> {
                        &&& (#[trigger] chunks@[i]).ymin == 0
                        &&& chunks@[i].ymax == height
                        &&& chunks@[i].xmin < chunks@[i].xmax <= width
                    },
                forall|i: int| 0 <= i < chunks@.len() - 1 ==> (#[trigger] chunks@[i]).xmax == chunks@[i + 1].xmin,
                forall|i: int|
                    0 <= i < chunks@.len() && i < bands - 1 ==> (#[trigger] chunks@[i]).xmax - chunks@[i].xmin == (
                    if i == 0 {
                        size - inset
                    } else {
                        size as int
                    }),
            decreases bands - done,
        {
            proof {
                assert((bands - done) * size == (bands - done - 1) * size + size) by (nonlinear_arith);
                assert(0 <= (bands - done - 1) * size) by (nonlinear_arith)
                    requires
                        done < bands,
                        size >= 1,
                ;
                if done + 1 < bands {
                    assert(size <= (bands - done - 1) * size) by (nonlinear_arith)
                        requires
                            done + 1 < bands,
                            size >= 1,
                    ;
                }
            }
            let xmax: usize = if done + 1 == bands {
                width
            } else if done == 0 {
                size - inset
            } else {
                xmin + size
            };
            chunks.push(Self::build(xmin, xmax, 0, height));
            xmin = xmax;
            done += 1;
        }
        chunks
    }

    /// Splits a grid into bands of full height for one tick: as many as
    /// `count` says, or as there are columns where those are fewer. A band
    /// is as wide as the whole part of the width divided by the count. Where
    /// there is more than one band, the first is narrower by an inset that is
    /// drawn anew each time, below `offset` and below the width of a band,
    /// so that the seams between the bands fall elsewhere in every tick; the
    /// last band reaches to the edge of the grid.
    pub fn columnar_chunks(height: usize, width: usize, count: usize, offset: i32) -> (chunks: Vec<Chunk>)
        ensures
            banded(chunks@, height, width, count, offset),
            chunks@.len() <= (if count == 0 {
                1
            } else {
                count as int
            }),
            width > 0 ==> chunks@.len() >= 1,
            forall|i: int|
                0 <= i < chunks@.len() ==> (#[trigger] chunks@[i]).xmin < chunks@[i].xmax <= width
                    && chunks@[i].ymin == 0 && chunks@[i].ymax == height,
    {
        let size: usize = Self::band_width(width, count);
        let bound: usize = if offset <= 0 {
            1
        } else if (offset as usize) < size {
            offset as usize
        } else {
            size
        };
        let inset: usize = random_range(0, bound);
        let chunks = Self::columns(height, width, count, inset);
        proof {
            lemma_bands_fit(width, count);
        }
        assert(tiles(chunks@, height, width, band_size(width, count), inset as int));
        chunks
    }
}

} // verus!

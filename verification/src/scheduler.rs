use vstd::prelude::*;
use crate::chunks::banded;
use crate::chunks::Chunk;
use crate::helpers::gcd;
use crate::helpers::random_coprime;
use crate::matter::conserved;
use crate::matter::lemma_conserved_refl;
use crate::matter::count;
use crate::matter::lemma_conserved_trans;
use crate::matter::lemma_matter;
use crate::matter::matter;
use crate::orders::as_cells;
use crate::orders::lemma_numbered;
use crate::orders::lemma_stride;
use crate::orders::pass_order;
use crate::orders::row_cells;
use crate::orders::row_major;
use crate::orders::rows_cells;
use crate::orders::shuffles;
use crate::orders::strided;
use crate::orders::tick_order;
use crate::orders::zig_zag;
use crate::particle_params::ParticleParams;
use crate::particle_updates::updates_to;
use crate::particles::ParticleType;
use crate::particles::SPECIES_COUNT;
use crate::random::random_range;
use crate::random::shuffle;
use crate::sandbox::Plane;
use crate::sandbox::SandBox;

verus! {

/// Whether `states` are the grids that the updates of the cells of `order`
/// go through, one after the other: one grid before each update and one
/// after the last, each update for some outcome of its draws.
pub open spec fn chain(
    table: [ParticleParams; SPECIES_COUNT],
    flipflop: int,
    order: Seq<(int, int)>,
    states: Seq<Plane>,
) -> bool {
    &&& states.len() == order.len() + 1
    &&& forall|i: int|
        0 <= i < order.len() ==> updates_to(
            #[trigger] states[i],
            table,
            flipflop,
            order[i].0,
            order[i].1,
            states[i + 1],
        )
}

/// Whether `after` is what the updates of the cells of `order`, one after the
/// other, can make of the grid `before`, for some outcome of the draws.
#[verifier::opaque]
pub open spec fn swept(
    before: Plane,
    table: [ParticleParams; SPECIES_COUNT],
    flipflop: int,
    order: Seq<(int, int)>,
    after: Plane,
) -> bool {
    exists|states: Seq<Plane>|
        #![trigger chain(table, flipflop, order, states)]
        chain(table, flipflop, order, states) && states[0] == before && states.last() == after
}

/// No update at all leaves the grid as it is.
pub proof fn lemma_swept_none(before: Plane, table: [ParticleParams; SPECIES_COUNT], flipflop: int)
    ensures
        swept(before, table, flipflop, Seq::empty(), before),
{
    reveal(swept);
    let states = seq![before];
    assert(chain(table, flipflop, Seq::empty(), states) && states[0] == before && states.last() == before);
}

/// A sweep and the update of one more cell make a sweep of the longer order.
pub proof fn lemma_swept_push(
    before: Plane,
    table: [ParticleParams; SPECIES_COUNT],
    flipflop: int,
    order: Seq<(int, int)>,
    mid: Plane,
    cell: (int, int),
    after: Plane,
)
    requires
        swept(before, table, flipflop, order, mid),
        updates_to(mid, table, flipflop, cell.0, cell.1, after),
    ensures
        swept(before, table, flipflop, order.push(cell), after),
{
    reveal(swept);
    let states = choose|states: Seq<Plane>|
        #![trigger chain(table, flipflop, order, states)]
        chain(table, flipflop, order, states) && states[0] == before && states.last() == mid;
    let longer = states.push(after);
    assert forall|i: int| 0 <= i < order.push(cell).len() implies updates_to(
        #[trigger] longer[i],
        table,
        flipflop,
        order.push(cell)[i].0,
        order.push(cell)[i].1,
        longer[i + 1],
    ) by {
        if i < order.len() {
            assert(longer[i] == states[i]);
        }
    }
    assert(chain(table, flipflop, order.push(cell), longer) && longer[0] == before && longer.last() == after);
}

/// Two sweeps, one after the other, make a sweep of the two orders joined.
pub proof fn lemma_swept_join(
    before: Plane,
    table: [ParticleParams; SPECIES_COUNT],
    flipflop: int,
    first: Seq<(int, int)>,
    mid: Plane,
    second: Seq<(int, int)>,
    after: Plane,
)
    requires
        swept(before, table, flipflop, first, mid),
        swept(mid, table, flipflop, second, after),
    ensures
        swept(before, table, flipflop, first + second, after),
{
    reveal(swept);
    let head = choose|states: Seq<Plane>|
        #![trigger chain(table, flipflop, first, states)]
        chain(table, flipflop, first, states) && states[0] == before && states.last() == mid;
    let tail = choose|states: Seq<Plane>|
        #![trigger chain(table, flipflop, second, states)]
        chain(table, flipflop, second, states) && states[0] == mid && states.last() == after;
    let joined = head + tail.drop_first();
    let order = first + second;
    assert forall|i: int| 0 <= i < order.len() implies updates_to(
        #[trigger] joined[i],
        table,
        flipflop,
        order[i].0,
        order[i].1,
        joined[i + 1],
    ) by {
        if i < first.len() {
            assert(joined[i] == head[i]);
            if i + 1 < head.len() {
                assert(joined[i + 1] == head[i + 1]);
            }
        } else {
            let k = i - first.len();
            assert(order[i] == second[k]);
            assert(joined[i + 1] == tail[k + 1]);
            assert(joined[i] == tail[k]);
        }
    }
    assert(chain(table, flipflop, order, joined) && joined[0] == before && joined.last() == after);
}

impl Chunk {
    /// Whether the chunk is a rectangle of cells of `sandbox`.
    pub open spec fn within(&self, sandbox: &SandBox) -> bool {
        &&& self.xmin <= self.xmax <= sandbox.width
        &&& self.ymin <= self.ymax <= sandbox.height
    }

    /// Whether the chunk is a rectangle of cells of `sandbox`.
    pub fn fits(&self, sandbox: &SandBox) -> (b: bool)
        ensures
            b == self.within(sandbox),
    {
        self.xmin <= self.xmax && self.xmax <= sandbox.width && self.ymin <= self.ymax && self.ymax
            <= sandbox.height
    }
}

impl SandBox {
    /// Whether `other` is this simulation after some updates of cells: they
    /// differ in nothing but what their cells hold, and both are valid.
    pub open spec fn carried(&self, other: &SandBox) -> bool {
        &&& self.wf()
        &&& self.same_setup(other)
    }

    /// Updates the cells of row `y` from column `xmin` up to but not
    /// including `xmax`, from left to right, or from right to left where
    /// `reversed`.
    pub fn process_row(&mut self, xmin: usize, xmax: usize, y: usize, reversed: bool)
        requires
            old(self).wf(),
            xmin <= xmax <= old(self).width,
            y < old(self).height,
        ensures
            final(self).carried(old(self)),
            conserved(old(self).grid@, final(self).grid@),
            swept(
                old(self)@,
                old(self).particleparams,
                old(self).flipflop as int,
                row_cells(xmin as int, xmax as int, y as int, reversed),
                final(self)@,
            ),
    {
        let ghost before = self@;
        let ghost table = self.particleparams;
        let ghost flipflop = self.flipflop as int;
        let ghost row = row_cells(xmin as int, xmax as int, y as int, reversed);
        let count: usize = xmax - xmin;
        let mut done: usize = 0;
        proof {
            lemma_conserved_refl(before.cells);
            lemma_swept_none(before, table, flipflop);
            assert(row.take(0) =~= Seq::empty());
        }
        while done < count
            invariant
                self.carried(old(self)),
                before == old(self)@,
                table == old(self).particleparams,
                flipflop == old(self).flipflop as int,
                row == row_cells(xmin as int, xmax as int, y as int, reversed),
                count == xmax - xmin,
                xmax <= self.width,
                y < self.height,
                done <= count,
                conserved(before.cells, self@.cells),
                swept(before, table, flipflop, row.take(done as int), self@),
            decreases count - done,
        {
            let x: usize = if reversed {
                xmax - 1 - done
            } else {
                xmin + done
            };
            let ghost cur = self@;
            self.update_cell(x, y);
            proof {
                lemma_conserved_trans(before.cells, cur.cells, self@.cells);
                lemma_swept_push(before, table, flipflop, row.take(done as int), cur, row[done as int], self@);
                assert(row.take(done as int).push(row[done as int]) =~= row.take(done + 1));
            }
            done += 1;
        }
        proof {
            assert(row.take(count as int) =~= row);
        }
    }

    /// Updates `rows` rows of `chunk`: row `first`, then every second row
    /// above it.
    fn process_rows(&mut self, chunk: Chunk, first: usize, rows: usize, reversed: bool)
        requires
            old(self).wf(),
            chunk.within(old(self)),
            rows > 0 ==> first < chunk.ymax && first - 2 * (rows - 1) >= chunk.ymin,
        ensures
            final(self).carried(old(self)),
            conserved(old(self).grid@, final(self).grid@),
            swept(
                old(self)@,
                old(self).particleparams,
                old(self).flipflop as int,
                rows_cells(chunk, first as int, rows as nat, reversed),
                final(self)@,
            ),
    {
        let ghost before = self@;
        let ghost table = self.particleparams;
        let ghost flipflop = self.flipflop as int;
        let mut done: usize = 0;
        proof {
            lemma_conserved_refl(before.cells);
            lemma_swept_none(before, table, flipflop);
        }
        while done < rows
            invariant
                self.carried(old(self)),
                before == old(self)@,
                table == old(self).particleparams,
                flipflop == old(self).flipflop as int,
                chunk.within(self),
                done <= rows,
                rows > 0 ==> first < chunk.ymax && first - 2 * (rows - 1) >= chunk.ymin,
                conserved(before.cells, self@.cells),
                swept(before, table, flipflop, rows_cells(chunk, first as int, done as nat, reversed), self@),
            decreases rows - done,
        {
            let y: usize = first - 2 * done;
            let ghost cur = self@;
            self.process_row(chunk.xmin, chunk.xmax, y, reversed);
            proof {
                lemma_conserved_trans(before.cells, cur.cells, self@.cells);
                lemma_swept_join(
                    before,
                    table,
                    flipflop,
                    rows_cells(chunk, first as int, done as nat, reversed),
                    cur,
                    row_cells(chunk.xmin as int, chunk.xmax as int, y as int, reversed),
                    self@,
                );
            }
            done += 1;
        }
    }

    /// Updates every cell of `chunk` once, in zig-zag order.
    pub fn process_zig_zag(&mut self, chunk: Chunk)
        requires
            old(self).wf(),
            chunk.within(old(self)),
        ensures
            final(self).carried(old(self)),
            conserved(old(self).grid@, final(self).grid@),
            swept(old(self)@, old(self).particleparams, old(self).flipflop as int, zig_zag(chunk), final(self)@),
    {
        let ghost before = self@;
        let ghost table = self.particleparams;
        let ghost flipflop = self.flipflop as int;
        let height: usize = chunk.ymax - chunk.ymin;
        let odd: usize = height - height / 2;
        let even: usize = height / 2;
        if odd > 0 {
            self.process_rows(chunk, chunk.ymax - 1, odd, false);
        } else {
            proof {
                lemma_conserved_refl(before.cells);
                lemma_swept_none(before, table, flipflop);
            }
        }
        let ghost half = self@;
        if even > 0 {
            self.process_rows(chunk, chunk.ymax - 2, even, true);
        } else {
            proof {
                lemma_conserved_refl(half.cells);
                lemma_swept_none(half, table, flipflop);
            }
        }
        proof {
            lemma_conserved_trans(before.cells, half.cells, self@.cells);
            lemma_swept_join(
                before,
                table,
                flipflop,
                rows_cells(chunk, chunk.ymax - 1, odd as nat, false),
                half,
                rows_cells(chunk, chunk.ymax - 2, even as nat, true),
                self@,
            );
        }
    }

    /// The number of cells of `chunk`, and its width.
    fn measure(&self, chunk: Chunk) -> (size: (usize, usize))
        requires
            self.wf(),
            chunk.within(self),
        ensures
            size.0 == (chunk.xmax - chunk.xmin) * (chunk.ymax - chunk.ymin),
            size.1 == chunk.xmax - chunk.xmin,
    {
        let width: usize = chunk.xmax - chunk.xmin;
        let height: usize = chunk.ymax - chunk.ymin;
        assert(self.width * self.height == self.grid.len());
        assert(0 <= width * height <= self.width * self.height) by (nonlinear_arith)
            requires
                0 <= width <= self.width,
                0 <= height <= self.height,
        ;
        (width * height, width)
    }

    /// Updates every cell of `chunk` once, in the order of a scan that
    /// begins at a cell drawn at random and goes on by a stride drawn at
    /// random among the numbers that have no divisor in common with the
    /// number of cells.
    pub fn process_pcg(&mut self, chunk: Chunk)
        requires
            old(self).wf(),
            chunk.within(old(self)),
        ensures
            final(self).carried(old(self)),
            conserved(old(self).grid@, final(self).grid@),
            exists|offset: int, step: int|
                0 <= offset && 1 <= step && gcd(
                    step as nat,
                    ((chunk.xmax - chunk.xmin) * (chunk.ymax - chunk.ymin)) as nat,
                ) == 1 && swept(
                    old(self)@,
                    old(self).particleparams,
                    old(self).flipflop as int,
                    #[trigger] strided(chunk, offset, step),
                    final(self)@,
                ),
    {
        let ghost before = self@;
        let ghost table = self.particleparams;
        let ghost flipflop = self.flipflop as int;
        let (area, width) = self.measure(chunk);
        let offset: usize = if area == 0 {
            0
        } else {
            random_range(0, area)
        };
        let step: usize = random_coprime(area);
        let ghost order = strided(chunk, offset as int, step as int);
        let mut pos: usize = offset;
        let mut index: usize = 0;
        proof {
            lemma_conserved_refl(before.cells);
            lemma_swept_none(before, table, flipflop);
            assert(order.take(0) =~= Seq::empty());
            if area > 0 {
                assert(step * 0 == 0) by (nonlinear_arith);
                vstd::arithmetic::div_mod::lemma_small_mod(offset as nat, area as nat);
            }
        }
        while index < area
            invariant
                self.carried(old(self)),
                before == old(self)@,
                table == old(self).particleparams,
                flipflop == old(self).flipflop as int,
                chunk.within(self),
                area == (chunk.xmax - chunk.xmin) * (chunk.ymax - chunk.ymin),
                width == chunk.xmax - chunk.xmin,
                order == strided(chunk, offset as int, step as int),
                1 <= step <= area || area == 0,
                index <= area,
                index < area ==> pos == (offset + step * index) % (area as int),
                index < area ==> pos < area,
                conserved(before.cells, self@.cells),
                swept(before, table, flipflop, order.take(index as int), self@),
            decreases area - index,
        {
            proof {
                lemma_numbered(chunk, pos as int);
            }
            let x: usize = pos % width + chunk.xmin;
            let y: usize = pos / width + chunk.ymin;
            let ghost cur = self@;
            self.update_cell(x, y);
            proof {
                lemma_conserved_trans(before.cells, cur.cells, self@.cells);
                lemma_swept_push(before, table, flipflop, order.take(index as int), cur, order[index as int], self@);
                assert(order.take(index as int).push(order[index as int]) =~= order.take(index + 1));
                lemma_stride(offset as int, step as int, index as int, area as int, pos as int);
            }
            pos = if pos >= area - step {
                pos - (area - step)
            } else {
                pos + step
            };
            index += 1;
        }
        proof {
            assert(order.take(area as int) =~= order);
        }
    }

    /// Updates every cell of `chunk` once, in an order shuffled at random.
    pub fn process_true_random(&mut self, chunk: Chunk)
        requires
            old(self).wf(),
            chunk.within(old(self)),
        ensures
            final(self).carried(old(self)),
            conserved(old(self).grid@, final(self).grid@),
            exists|order: Seq<(usize, usize)>| #[trigger]
                shuffles(order, chunk) && swept(
                    old(self)@,
                    old(self).particleparams,
                    old(self).flipflop as int,
                    as_cells(order),
                    final(self)@,
                ),
    {
        let ghost before = self@;
        let ghost table = self.particleparams;
        let ghost flipflop = self.flipflop as int;
        let (area, width) = self.measure(chunk);
        let mut indices: Vec<(usize, usize)> = Vec::new();
        let mut linear: usize = 0;
        while linear < area
            invariant
                chunk.within(self),
                area == (chunk.xmax - chunk.xmin) * (chunk.ymax - chunk.ymin),
                width == chunk.xmax - chunk.xmin,
                linear <= area,
                indices@ =~= row_major(chunk).take(linear as int),
            decreases area - linear,
        {
            proof {
                lemma_numbered(chunk, linear as int);
            }
            indices.push((linear % width + chunk.xmin, linear / width + chunk.ymin));
            proof {
                assert(row_major(chunk).take(linear as int).push(row_major(chunk)[linear as int])
                    =~= row_major(chunk).take(linear + 1));
            }
            linear += 1;
        }
        proof {
            assert(row_major(chunk).take(area as int) =~= row_major(chunk));
        }
        shuffle(&mut indices);
        let ghost order = indices@;
        let ghost cells = as_cells(order);
        let mut done: usize = 0;
        proof {
            lemma_conserved_refl(before.cells);
            lemma_swept_none(before, table, flipflop);
            assert(cells.take(0) =~= Seq::empty());
        }
        while done < indices.len()
            invariant
                self.carried(old(self)),
                before == old(self)@,
                table == old(self).particleparams,
                flipflop == old(self).flipflop as int,
                chunk.within(self),
                indices@ == order,
                cells == as_cells(order),
                shuffles(order, chunk),
                done <= order.len(),
                conserved(before.cells, self@.cells),
                swept(before, table, flipflop, cells.take(done as int), self@),
            decreases order.len() - done,
        {
            let (x, y) = indices[done];
            proof {
                assert(order.contains(order[done as int]));
                vstd::seq_lib::to_multiset_contains(order, (x, y));
                vstd::seq_lib::to_multiset_contains(row_major(chunk), (x, y));
                assert(row_major(chunk).contains((x, y)));
                let found = choose|i: int| 0 <= i < row_major(chunk).len() && row_major(chunk)[i] == (x, y);
                lemma_numbered(chunk, found);
            }
            let ghost cur = self@;
            self.update_cell(x, y);
            proof {
                lemma_conserved_trans(before.cells, cur.cells, self@.cells);
                lemma_swept_push(before, table, flipflop, cells.take(done as int), cur, cells[done as int], self@);
                assert(cells.take(done as int).push(cells[done as int]) =~= cells.take(done + 1));
            }
            done += 1;
        }
        proof {
            assert(cells.take(done as int) =~= cells);
            assert(shuffles(order, chunk) && swept(before, table, flipflop, as_cells(order), self@));
        }
    }

    /// Updates the cells of `count` chunks in zig-zag order: of chunk `first`,
    /// then of every second chunk after it.
    fn process_pass(&mut self, chunks: &Vec<Chunk>, first: usize, count: usize)
        requires
            old(self).wf(),
            forall|i: int| 0 <= i < chunks@.len() ==> (#[trigger] chunks@[i]).within(old(self)),
            count > 0 ==> first + 2 * (count - 1) < chunks@.len(),
            first <= 1,
        ensures
            final(self).carried(old(self)),
            conserved(old(self).grid@, final(self).grid@),
            swept(
                old(self)@,
                old(self).particleparams,
                old(self).flipflop as int,
                pass_order(chunks@, first as int, count as nat),
                final(self)@,
            ),
    {
        let ghost before = self@;
        let ghost table = self.particleparams;
        let ghost flipflop = self.flipflop as int;
        let total: usize = chunks.len();
        let mut done: usize = 0;
        proof {
            lemma_conserved_refl(before.cells);
            lemma_swept_none(before, table, flipflop);
        }
        while done < count
            invariant
                self.carried(old(self)),
                before == old(self)@,
                table == old(self).particleparams,
                flipflop == old(self).flipflop as int,
                total == chunks@.len(),
                forall|i: int| 0 <= i < chunks@.len() ==> (#[trigger] chunks@[i]).within(self),
                count > 0 ==> first + 2 * (count - 1) < chunks@.len(),
                first <= 1,
                done <= count,
                conserved(before.cells, self@.cells),
                swept(before, table, flipflop, pass_order(chunks@, first as int, done as nat), self@),
            decreases count - done,
        {
            let chunk: Chunk = chunks[first + 2 * done];
            let ghost cur = self@;
            self.process_zig_zag(chunk);
            proof {
                lemma_conserved_trans(before.cells, cur.cells, self@.cells);
                lemma_swept_join(
                    before,
                    table,
                    flipflop,
                    pass_order(chunks@, first as int, done as nat),
                    cur,
                    zig_zag(chunk),
                    self@,
                );
            }
            done += 1;
        }
    }

    /// Updates the cells of all of `chunks`: of those with an even index
    /// first, then of those with an odd index, each chunk in zig-zag order.
    pub fn process_chunks(&mut self, chunks: &Vec<Chunk>)
        requires
            old(self).wf(),
            forall|i: int| 0 <= i < chunks@.len() ==> (#[trigger] chunks@[i]).within(old(self)),
        ensures
            final(self).carried(old(self)),
            conserved(old(self).grid@, final(self).grid@),
            swept(
                old(self)@,
                old(self).particleparams,
                old(self).flipflop as int,
                tick_order(chunks@),
                final(self)@,
            ),
    {
        let ghost before = self@;
        let ghost table = self.particleparams;
        let ghost flipflop = self.flipflop as int;
        let count: usize = chunks.len();
        let odd: usize = count / 2;
        let even: usize = count - odd;
        self.process_pass(chunks, 0, even);
        let ghost half = self@;
        self.process_pass(chunks, 1, odd);
        proof {
            lemma_conserved_trans(before.cells, half.cells, self@.cells);
            lemma_swept_join(
                before,
                table,
                flipflop,
                pass_order(chunks@, 0, even as nat),
                half,
                pass_order(chunks@, 1, odd as nat),
                self@,
            );
        }
    }

    /// The number of colour steps made after `tick` ticks, where `freq` ticks
    /// make a step; a frequency of zero counts as one.
    pub open spec fn shift_at(tick: u32, freq: u32) -> int {
        if freq == 0 {
            tick as int
        } else {
            tick as int / freq as int
        }
    }

    /// Whether `after` is this simulation once a tick has been counted: the
    /// side to try first has flipped, the tick counter has gone up by one, or
    /// round to zero from its greatest value, and the colour steps are those
    /// of the new count. Nothing else differs.
    pub open spec fn counted(&self, after: &SandBox) -> bool {
        &&& after.height == self.height
        &&& after.width == self.width
        &&& after.grid@ == self.grid@
        &&& after.particleparams == self.particleparams
        &&& after.thread_count == self.thread_count
        &&& after.cluster_size == self.cluster_size
        &&& after.cluster_fill == self.cluster_fill
        &&& after.chunk_offset == self.chunk_offset
        &&& after.color_freq == self.color_freq
        &&& after.color_wave == self.color_wave
        &&& after.flipflop == -self.flipflop
        &&& after.tick == if self.tick == u32::MAX {
            0
        } else {
            self.tick + 1
        }
        &&& after.color_shift == Self::shift_at(after.tick, self.color_freq)
    }

    /// Counts a tick: flips the side to try first and advances the tick
    /// counter and the colour steps.
    pub fn advance(&mut self)
        requires
            old(self).wf(),
        ensures
            final(self).wf(),
            old(self).counted(final(self)),
    {
        self.flipflop = -self.flipflop;
        self.tick = self.tick.wrapping_add(1);
        self.color_shift = if self.color_freq == 0 {
            self.tick
        } else {
            self.tick / self.color_freq
        };
    }

    /// Runs one tick: the grid is split into bands anew, the bands with an
    /// even index are updated, then those with an odd index, each in zig-zag
    /// order. Then the tick is counted. No matter is lost or made but smoke
    /// that decays.
    pub fn update_par(&mut self)
        requires
            old(self).wf(),
        ensures
            final(self).wf(),
            final(self).height == old(self).height,
            final(self).width == old(self).width,
            final(self).particleparams == old(self).particleparams,
            final(self).thread_count == old(self).thread_count,
            final(self).cluster_size == old(self).cluster_size,
            final(self).cluster_fill == old(self).cluster_fill,
            final(self).chunk_offset == old(self).chunk_offset,
            final(self).color_freq == old(self).color_freq,
            final(self).color_wave == old(self).color_wave,
            final(self).flipflop == -old(self).flipflop,
            final(self).tick == if old(self).tick == u32::MAX {
                0
            } else {
                old(self).tick + 1
            },
            final(self).color_shift == Self::shift_at(final(self).tick, old(self).color_freq),
            conserved(old(self).grid@, final(self).grid@),
            matter(final(self).grid@) <= matter(old(self).grid@),
            matter(old(self).grid@) - matter(final(self).grid@) == count(old(self).grid@, ParticleType::Smoke)
                - count(final(self).grid@, ParticleType::Smoke),
            exists|chunks: Seq<Chunk>| #[trigger]
                banded(chunks, old(self).height, old(self).width, old(self).thread_count, old(self).chunk_offset)
                    && swept(
                    old(self)@,
                    old(self).particleparams,
                    old(self).flipflop as int,
                    tick_order(chunks),
                    final(self)@,
                ),
    {
        let ghost before = self@;
        let ghost table = self.particleparams;
        let ghost flipflop = self.flipflop as int;
        let chunks = Chunk::columnar_chunks(self.height, self.width, self.thread_count, self.chunk_offset);
        self.process_chunks(&chunks);
        proof {
            lemma_matter(before.cells, self@.cells);
        }
        assert(banded(chunks@, self.height, self.width, self.thread_count, self.chunk_offset) && swept(
            before,
            table,
            flipflop,
            tick_order(chunks@),
            self@,
        ));
        self.advance();
    }
}

} // verus!

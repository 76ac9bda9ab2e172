use vstd::prelude::*;
use crate::matter::conserved;
use crate::matter::lemma_conserved_put;
use crate::matter::lemma_conserved_refl;
use crate::matter::lemma_conserved_swap;
use crate::particle_params::base_params;
use crate::particle_updates::arrived;
use crate::particle_updates::cell_step;
use crate::particle_updates::updates_to;
use crate::particle_updates::Draws;
use crate::particle_updates::Update;
use crate::particle_params::ParticleParams;
use crate::particles::Particle;
use crate::particles::ParticleType;
use crate::particles::SPECIES_COUNT;
use crate::random::chance;
use crate::random::UNIT;

verus! {

/// A grid of particles as contracts see it: `width` columns and `height`
/// rows of cells, stored row by row.
#[verifier::ext_equal]
pub struct Plane {
    pub width: int,
    pub height: int,
    pub cells: Seq<Particle>,
}

impl Plane {
    /// Whether `(x, y)` is a cell of the grid.
    pub open spec fn inbounds(self, x: int, y: int) -> bool {
        0 <= x < self.width && 0 <= y < self.height
    }

    /// The place of cell `(x, y)` in the row-major store.
    pub open spec fn index(self, x: int, y: int) -> int {
        self.width * y + x
    }

    /// What a look at `(x, y)` gives: the particle stored there, or the
    /// sentinel where `(x, y)` is no cell of the grid.
    pub open spec fn at(self, x: int, y: int) -> Particle {
        if self.inbounds(x, y) {
            self.cells[self.index(x, y)]
        } else {
            Particle::sentinel()
        }
    }

    /// The grid with `p` written to cell `(x, y)`.
    pub open spec fn put(self, x: int, y: int, p: Particle) -> Plane {
        Plane { cells: self.cells.update(self.index(x, y), p), ..self }
    }

    /// The grid with the contents of two cells exchanged.
    pub open spec fn swap(self, x0: int, y0: int, x1: int, y1: int) -> Plane {
        self.put(x0, y0, self.at(x1, y1)).put(x1, y1, self.at(x0, y0))
    }

    /// Whether the store has one storable particle for each cell.
    pub open spec fn wf(self) -> bool {
        &&& 0 <= self.width
        &&& 0 <= self.height
        &&& self.cells.len() == self.width * self.height
        &&& forall|i: int| 0 <= i < self.cells.len() ==> (#[trigger] self.cells[i]).storable()
    }
}

/// Every cell of a grid has a place of its own in the store.
pub proof fn lemma_index(plane: Plane, x: int, y: int)
    requires
        plane.inbounds(x, y),
    ensures
        0 <= plane.index(x, y) < plane.width * plane.height,
        plane.index(x, y) % plane.width == x,
        plane.index(x, y) / plane.width == y,
{
    let w = plane.width;
    let h = plane.height;
    assert(0 <= w * y && w * y + w <= w * h) by (nonlinear_arith)
        requires
            0 <= y < h,
            0 < w,
    ;
    vstd::arithmetic::div_mod::lemma_fundamental_div_mod_converse(w * y + x, w, y, x);
}

/// Two cells with the same place in the store are the same cell.
pub proof fn lemma_index_injective(plane: Plane, x0: int, y0: int, x1: int, y1: int)
    requires
        plane.inbounds(x0, y0),
        plane.inbounds(x1, y1),
        plane.index(x0, y0) == plane.index(x1, y1),
    ensures
        x0 == x1,
        y0 == y1,
{
    lemma_index(plane, x0, y0);
    lemma_index(plane, x1, y1);
}

/// A write to one cell is seen at that cell and at no other.
pub proof fn lemma_put_at(plane: Plane, x: int, y: int, p: Particle, x1: int, y1: int)
    requires
        plane.cells.len() == plane.width * plane.height,
        plane.inbounds(x, y),
    ensures
        plane.put(x, y, p).at(x1, y1) == if x1 == x && y1 == y {
            p
        } else {
            plane.at(x1, y1)
        },
        plane.put(x, y, p).cells.len() == plane.cells.len(),
        plane.put(x, y, p).width == plane.width,
        plane.put(x, y, p).height == plane.height,
{
    lemma_index(plane, x, y);
    if plane.inbounds(x1, y1) {
        lemma_index(plane, x1, y1);
        if plane.index(x, y) == plane.index(x1, y1) {
            lemma_index_injective(plane, x, y, x1, y1);
        }
    }
}

/// Writing a storable particle to a cell keeps the grid well formed.
pub proof fn lemma_put_wf(plane: Plane, x: int, y: int, p: Particle)
    requires
        plane.wf(),
        plane.inbounds(x, y),
        p.storable(),
    ensures
        plane.put(x, y, p).wf(),
{
    lemma_index(plane, x, y);
}

/// Every cell of a well-formed grid holds a storable particle.
pub proof fn lemma_at_storable(plane: Plane, x: int, y: int)
    requires
        plane.wf(),
        plane.inbounds(x, y),
    ensures
        plane.at(x, y).storable(),
{
    lemma_index(plane, x, y);
}

/// An exchange of two cells is seen at those two cells and at no other, and
/// keeps the grid well formed.
pub proof fn lemma_swap_at(plane: Plane, x0: int, y0: int, x1: int, y1: int, x: int, y: int)
    requires
        plane.cells.len() == plane.width * plane.height,
        plane.inbounds(x0, y0),
        plane.inbounds(x1, y1),
    ensures
        plane.swap(x0, y0, x1, y1).at(x, y) == if x == x1 && y == y1 {
            plane.at(x0, y0)
        } else if x == x0 && y == y0 {
            plane.at(x1, y1)
        } else {
            plane.at(x, y)
        },
        plane.swap(x0, y0, x1, y1).cells.len() == plane.cells.len(),
        plane.swap(x0, y0, x1, y1).width == plane.width,
        plane.swap(x0, y0, x1, y1).height == plane.height,
        plane.wf() ==> plane.swap(x0, y0, x1, y1).wf(),
{
    let mid = plane.put(x0, y0, plane.at(x1, y1));
    lemma_put_at(plane, x0, y0, plane.at(x1, y1), x, y);
    lemma_put_at(mid, x1, y1, plane.at(x0, y0), x, y);
    if plane.wf() {
        lemma_index(plane, x0, y0);
        lemma_index(plane, x1, y1);
        lemma_put_wf(plane, x0, y0, plane.at(x1, y1));
        lemma_put_wf(mid, x1, y1, plane.at(x0, y0));
    }
}

/// An exchange of two cells, made a second time, undoes the first: a cursor
/// that swaps with the cell `(dx, dy)` from it and then with the cell
/// `(-dx, -dy)` from where it has come to is back where it was, and the grid
/// is what it was.
pub proof fn lemma_swap_back(plane: Plane, x: int, y: int, dx: int, dy: int)
    requires
        plane.cells.len() == plane.width * plane.height,
        plane.inbounds(x, y),
        plane.inbounds(x + dx, y + dy),
    ensures
        plane.swap(x, y, x + dx, y + dy).swap(x + dx, y + dy, (x + dx) + (-dx), (y + dy) + (-dy)) == plane,
        (x + dx) + (-dx) == x,
        (y + dy) + (-dy) == y,
{
    let there = plane.swap(x, y, x + dx, y + dy);
    let back = there.swap(x + dx, y + dy, x, y);
    lemma_swap_at(plane, x, y, x + dx, y + dy, x, y);
    lemma_swap_at(plane, x, y, x + dx, y + dy, x + dx, y + dy);
    assert forall|i: int| 0 <= i < plane.cells.len() implies back.cells[i] == plane.cells[i] by {
        let cx = i % plane.width;
        let cy = i / plane.width;
        lemma_cell_of(plane, i);
        lemma_swap_at(plane, x, y, x + dx, y + dy, cx, cy);
        lemma_swap_at(there, x + dx, y + dy, x, y, cx, cy);
    }
    lemma_swap_at(there, x + dx, y + dy, x, y, x, y);
    assert(back.cells =~= plane.cells);
    assert(back =~= plane);
}

/// Every place in the store is the place of a cell of the grid.
pub proof fn lemma_cell_of(plane: Plane, i: int)
    requires
        plane.cells.len() == plane.width * plane.height,
        0 <= i < plane.cells.len(),
        0 <= plane.height,
    ensures
        plane.inbounds(i % plane.width, i / plane.width),
        plane.index(i % plane.width, i / plane.width) == i,
{
    let w = plane.width;
    let h = plane.height;
    assert(w > 0) by (nonlinear_arith)
        requires
            0 <= i < w * h,
            0 <= h,
    ;
    vstd::arithmetic::div_mod::lemma_fundamental_div_mod(i, w);
    vstd::arithmetic::div_mod::lemma_mod_bound(i, w);
    vstd::arithmetic::div_mod::lemma_multiply_divide_lt(i, w, h);
    vstd::arithmetic::div_mod::lemma_div_pos_is_pos(i, w);
}

/// A look at a well-formed grid gives the sentinel's species outside the
/// grid and nowhere else.
pub proof fn lemma_sentinel(plane: Plane, x: int, y: int)
    requires
        plane.wf(),
    ensures
        plane.at(x, y).species == ParticleType::OutOfBounds <==> !plane.inbounds(x, y),
        !plane.inbounds(x, y) ==> plane.at(x, y) == Particle::sentinel(),
{
    if plane.inbounds(x, y) {
        lemma_at_storable(plane, x, y);
    }
}

/// The grid with the cell at `(x, y)` woken, if there is such a cell.
pub open spec fn woken(plane: Plane, x: int, y: int) -> Plane {
    if plane.inbounds(x, y) {
        plane.put(x, y, Particle { awake: true, ..plane.at(x, y) })
    } else {
        plane
    }
}

/// The simulation: the grid, the constants of the species and the settings
/// of the scheduler.
pub struct SandBox {
    pub height: usize,
    pub width: usize,
    /// The cells, row by row.
    pub grid: Vec<Particle>,
    /// The constants of each species, indexed by [`ParticleType::index`].
    pub particleparams: [ParticleParams; SPECIES_COUNT],
    /// The number of column bands that a tick splits the grid into, at most.
    pub thread_count: usize,
    /// The diameter of the brush of [`SandBox::add_cluster`].
    pub cluster_size: usize,
    /// The probability, in thousandths, that the brush fills a cell it covers.
    pub cluster_fill: u32,
    /// The bound below which the inset of the first band is drawn.
    pub chunk_offset: i32,
    /// The side that is tried first this tick: 1 or -1.
    pub flipflop: isize,
    /// The number of ticks run so far.
    pub tick: u32,
    /// The number of ticks that make one colour step.
    pub color_freq: u32,
    /// The number of colour steps made so far.
    pub color_shift: u32,
    /// The offset of the moment of each species' colours, indexed like the
    /// constants.
    pub color_wave: [i16; SPECIES_COUNT],
}

impl View for SandBox {
    type V = Plane;

    open spec fn view(&self) -> Plane {
        Plane { width: self.width as int, height: self.height as int, cells: self.grid@ }
    }
}

impl SandBox {
    /// Whether the simulation is in a valid state: the grid is well formed
    /// and the side to try first is 1 or -1.
    pub open spec fn wf(&self) -> bool {
        &&& self@.wf()
        &&& (self.flipflop == 1 || self.flipflop == -1)
    }

    /// Whether the two simulations differ in nothing but what their cells hold.
    pub open spec fn same_setup(&self, other: &SandBox) -> bool {
        &&& self.height == other.height
        &&& self.width == other.width
        &&& self.grid@.len() == other.grid@.len()
        &&& self.particleparams == other.particleparams
        &&& self.thread_count == other.thread_count
        &&& self.cluster_size == other.cluster_size
        &&& self.cluster_fill == other.cluster_fill
        &&& self.chunk_offset == other.chunk_offset
        &&& self.flipflop == other.flipflop
        &&& self.tick == other.tick
        &&& self.color_freq == other.color_freq
        &&& self.color_shift == other.color_shift
        &&& self.color_wave == other.color_wave
    }

    /// Whether the simulation is in a valid state.
    pub fn valid(&self) -> (b: bool)
        ensures
            b == self.wf(),
    {
        if self.flipflop != 1 && self.flipflop != -1 {
            return false;
        }
        match self.width.checked_mul(self.height) {
            Some(area) => {
                if area != self.grid.len() {
                    return false;
                }
            },
            None => {
                assert(self.grid.len() <= usize::MAX);
                return false;
            },
        }
        let mut i: usize = 0;
        while i < self.grid.len()
            invariant
                i <= self.grid@.len(),
                forall|k: int| 0 <= k < i ==> (#[trigger] self.grid@[k]).storable(),
            decreases self.grid@.len() - i,
        {
            if !self.grid[i].is_storable() {
                return false;
            }
            i += 1;
        }
        true
    }

    /// The constants of `species` in this simulation.
    pub open spec fn params_of(&self, species: ParticleType) -> ParticleParams {
        self.particleparams[species.spec_index() as int]
    }

    /// A simulation of `width` by `height` empty cells with the base
    /// constants, no bands, no brush and the first tick still to come.
    pub fn build(width: usize, height: usize) -> (world: Self)
        requires
            width * height <= usize::MAX,
        ensures
            world.wf(),
            world.width == width,
            world.height == height,
            forall|i: int|
                0 <= i < world.grid@.len() ==> (#[trigger] world.grid@[i]).built(ParticleType::Empty, None, 0),
            forall|species: ParticleType| #[trigger] world.params_of(species) == base_params(species),
            world.thread_count == 0,
            world.cluster_size == 0,
            world.cluster_fill == UNIT,
            world.chunk_offset == 0,
            world.flipflop == 1,
            world.tick == 0,
            world.color_freq == 0,
            world.color_shift == 0,
            forall|i: int| 0 <= i < SPECIES_COUNT ==> #[trigger] world.color_wave[i] == 0,
    {
        let area: usize = width * height;
        let mut grid: Vec<Particle> = Vec::new();
        let mut filled: usize = 0;
        while filled < area
            invariant
                filled <= area,
                grid@.len() == filled,
                forall|i: int|
                    0 <= i < grid@.len() ==> (#[trigger] grid@[i]).built(ParticleType::Empty, None, 0),
            decreases area - filled,
        {
            grid.push(Particle::build(ParticleType::Empty));
            filled += 1;
        }
        SandBox {
            height,
            width,
            grid,
            particleparams: ParticleParams::base_params_builder(),
            thread_count: 0,
            cluster_size: 0,
            cluster_fill: UNIT,
            chunk_offset: 0,
            flipflop: 1,
            tick: 0,
            color_freq: 0,
            color_shift: 0,
            color_wave: [0, 0, 0, 0, 0, 0, 0, 0, 0],
        }
    }

    /// The colour of each cell, row by row.
    pub fn to_color(&self) -> (colors: Vec<u32>)
        ensures
            colors@.len() == self.grid@.len(),
            forall|i: int| 0 <= i < colors@.len() ==> #[trigger] colors@[i] == self.grid@[i].color,
    {
        let mut colors: Vec<u32> = Vec::new();
        let mut i: usize = 0;
        while i < self.grid.len()
            invariant
                i <= self.grid@.len(),
                colors@.len() == i,
                forall|k: int| 0 <= k < colors@.len() ==> #[trigger] colors@[k] == self.grid@[k].color,
            decreases self.grid@.len() - i,
        {
            colors.push(self.grid[i].color);
            i += 1;
        }
        colors
    }

    /// A picture of who is awake, row by row: cyan for a cell that is awake,
    /// black for one that sleeps.
    pub fn to_debug(&self) -> (colors: Vec<u32>)
        ensures
            colors@.len() == self.grid@.len(),
            forall|i: int|
                0 <= i < colors@.len() ==> #[trigger] colors@[i] == if self.grid@[i].awake {
                    0xff00_ffffu32
                } else {
                    0xff00_0000u32
                },
    {
        let mut colors: Vec<u32> = Vec::new();
        let mut i: usize = 0;
        while i < self.grid.len()
            invariant
                i <= self.grid@.len(),
                colors@.len() == i,
                forall|k: int|
                    0 <= k < colors@.len() ==> #[trigger] colors@[k] == if self.grid@[k].awake {
                        0xff00_ffffu32
                    } else {
                        0xff00_0000u32
                    },
            decreases self.grid@.len() - i,
        {
            if self.grid[i].awake {
                colors.push(0xff00_ffff);
            } else {
                colors.push(0xff00_0000);
            }
            i += 1;
        }
        colors
    }

    /// Whether `(x, y)` is a cell of the grid.
    pub fn inbounds(&self, x: usize, y: usize) -> (inside: bool)
        ensures
            inside == self@.inbounds(x as int, y as int),
    {
        x < self.width && y < self.height
    }

    /// The place of cell `(x, y)` in the row-major store.
    pub fn index(&self, x: usize, y: usize) -> (i: usize)
        requires
            self@.cells.len() == self.width * self.height,
            self@.inbounds(x as int, y as int),
        ensures
            i == self@.index(x as int, y as int),
            i < self.grid@.len(),
    {
        proof {
            lemma_index(self@, x as int, y as int);
            assert(0 <= self.width * y) by (nonlinear_arith)
                requires
                    0 <= self.width,
                    0 <= y,
            ;
            assert(self.width * y + x < self.grid.len());
        }
        self.width * y + x
    }

    /// The particle at `(x, y)`, or the sentinel where `(x, y)` lies outside
    /// the grid.
    pub fn get(&self, x: usize, y: usize) -> (p: Particle)
        requires
            self.wf(),
        ensures
            p == self@.at(x as int, y as int),
            !self@.inbounds(x as int, y as int) ==> p == Particle::sentinel(),
    {
        if !self.inbounds(x, y) {
            return Particle::out_of_bounds();
        }
        let index: usize = self.index(x, y);
        self.grid[index]
    }

    /// The cell at `(x, y)` for writing, or `None` where `(x, y)` lies
    /// outside the grid.
    pub fn get_mut(&mut self, x: usize, y: usize) -> (cell: Option<&mut Particle>)
        requires
            old(self).wf(),
        ensures
            cell is Some <==> old(self)@.inbounds(x as int, y as int),
            match cell {
                Some(p) => {
                    &&& *p == old(self)@.at(x as int, y as int)
                    &&& final(self)@ == old(self)@.put(x as int, y as int, *final(p))
                    &&& final(self).same_setup(old(self))
                },
                None => *final(self) == *old(self),
            },
    {
        if !self.inbounds(x, y) {
            return None;
        }
        let index: usize = self.index(x, y);
        Some(&mut self.grid[index])
    }

    /// The cell at `(x, y)` for writing.
    pub fn get_mut_unchecked(&mut self, x: usize, y: usize) -> (p: &mut Particle)
        requires
            old(self).wf(),
            old(self)@.inbounds(x as int, y as int),
        ensures
            *p == old(self)@.at(x as int, y as int),
            final(self)@ == old(self)@.put(x as int, y as int, *final(p)),
            final(self).same_setup(old(self)),
    {
        let index: usize = self.index(x, y);
        &mut self.grid[index]
    }

    /// Whether a particle of `species` may be written over `old`: the
    /// sentinel's species is never written, emptiness is written over
    /// anything, and matter only over emptiness.
    pub open spec fn takes(old: Particle, species: ParticleType) -> bool {
        &&& species != ParticleType::OutOfBounds
        &&& old.is_empty() || species == ParticleType::Empty
    }

    /// The offset of the moment of the colours of `species`.
    pub open spec fn wave_of(&self, species: ParticleType) -> i16 {
        self.color_wave[species.spec_index() as int]
    }

    /// Writes a new particle of `species` to `(x, y)` if the cell is empty or
    /// `species` is emptiness; nothing happens where `(x, y)` lies outside
    /// the grid, and the sentinel's species is never written.
    pub fn add_particle(&mut self, species: ParticleType, x: usize, y: usize)
        requires
            old(self).wf(),
        ensures
            final(self).wf(),
            final(self).same_setup(old(self)),
            old(self)@.inbounds(x as int, y as int) && Self::takes(old(self)@.at(x as int, y as int), species)
                ==> {
                &&& final(self)@ == old(self)@.put(x as int, y as int, final(self)@.at(x as int, y as int))
                &&& final(self)@.at(x as int, y as int).built(
                    species,
                    species.spec_base_behavior(),
                    old(self).wave_of(species),
                )
            },
            !(old(self)@.inbounds(x as int, y as int) && Self::takes(old(self)@.at(x as int, y as int), species))
                ==> final(self)@ == old(self)@,
    {
        if !self.inbounds(x, y) {
            return ;
        }
        if species == ParticleType::OutOfBounds {
            return ;
        }
        let index: usize = self.index(x, y);
        if self.grid[index].is_empty() || species == ParticleType::Empty {
            let p = Particle::build_color(species, self.color_wave[species.index()]);
            proof {
                lemma_put_wf(self@, x as int, y as int, p);
                lemma_put_at(self@, x as int, y as int, p, x as int, y as int);
            }
            self.grid[index] = p;
        }
    }

    /// Whether the brush of radius `radius` at `(x, y)` covers the cell
    /// `(cx, cy)`: the cell lies within the circle of that radius.
    pub open spec fn covers(radius: int, x: int, y: int, cx: int, cy: int) -> bool {
        &&& -radius <= cx - x <= radius
        &&& -radius <= cy - y <= radius
        &&& (cx - x) * (cx - x) + (cy - y) * (cy - y) <= radius * radius
    }

    /// Whether `after` is what the brush may make of a cell that held
    /// `before` and takes `species`: a newly built particle of the species
    /// where the draw of the cell hit, and `before` where it did not.
    pub open spec fn brushed(&self, species: ParticleType, before: Particle, after: Particle) -> bool {
        let built = after.built(species, species.spec_base_behavior(), self.wave_of(species));
        &&& after == before || built
        &&& self.cluster_fill >= UNIT ==> built
        &&& self.cluster_fill == 0 ==> after == before
    }

    /// Places particles of `species` with a round brush at `(x, y)`, whose
    /// radius is half the cluster size. Each cell of the grid that the brush
    /// covers is written as [`SandBox::add_particle`] writes it, with the
    /// probability that `cluster_fill` gives; all other cells stay as they are.
    pub fn add_cluster(&mut self, species: ParticleType, x: usize, y: usize)
        requires
            old(self).wf(),
        ensures
            final(self).wf(),
            final(self).same_setup(old(self)),
            forall|cx: int, cy: int|
                old(self)@.inbounds(cx, cy) ==> if Self::covers(
                    old(self).cluster_size as int / 2,
                    x as int,
                    y as int,
                    cx,
                    cy,
                ) && Self::takes(old(self)@.at(cx, cy), species) {
                    old(self).brushed(species, old(self)@.at(cx, cy), #[trigger] final(self)@.at(cx, cy))
                } else {
                    final(self)@.at(cx, cy) == old(self)@.at(cx, cy)
                },
    {
        let radius: usize = self.cluster_size / 2;
        let ghost before = self@;
        let ghost r = radius as int;
        let mut ky: usize = 0;
        while ky <= 2 * radius
            invariant
                self.wf(),
                self.same_setup(old(self)),
                before == old(self)@,
                r == radius,
                radius == old(self).cluster_size as int / 2,
                ky <= 2 * radius + 1,
                forall|cx: int, cy: int|
                    before.inbounds(cx, cy) ==> if cy - y + r < ky && Self::covers(r, x as int, y as int, cx, cy)
                        && Self::takes(before.at(cx, cy), species) {
                        old(self).brushed(species, before.at(cx, cy), #[trigger] self@.at(cx, cy))
                    } else {
                        self@.at(cx, cy) == before.at(cx, cy)
                    },
            decreases 2 * radius + 1 - ky,
        {
            let dy: isize = if ky >= radius {
                (ky - radius) as isize
            } else {
                -((radius - ky) as isize)
            };
            let mut kx: usize = 0;
            while kx <= 2 * radius
                invariant
                    self.wf(),
                    self.same_setup(old(self)),
                    before == old(self)@,
                    r == radius,
                    radius == old(self).cluster_size as int / 2,
                    ky <= 2 * radius,
                    dy == ky - radius,
                    kx <= 2 * radius + 1,
                    forall|cx: int, cy: int|
                        before.inbounds(cx, cy) ==> if (cy - y + r < ky || (cy - y + r == ky && cx - x + r < kx))
                            && Self::covers(r, x as int, y as int, cx, cy) && Self::takes(
                            before.at(cx, cy),
                            species,
                        ) {
                            old(self).brushed(species, before.at(cx, cy), #[trigger] self@.at(cx, cy))
                        } else {
                            self@.at(cx, cy) == before.at(cx, cy)
                        },
                decreases 2 * radius + 1 - kx,
            {
                let dx: isize = if kx >= radius {
                    (kx - radius) as isize
                } else {
                    -((radius - kx) as isize)
                };
                let ghost cur = self@;
                if Self::in_circle(dx, dy, radius) {
                    match (offset(x, dx), offset(y, dy)) {
                        (Some(cx), Some(cy)) => {
                            if chance(self.cluster_fill) {
                                self.add_particle(species, cx, cy);
                            }
                            proof {
                                assert forall|ax: int, ay: int| before.inbounds(ax, ay) implies if (ay - y + r < ky
                                    || (ay - y + r == ky && ax - x + r < kx + 1)) && Self::covers(
                                    r,
                                    x as int,
                                    y as int,
                                    ax,
                                    ay,
                                ) && Self::takes(before.at(ax, ay), species) {
                                    old(self).brushed(species, before.at(ax, ay), #[trigger] self@.at(ax, ay))
                                } else {
                                    self@.at(ax, ay) == before.at(ax, ay)
                                } by {
                                    assert(cur.at(ax, ay) == cur.at(ax, ay));
                                    if cur.inbounds(cx as int, cy as int) {
                                        lemma_put_at(
                                            cur,
                                            cx as int,
                                            cy as int,
                                            self@.at(cx as int, cy as int),
                                            ax,
                                            ay,
                                        );
                                    }
                                }
                            }
                        },
                        _ => {},
                    }
                }
                kx += 1;
            }
            ky += 1;
        }
    }

    /// Whether the offset `(dx, dy)` lies within the circle of radius
    /// `radius` around the origin.
    pub fn in_circle(dx: isize, dy: isize, radius: usize) -> (inside: bool)
        requires
            -radius <= dx <= radius,
            -radius <= dy <= radius,
            radius <= isize::MAX,
        ensures
            inside == (dx * dx + dy * dy <= radius * radius),
    {
        let a: i128 = dx as i128;
        let b: i128 = dy as i128;
        let c: i128 = radius as i128;
        assert(0 <= a * a <= c * c && 0 <= b * b <= c * c && c * c <= 0x3fff_ffff_ffff_ffff_0000_0000_0000_0001)
            by (nonlinear_arith)
            requires
                -c <= a <= c,
                -c <= b <= c,
                0 <= c <= 0x7fff_ffff_ffff_ffff,
        ;
        a * a + b * b <= c * c
    }

    /// Empties every cell.
    pub fn clear(&mut self)
        requires
            old(self).wf(),
        ensures
            final(self).wf(),
            final(self).same_setup(old(self)),
            forall|i: int|
                0 <= i < final(self).grid@.len() ==> (#[trigger] final(self).grid@[i]).built(
                    ParticleType::Empty,
                    None,
                    old(self).wave_of(ParticleType::Empty),
                ),
    {
        let gamma: i16 = self.color_wave[ParticleType::Empty.index()];
        let mut i: usize = 0;
        while i < self.grid.len()
            invariant
                self.wf(),
                self.same_setup(old(self)),
                i <= self.grid@.len(),
                forall|k: int|
                    0 <= k < i ==> (#[trigger] self.grid@[k]).built(ParticleType::Empty, None, gamma),
            decreases self.grid@.len() - i,
        {
            let p = Particle::build_color(ParticleType::Empty, gamma);
            self.grid[i] = p;
            i += 1;
        }
    }

    /// Updates the cell `(x, y)` by the rule of the particle there.
    pub fn update_cell(&mut self, x: usize, y: usize)
        requires
            old(self).wf(),
            old(self)@.inbounds(x as int, y as int),
        ensures
            final(self).wf(),
            final(self).same_setup(old(self)),
            conserved(old(self).grid@, final(self).grid@),
            updates_to(
                old(self)@,
                old(self).particleparams,
                old(self).flipflop as int,
                x as int,
                y as int,
                final(self)@,
            ),
    {
        let mut handler = Handler::build(x, y, self);
        handler.update(self);
    }

    /// Exchanges the contents of the cells stored at `from` and `to`.
    pub fn swap(&mut self, from: usize, to: usize)
        requires
            from < old(self).grid@.len(),
            to < old(self).grid@.len(),
        ensures
            final(self).grid@ == old(self).grid@.update(from as int, old(self).grid@[to as int]).update(
                to as int,
                old(self).grid@[from as int],
            ),
            final(self).same_setup(old(self)),
    {
        let first: Particle = self.grid[from];
        let second: Particle = self.grid[to];
        self.grid[from] = second;
        self.grid[to] = first;
    }
}

/// Moves a coordinate by a signed amount; `None` where the result is below
/// zero or above what a coordinate can hold.
pub fn offset(at: usize, by: isize) -> (moved: Option<usize>)
    ensures
        match moved {
            Some(to) => to == at + by,
            None => at + by < 0 || at + by > usize::MAX,
        },
{
    if by >= 0 {
        at.checked_add(by as usize)
    } else {
        let back: usize = (-(by + 1)) as usize + 1;
        if back <= at {
            Some(at - back)
        } else {
            None
        }
    }
}

/// The cursor of one cell's update: it is bound to a cell, keeps a copy of
/// the particle it saw there, and follows that particle when it moves.
pub struct Handler {
    pub x: usize,
    pub y: usize,
    /// The particle seen at `(x, y)` when the copy was last taken.
    pub here: Particle,
}

impl Handler {
    /// Whether the cursor stands on a cell of the grid and its copy is what
    /// that cell holds.
    pub open spec fn wf(&self, sandbox: &SandBox) -> bool {
        &&& sandbox@.inbounds(self.x as int, self.y as int)
        &&& self.here == sandbox@.at(self.x as int, self.y as int)
    }

    /// A cursor on `(x, y)` with a copy of what is there.
    pub fn build(x: usize, y: usize, sandbox: &SandBox) -> (handler: Self)
        requires
            sandbox.wf(),
        ensures
            handler.x == x,
            handler.y == y,
            handler.here == sandbox@.at(x as int, y as int),
    {
        Handler { x, y, here: sandbox.get(x, y) }
    }

    /// The cell `dx` columns and `dy` rows from the cursor; `None` where that
    /// is no coordinate at all.
    pub fn relative_index(&self, dx: isize, dy: isize) -> (target: Option<(usize, usize)>)
        ensures
            match target {
                Some((nx, ny)) => nx == self.x + dx && ny == self.y + dy,
                None => self.x + dx < 0 || self.x + dx > usize::MAX || self.y + dy < 0 || self.y + dy
                    > usize::MAX,
            },
    {
        match offset(self.x, dx) {
            Some(nx) => match offset(self.y, dy) {
                Some(ny) => Some((nx, ny)),
                None => None,
            },
            None => None,
        }
    }

    /// Updates the cell the cursor stands on by the rule of the particle
    /// seen there. The cursor follows the particle.
    pub fn update(&mut self, sandbox: &mut SandBox)
        requires
            old(sandbox).wf(),
            old(self).wf(old(sandbox)),
        ensures
            final(sandbox).wf(),
            final(sandbox).same_setup(old(sandbox)),
            final(self).wf(final(sandbox)),
            conserved(old(sandbox).grid@, final(sandbox).grid@),
            exists|draws: Draws| #[trigger]
                draws.fair(old(sandbox).params_of(old(self).here.species)) && arrived(
                    final(self),
                    final(sandbox),
                    cell_step(
                        old(sandbox)@,
                        old(sandbox).particleparams,
                        old(sandbox).flipflop as int,
                        old(self).x as int,
                        old(self).y as int,
                        draws,
                    ),
                ),
            updates_to(
                old(sandbox)@,
                old(sandbox).particleparams,
                old(sandbox).flipflop as int,
                old(self).x as int,
                old(self).y as int,
                final(sandbox)@,
            ),
    {
        let ghost before = sandbox@;
        let ghost table = sandbox.particleparams;
        let ghost params = sandbox.params_of(self.here.species);
        let ghost flipflop = sandbox.flipflop as int;
        let ghost x = self.x as int;
        let ghost y = self.y as int;
        if let Some(behavior) = self.here.behavior {
            behavior.update(self, sandbox);
            proof {
                let draws = choose|draws: Draws| #[trigger]
                    draws.fair(params) && arrived(
                        self,
                        sandbox,
                        behavior.step(before, table, flipflop, x, y, draws),
                    );
                assert(draws.fair(params) && arrived(
                    self,
                    sandbox,
                    cell_step(before, table, flipflop, x, y, draws),
                ));
            }
        } else {
            proof {
                let quiet = Draws::quiet(params, Particle::vacant());
                Particle::lemma_vacant_built();
                lemma_conserved_refl(before.cells);
                assert(quiet.fair(params) && arrived(
                    self,
                    sandbox,
                    cell_step(before, table, flipflop, x, y, quiet),
                ));
            }
        }
    }

    /// Takes the copy anew from the cell the cursor stands on.
    pub fn reup_here(&mut self, sandbox: &SandBox)
        requires
            sandbox.wf(),
        ensures
            final(self).x == old(self).x,
            final(self).y == old(self).y,
            final(self).here == sandbox@.at(old(self).x as int, old(self).y as int),
    {
        self.here = sandbox.get(self.x, self.y);
    }

    /// The particle `dx` columns and `dy` rows from the cursor, or the
    /// sentinel where that lies outside the grid.
    pub fn get(&self, sandbox: &SandBox, dx: isize, dy: isize) -> (p: Particle)
        requires
            sandbox.wf(),
        ensures
            p == sandbox@.at(self.x + dx, self.y + dy),
    {
        match self.relative_index(dx, dy) {
            Some((nx, ny)) => sandbox.get(nx, ny),
            None => Particle::out_of_bounds(),
        }
    }

    /// The cell `dx` columns and `dy` rows from the cursor for writing, or
    /// `None` where that lies outside the grid.
    pub fn get_mut<'a>(&self, sandbox: &'a mut SandBox, dx: isize, dy: isize) -> (cell: Option<
        &'a mut Particle,
    >)
        requires
            old(sandbox).wf(),
        ensures
            cell is Some <==> old(sandbox)@.inbounds(self.x + dx, self.y + dy),
            match cell {
                Some(p) => {
                    &&& *p == old(sandbox)@.at(self.x + dx, self.y + dy)
                    &&& final(sandbox)@ == old(sandbox)@.put(self.x + dx, self.y + dy, *final(p))
                    &&& final(sandbox).same_setup(old(sandbox))
                },
                None => *final(sandbox) == *old(sandbox),
            },
    {
        match self.relative_index(dx, dy) {
            Some((nx, ny)) => sandbox.get_mut(nx, ny),
            None => None,
        }
    }

    /// The cell `dx` columns and `dy` rows from the cursor for writing.
    pub fn get_mut_unchecked<'a>(&self, sandbox: &'a mut SandBox, dx: isize, dy: isize) -> (p:
        &'a mut Particle)
        requires
            old(sandbox).wf(),
            old(sandbox)@.inbounds(self.x + dx, self.y + dy),
        ensures
            *p == old(sandbox)@.at(self.x + dx, self.y + dy),
            final(sandbox)@ == old(sandbox)@.put(self.x + dx, self.y + dy, *final(p)),
            final(sandbox).same_setup(old(sandbox)),
    {
        let nx: usize = offset(self.x, dx).unwrap();
        let ny: usize = offset(self.y, dy).unwrap();
        sandbox.get_mut_unchecked(nx, ny)
    }

    /// The cell the cursor stands on, for writing.
    pub fn get_mut_here<'a>(&self, sandbox: &'a mut SandBox) -> (p: &'a mut Particle)
        requires
            old(sandbox).wf(),
            old(sandbox)@.inbounds(self.x as int, self.y as int),
        ensures
            *p == old(sandbox)@.at(self.x as int, self.y as int),
            final(sandbox)@ == old(sandbox)@.put(self.x as int, self.y as int, *final(p)),
            final(sandbox).same_setup(old(sandbox)),
    {
        sandbox.get_mut_unchecked(self.x, self.y)
    }

    /// Writes `p` to the cell the cursor stands on and takes it as the copy.
    pub fn set_here(&mut self, sandbox: &mut SandBox, p: Particle)
        requires
            old(sandbox).wf(),
            old(sandbox)@.inbounds(old(self).x as int, old(self).y as int),
        ensures
            final(sandbox)@ == old(sandbox)@.put(old(self).x as int, old(self).y as int, p),
            final(sandbox).same_setup(old(sandbox)),
            final(self).x == old(self).x,
            final(self).y == old(self).y,
            final(self).here == p,
            final(self).wf(final(sandbox)),
            p.storable() ==> final(sandbox).wf(),
            p.species == old(sandbox)@.at(old(self).x as int, old(self).y as int).species ==> conserved(
                old(sandbox).grid@,
                final(sandbox).grid@,
            ),
    {
        proof {
            let x = self.x as int;
            let y = self.y as int;
            lemma_put_at(sandbox@, x, y, p, x, y);
            if p.storable() {
                lemma_put_wf(sandbox@, x, y, p);
            }
            if p.species == sandbox@.at(x, y).species {
                lemma_conserved_put(sandbox@, x, y, p);
            }
        }
        let cell = sandbox.get_mut_unchecked(self.x, self.y);
        *cell = p;
        self.here = p;
    }

    /// Wakes the cell `dx` columns and `dy` rows from the cursor, if there is
    /// such a cell and it is not the one the cursor stands on.
    pub fn wake(&self, sandbox: &mut SandBox, dx: isize, dy: isize)
        requires
            old(sandbox).wf(),
            self.wf(old(sandbox)),
            dx != 0 || dy != 0,
        ensures
            final(sandbox)@ == woken(old(sandbox)@, self.x + dx, self.y + dy),
            final(sandbox).same_setup(old(sandbox)),
            final(sandbox).wf(),
            self.wf(final(sandbox)),
            conserved(old(sandbox).grid@, final(sandbox).grid@),
    {
        let ghost before = sandbox@;
        let ghost nx = self.x + dx;
        let ghost ny = self.y + dy;
        proof {
            lemma_conserved_refl(before.cells);
            if before.inbounds(nx, ny) {
                let p = Particle { awake: true, ..before.at(nx, ny) };
                lemma_at_storable(before, nx, ny);
                lemma_put_wf(before, nx, ny, p);
                lemma_conserved_put(before, nx, ny, p);
                lemma_put_at(before, nx, ny, p, self.x as int, self.y as int);
            }
        }
        if let Some(p) = self.get_mut(sandbox, dx, dy) {
            p.awake = true;
        }
    }

    /// Gives the velocity of the cursor's particle to the cell `dx` columns
    /// and `dy` rows from the cursor.
    pub fn hand_over(&self, sandbox: &mut SandBox, dx: isize, dy: isize)
        requires
            old(sandbox).wf(),
            self.wf(old(sandbox)),
            old(sandbox)@.inbounds(self.x + dx, self.y + dy),
        ensures
            final(sandbox)@ == old(sandbox)@.put(
                self.x + dx,
                self.y + dy,
                Particle { vx: self.here.vx, vy: self.here.vy, ..old(sandbox)@.at(self.x + dx, self.y + dy) },
            ),
            final(sandbox).same_setup(old(sandbox)),
            final(sandbox).wf(),
            self.wf(final(sandbox)),
            conserved(old(sandbox).grid@, final(sandbox).grid@),
    {
        let ghost before = sandbox@;
        let ghost nx = self.x + dx;
        let ghost ny = self.y + dy;
        proof {
            let p = Particle { vx: self.here.vx, vy: self.here.vy, ..before.at(nx, ny) };
            lemma_at_storable(before, nx, ny);
            lemma_put_wf(before, nx, ny, p);
            lemma_conserved_put(before, nx, ny, p);
            lemma_put_at(before, nx, ny, p, self.x as int, self.y as int);
        }
        let vx: i32 = self.here.vx;
        let vy: i32 = self.here.vy;
        let cell = self.get_mut_unchecked(sandbox, dx, dy);
        cell.vx = vx;
        cell.vy = vy;
    }

    /// The constants of the species found `dx` columns and `dy` rows from
    /// the cursor.
    pub fn get_params(&self, sandbox: &SandBox, dx: isize, dy: isize) -> (params: ParticleParams)
        requires
            sandbox.wf(),
        ensures
            params == sandbox.params_of(sandbox@.at(self.x + dx, self.y + dy).species),
    {
        let particle = self.get(sandbox, dx, dy);
        sandbox.particleparams[particle.species.index()]
    }

    /// The constants of the species of the cursor's copy.
    pub fn get_params_here(&self, sandbox: &SandBox) -> (params: ParticleParams)
        ensures
            params == sandbox.params_of(self.here.species),
    {
        sandbox.particleparams[self.here.species.index()]
    }

    /// Exchanges the cell the cursor stands on with the one `tx` columns and
    /// `ty` rows from it, and moves the cursor there, so that it stays with
    /// its particle.
    pub fn swap(&mut self, sandbox: &mut SandBox, tx: isize, ty: isize)
        requires
            old(sandbox).wf(),
            old(sandbox)@.inbounds(old(self).x as int, old(self).y as int),
            old(sandbox)@.inbounds(old(self).x + tx, old(self).y + ty),
        ensures
            final(sandbox)@ == old(sandbox)@.swap(
                old(self).x as int,
                old(self).y as int,
                old(self).x + tx,
                old(self).y + ty,
            ),
            final(sandbox).same_setup(old(sandbox)),
            final(sandbox).wf(),
            final(self).x == old(self).x + tx,
            final(self).y == old(self).y + ty,
            final(self).here == old(sandbox)@.at(old(self).x as int, old(self).y as int),
            final(self).wf(final(sandbox)),
            conserved(old(sandbox).grid@, final(sandbox).grid@),
    {
        let nx: usize = offset(self.x, tx).unwrap();
        let ny: usize = offset(self.y, ty).unwrap();
        let from: usize = sandbox.index(self.x, self.y);
        let to: usize = sandbox.index(nx, ny);
        proof {
            lemma_swap_at(sandbox@, self.x as int, self.y as int, nx as int, ny as int, nx as int, ny as int);
            lemma_conserved_swap(sandbox@, self.x as int, self.y as int, nx as int, ny as int);
        }
        sandbox.swap(from, to);
        self.x = nx;
        self.y = ny;
        self.here = sandbox.get(nx, ny);
    }
}

} // verus!

use vstd::prelude::*;
use crate::particles::Particle;
use crate::particles::ParticleType;
use crate::sandbox::lemma_index;
use crate::sandbox::Plane;

verus! {

/// The species of the cells, in the order of the cells.
pub open spec fn species_of(cells: Seq<Particle>) -> Seq<ParticleType> {
    cells.map_values(|p: Particle| p.species)
}

/// The number of cells that hold a particle of `species`.
pub open spec fn count(cells: Seq<Particle>, species: ParticleType) -> nat {
    species_of(cells).to_multiset().count(species)
}

/// The number of cells that are not empty.
pub open spec fn matter(cells: Seq<Particle>) -> int {
    cells.len() - count(cells, ParticleType::Empty)
}

/// Whether `after` holds the matter of `before`, but for smoke that decayed:
/// there are as many cells, every species other than smoke and emptiness is
/// there as often as before, there is no more smoke than before, and every
/// cell that smoke has left is empty.
#[verifier::opaque]
pub open spec fn conserved(before: Seq<Particle>, after: Seq<Particle>) -> bool {
    &&& after.len() == before.len()
    &&& forall|species: ParticleType|
        species != ParticleType::Empty && species != ParticleType::Smoke ==> #[trigger] count(after, species)
            == count(before, species)
    &&& count(after, ParticleType::Smoke) <= count(before, ParticleType::Smoke)
    &&& count(after, ParticleType::Smoke) + count(after, ParticleType::Empty) == count(
        before,
        ParticleType::Smoke,
    ) + count(before, ParticleType::Empty)
}

/// A write to one cell takes one particle of the old species away and adds
/// one of the new species.
pub proof fn lemma_count_update(cells: Seq<Particle>, i: int, p: Particle, species: ParticleType)
    requires
        0 <= i < cells.len(),
    ensures
        count(cells.update(i, p), species) == count(cells, species) + (if p.species == species {
            1int
        } else {
            0int
        }) - (if cells[i].species == species {
            1int
        } else {
            0int
        }),
{
    broadcast use {
        vstd::multiset::group_multiset_axioms,
        vstd::seq_lib::to_multiset_update,
        vstd::seq_lib::to_multiset_contains,
    };

    let before = species_of(cells);
    assert(species_of(cells.update(i, p)) =~= before.update(i, p.species));
    assert(before[i] == cells[i].species);
    assert(before.contains(before[i]));
}

/// Nothing is lost where nothing changes.
pub proof fn lemma_conserved_refl(cells: Seq<Particle>)
    ensures
        conserved(cells, cells),
{
    reveal(conserved);
}

/// What is conserved over two stretches is conserved over both together.
pub proof fn lemma_conserved_trans(a: Seq<Particle>, b: Seq<Particle>, c: Seq<Particle>)
    requires
        conserved(a, b),
        conserved(b, c),
    ensures
        conserved(a, c),
{
    reveal(conserved);
    assert forall|species: ParticleType|
        species != ParticleType::Empty && species != ParticleType::Smoke implies #[trigger] count(c, species)
        == count(a, species) by {
        assert(count(b, species) == count(a, species));
    }
}

/// A write that keeps the species of the cell conserves the matter.
pub proof fn lemma_conserved_put(plane: Plane, x: int, y: int, p: Particle)
    requires
        plane.cells.len() == plane.width * plane.height,
        plane.inbounds(x, y),
        p.species == plane.at(x, y).species,
    ensures
        conserved(plane.cells, plane.put(x, y, p).cells),
{
    reveal(conserved);
    lemma_index(plane, x, y);
    assert forall|species: ParticleType| #[trigger]
        count(plane.put(x, y, p).cells, species) == count(plane.cells, species) by {
        lemma_count_update(plane.cells, plane.index(x, y), p, species);
    }
}

/// Smoke that turns into emptiness conserves the matter.
pub proof fn lemma_conserved_decay(plane: Plane, x: int, y: int, p: Particle)
    requires
        plane.cells.len() == plane.width * plane.height,
        plane.inbounds(x, y),
        plane.at(x, y).species == ParticleType::Smoke,
        p.species == ParticleType::Empty,
    ensures
        conserved(plane.cells, plane.put(x, y, p).cells),
{
    reveal(conserved);
    lemma_index(plane, x, y);
    assert forall|species: ParticleType| #[trigger]
        count(plane.put(x, y, p).cells, species) == count(plane.cells, species) + (if species
            == ParticleType::Empty {
            1int
        } else {
            0int
        }) - (if species == ParticleType::Smoke {
            1int
        } else {
            0int
        }) by {
        lemma_count_update(plane.cells, plane.index(x, y), p, species);
    }
    assert(count(plane.put(x, y, p).cells, ParticleType::Smoke) == count(plane.cells, ParticleType::Smoke) - 1);
    assert(count(plane.put(x, y, p).cells, ParticleType::Empty) == count(plane.cells, ParticleType::Empty) + 1);
}

/// An exchange of two cells conserves the matter.
pub proof fn lemma_conserved_swap(plane: Plane, x0: int, y0: int, x1: int, y1: int)
    requires
        plane.cells.len() == plane.width * plane.height,
        plane.inbounds(x0, y0),
        plane.inbounds(x1, y1),
    ensures
        conserved(plane.cells, plane.swap(x0, y0, x1, y1).cells),
{
    reveal(conserved);
    lemma_index(plane, x0, y0);
    lemma_index(plane, x1, y1);
    let i = plane.index(x0, y0);
    let j = plane.index(x1, y1);
    let mid = plane.cells.update(i, plane.cells[j]);
    assert(plane.swap(x0, y0, x1, y1).cells == mid.update(j, plane.cells[i]));
    assert forall|species: ParticleType| #[trigger]
        count(plane.swap(x0, y0, x1, y1).cells, species) == count(plane.cells, species) by {
        lemma_count_update(plane.cells, i, plane.cells[j], species);
        lemma_count_update(mid, j, plane.cells[i], species);
    }
}

/// The cells that are not empty grow no more in number, and what they lose is
/// the smoke that decayed.
pub proof fn lemma_matter(before: Seq<Particle>, after: Seq<Particle>)
    requires
        conserved(before, after),
    ensures
        matter(after) <= matter(before),
        matter(before) - matter(after) == count(before, ParticleType::Smoke) - count(
            after,
            ParticleType::Smoke,
        ),
{
    reveal(conserved);
}

} // verus!

use vstd::prelude::*;
use crate::helpers::channel_near;
use crate::helpers::color_near;
use crate::helpers::pixel;
use crate::random::chance;
use crate::random::UNIT;
use crate::particle_updates::Behavior;
use crate::particle_updates::FreeFall;
use crate::particle_updates::Gas;
use crate::particle_updates::Liquid;
use crate::particle_updates::Solid;

verus! {

/// The number of species, which is the length of a parameter table.
pub const SPECIES_COUNT: usize = 9;

/// The material a particle is made of.
///
/// `OutOfBounds` is the species of the sentinel that stands for every cell
/// beyond the edge of the grid; no cell of a grid holds it.
#[derive(Clone, Copy, Debug, PartialEq, Eq, Structural)]
pub enum ParticleType {
    Empty,
    Sand,
    Water,
    Stone,
    Smoke,
    Gravel,
    Wood,
    Oil,
    OutOfBounds,
}

impl ParticleType {
    /// The rule a particle of this species follows when it is not in free fall.
    pub open spec fn spec_base_behavior(&self) -> Option<Behavior> {
        match self {
            ParticleType::Sand => Some(Behavior::Solid(Solid)),
            ParticleType::Water => Some(Behavior::Liquid(Liquid)),
            ParticleType::Smoke => Some(Behavior::Gas(Gas)),
            ParticleType::Gravel => Some(Behavior::Solid(Solid)),
            ParticleType::Oil => Some(Behavior::Liquid(Liquid)),
            ParticleType::OutOfBounds => Some(Behavior::Solid(Solid)),
            _ => None,
        }
    }

    /// The rule a particle of this species follows when it is not in free fall;
    /// `None` for the species that never act.
    #[verifier::when_used_as_spec(spec_base_behavior)]
    pub fn base_behavior(&self) -> (b: Option<Behavior>)
        ensures
            b == self.spec_base_behavior(),
    {
        match self {
            Self::Sand => Some(Behavior::Solid(Solid)),
            Self::Water => Some(Behavior::Liquid(Liquid)),
            Self::Smoke => Some(Behavior::Gas(Gas)),
            Self::Gravel => Some(Behavior::Solid(Solid)),
            Self::Oil => Some(Behavior::Liquid(Liquid)),
            Self::OutOfBounds => Some(Behavior::Solid(Solid)),
            _ => None,
        }
    }

    /// The position of this species in a parameter table.
    pub open spec fn spec_index(self) -> usize {
        match self {
            ParticleType::Empty => 0,
            ParticleType::Sand => 1,
            ParticleType::Water => 2,
            ParticleType::Stone => 3,
            ParticleType::Smoke => 4,
            ParticleType::Gravel => 5,
            ParticleType::Wood => 6,
            ParticleType::Oil => 7,
            ParticleType::OutOfBounds => 8,
        }
    }

    /// The position of this species in a parameter table.
    #[verifier::when_used_as_spec(spec_index)]
    pub fn index(self) -> (i: usize)
        ensures
            i == self.spec_index(),
            i < SPECIES_COUNT,
    {
        match self {
            ParticleType::Empty => 0,
            ParticleType::Sand => 1,
            ParticleType::Water => 2,
            ParticleType::Stone => 3,
            ParticleType::Smoke => 4,
            ParticleType::Gravel => 5,
            ParticleType::Wood => 6,
            ParticleType::Oil => 7,
            ParticleType::OutOfBounds => 8,
        }
    }

    /// The colour a species is painted in and how far a channel may stray
    /// from it: red, green, blue, spread. The sentinel has one fixed colour
    /// and no entry here.
    pub open spec fn tint(self) -> (u8, u8, u8, u32) {
        match self {
            ParticleType::Empty => (220, 235, 245, 6),
            ParticleType::Sand => (245, 210, 170, 15),
            ParticleType::Water => (180, 225, 235, 15),
            ParticleType::Stone => (190, 190, 200, 15),
            ParticleType::Smoke => (120, 120, 130, 20),
            ParticleType::Gravel => (160, 150, 145, 40),
            ParticleType::Wood => (200, 175, 130, 30),
            ParticleType::Oil => (100, 50, 50, 10),
            ParticleType::OutOfBounds => (255, 0, 255, 1),
        }
    }

    /// Whether `color` is a colour that a particle of this species may get
    /// when the offset of the moment is `gamma`: the sentinel's fixed colour,
    /// or an opaque pixel whose channels are those of the species' tint, each
    /// moved by a jitter below the spread and by `gamma`.
    pub open spec fn paints(self, gamma: i16, color: u32) -> bool {
        if self == ParticleType::OutOfBounds {
            color == 0xff00_ffff
        } else {
            exists|r: i8, g: i8, b: i8|
                color == #[trigger] pixel(
                    channel_near(self.tint().0, r, self.tint().3, gamma),
                    channel_near(self.tint().1, g, self.tint().3, gamma),
                    channel_near(self.tint().2, b, self.tint().3, gamma),
                )
        }
    }

    /// The tint of this species and the spread of its colours: red, green,
    /// blue, spread.
    pub fn base_color(self) -> (tint: (u8, u8, u8, u32))
        ensures
            tint == self.tint(),
            0 < tint.3 <= 127,
    {
        match self {
            ParticleType::Empty => (220, 235, 245, 6),
            ParticleType::Sand => (245, 210, 170, 15),
            ParticleType::Water => (180, 225, 235, 15),
            ParticleType::Stone => (190, 190, 200, 15),
            ParticleType::Smoke => (120, 120, 130, 20),
            ParticleType::Gravel => (160, 150, 145, 40),
            ParticleType::Wood => (200, 175, 130, 30),
            ParticleType::Oil => (100, 50, 50, 10),
            ParticleType::OutOfBounds => (255, 0, 255, 1),
        }
    }

    /// The number of colour steps after which the shade of a species comes
    /// round again.
    pub open spec fn period(self) -> u32 {
        match self {
            ParticleType::Empty => 20,
            ParticleType::Sand => 30,
            ParticleType::Water => 30,
            ParticleType::Stone => 35,
            ParticleType::Smoke => 40,
            ParticleType::Gravel => 28,
            ParticleType::Wood => 22,
            ParticleType::Oil => 20,
            ParticleType::OutOfBounds => 1,
        }
    }

    /// The number of colour steps after which the shade of this species
    /// comes round again.
    pub fn color_period(self) -> (period: u32)
        ensures
            period == self.period(),
            period > 0,
    {
        match self {
            ParticleType::Empty => 20,
            ParticleType::Sand => 30,
            ParticleType::Water => 30,
            ParticleType::Stone => 35,
            ParticleType::Smoke => 40,
            ParticleType::Gravel => 28,
            ParticleType::Wood => 22,
            ParticleType::Oil => 20,
            ParticleType::OutOfBounds => 1,
        }
    }

    /// A colour for a new particle of this species, jittered at random around
    /// the species' tint and moved by `gamma`, the offset of the moment.
    pub fn color(self, gamma: i16) -> (color: u32)
        ensures
            self.paints(gamma, color),
    {
        if self == ParticleType::OutOfBounds {
            0xff00_ffff
        } else {
            let tint = self.base_color();
            color_near(tint.0, tint.1, tint.2, tint.3, gamma)
        }
    }
}

/// The content of one cell of the grid.
///
/// Velocities are in thousandths of a cell per tick; `vy` grows downwards.
#[derive(Clone, Copy, Debug)]
pub struct Particle {
    pub species: ParticleType,
    pub behavior: Option<Behavior>,
    pub color: u32,
    pub direction_bias: bool,
    pub awake: bool,
    pub vx: i32,
    pub vy: i32,
}

impl Particle {
    /// The particle that stands for every cell beyond the edge of the grid.
    pub open spec fn sentinel() -> Particle {
        Particle {
            species: ParticleType::OutOfBounds,
            behavior: Some(Behavior::Solid(Solid)),
            color: 0xff00_ffff,
            direction_bias: false,
            awake: true,
            vx: 0,
            vy: 0,
        }
    }

    /// Whether this is what a builder makes of `species`: awake, at rest,
    /// with the rule `behavior` and a colour of the species. The direction
    /// bias is left to chance.
    pub open spec fn built(self, species: ParticleType, behavior: Option<Behavior>, gamma: i16) -> bool {
        &&& self.species == species
        &&& self.behavior == behavior
        &&& species.paints(gamma, self.color)
        &&& self.awake
        &&& self.vx == 0
        &&& self.vy == 0
    }

    /// Whether a cell of a grid may hold this particle: it is not the
    /// sentinel, and its rule is that of its species, unless it is a solid in
    /// free fall.
    pub open spec fn storable(self) -> bool {
        &&& self.species != ParticleType::OutOfBounds
        &&& (self.behavior == self.species.spec_base_behavior() || (self.spec_is_falling()
            && self.species.spec_base_behavior() == Some(Behavior::Solid(Solid))))
    }

    /// Whether a cell of a grid may hold this particle.
    pub fn is_storable(&self) -> (b: bool)
        ensures
            b == self.storable(),
    {
        let base = self.species.base_behavior();
        self.species != ParticleType::OutOfBounds && (self.behavior == base || (self.is_falling() && base == Some(
            Behavior::Solid(Solid),
        )))
    }

    /// An empty particle in the plain tint of emptiness.
    pub open spec fn vacant() -> Particle {
        Particle {
            species: ParticleType::Empty,
            behavior: None,
            color: 0xffdc_ebf5,
            direction_bias: false,
            awake: true,
            vx: 0,
            vy: 0,
        }
    }

    /// The vacant particle is one that a builder may make.
    pub proof fn lemma_vacant_built()
        ensures
            Self::vacant().built(ParticleType::Empty, None, 0),
            Self::vacant().storable(),
    {
        let tint = ParticleType::Empty.tint();
        assert(0xffdc_ebf5u32 == pixel(
            channel_near(tint.0, 0, tint.3, 0),
            channel_near(tint.1, 0, tint.3, 0),
            channel_near(tint.2, 0, tint.3, 0),
        ));
    }

    /// The sentinel for the cells beyond the edge of the grid: an immovable
    /// solid of species `OutOfBounds`.
    pub fn out_of_bounds() -> (p: Self)
        ensures
            p == Self::sentinel(),
    {
        Particle {
            species: ParticleType::OutOfBounds,
            behavior: Some(Behavior::Solid(Solid)),
            color: 0xff00_ffff,
            direction_bias: false,
            awake: true,
            vx: 0,
            vy: 0,
        }
    }

    /// A new particle of `species` with the rule of its species.
    pub fn build(species: ParticleType) -> (p: Self)
        ensures
            p.built(species, species.spec_base_behavior(), 0),
    {
        Particle {
            species,
            behavior: species.base_behavior(),
            color: species.color(0),
            direction_bias: chance(UNIT / 2),
            awake: true,
            vx: 0,
            vy: 0,
        }
    }

    /// A new particle of `species` whose colour is moved by `gamma`.
    pub fn build_color(species: ParticleType, gamma: i16) -> (p: Self)
        ensures
            p.built(species, species.spec_base_behavior(), gamma),
    {
        Particle {
            species,
            behavior: species.base_behavior(),
            color: species.color(gamma),
            direction_bias: chance(UNIT / 2),
            awake: true,
            vx: 0,
            vy: 0,
        }
    }

    /// A new particle of `species` that starts in free fall.
    pub fn build_color_start_falling(species: ParticleType, gamma: i16) -> (p: Self)
        ensures
            p.built(species, Some(Behavior::FreeFall(FreeFall)), gamma),
    {
        Particle {
            species,
            behavior: Some(Behavior::FreeFall(FreeFall)),
            color: species.color(gamma),
            direction_bias: chance(UNIT / 2),
            awake: true,
            vx: 0,
            vy: 0,
        }
    }

    pub open spec fn spec_is_awake(&self) -> bool {
        self.awake
    }

    /// Whether the particle takes part in the updates.
    #[verifier::when_used_as_spec(spec_is_awake)]
    pub fn is_awake(&self) -> (b: bool)
        ensures
            b == self.awake,
    {
        self.awake
    }

    pub open spec fn spec_is_empty(&self) -> bool {
        self.species == ParticleType::Empty
    }

    /// Whether the cell holds no matter.
    #[verifier::when_used_as_spec(spec_is_empty)]
    pub fn is_empty(&self) -> (b: bool)
        ensures
            b == (self.species == ParticleType::Empty),
    {
        self.species == ParticleType::Empty
    }

    pub open spec fn spec_is_falling(&self) -> bool {
        self.behavior == Some(Behavior::FreeFall(FreeFall))
    }

    /// Whether the particle is in free fall.
    #[verifier::when_used_as_spec(spec_is_falling)]
    pub fn is_falling(&self) -> (b: bool)
        ensures
            b == (self.behavior == Some(Behavior::FreeFall(FreeFall))),
    {
        if let Some(behavior) = self.behavior {
            return Behavior::FreeFall(FreeFall) == behavior;
        }
        false
    }

    pub open spec fn spec_is_solid(&self) -> bool {
        self.behavior == Some(Behavior::Solid(Solid))
    }

    /// Whether the particle follows the rule of solids.
    #[verifier::when_used_as_spec(spec_is_solid)]
    pub fn is_solid(&self) -> (b: bool)
        ensures
            b == (self.behavior == Some(Behavior::Solid(Solid))),
    {
        if let Some(behavior) = self.behavior {
            return Behavior::Solid(Solid) == behavior;
        }
        false
    }

    pub open spec fn spec_is_liquid(&self) -> bool {
        self.behavior == Some(Behavior::Liquid(Liquid))
    }

    /// Whether the particle follows the rule of liquids.
    #[verifier::when_used_as_spec(spec_is_liquid)]
    pub fn is_liquid(&self) -> (b: bool)
        ensures
            b == (self.behavior == Some(Behavior::Liquid(Liquid))),
    {
        if let Some(behavior) = self.behavior {
            return Behavior::Liquid(Liquid) == behavior;
        }
        false
    }

    pub open spec fn spec_is_gas(&self) -> bool {
        self.behavior == Some(Behavior::Gas(Gas))
    }

    /// Whether the particle follows the rule of gases.
    #[verifier::when_used_as_spec(spec_is_gas)]
    pub fn is_gas(&self) -> (b: bool)
        ensures
            b == (self.behavior == Some(Behavior::Gas(Gas))),
    {
        if let Some(behavior) = self.behavior {
            return Behavior::Gas(Gas) == behavior;
        }
        false
    }

    /// The particle as it is once it has begun to fall.
    pub open spec fn falling(self) -> Particle {
        Particle { behavior: Some(Behavior::FreeFall(FreeFall)), ..self }
    }

    /// The particle as it is once it has stopped falling.
    pub open spec fn landed(self) -> Particle {
        Particle { behavior: self.species.spec_base_behavior(), ..self }
    }

    /// Puts the particle into free fall.
    pub fn begin_falling(&mut self)
        ensures
            *final(self) == old(self).falling(),
    {
        self.behavior = Some(Behavior::FreeFall(FreeFall));
    }

    /// Gives the particle the rule of its species back.
    pub fn stop_falling(&mut self)
        ensures
            *final(self) == old(self).landed(),
    {
        self.behavior = self.species.base_behavior();
    }
}

} // verus!

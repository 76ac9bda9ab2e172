use vstd::prelude::*;
use crate::particles::ParticleType;
use crate::particles::SPECIES_COUNT;

verus! {

/// The physical constants of one species.
///
/// Probabilities and the transfer coefficient are in thousandths of one;
/// velocities and gravity are in thousandths of a cell per tick.
#[derive(Clone, Copy, Debug)]
pub struct ParticleParams {
    /// The fastest a particle of the species falls.
    pub terminal_velocity: i32,
    /// The slowest a particle of the species falls, and its speed after landing.
    pub minimal_velocity: i32,
    /// What a tick of free fall adds to the vertical velocity.
    pub gravity: i32,
    /// The probability that a blocked solid goes to sleep.
    pub resistance: u32,
    /// The probability that a gas decays in a tick.
    pub volatility: u32,
    /// The probability that a gas rises into free space above it.
    pub vertical_affinity: u32,
    /// The probability that a gas drifts sideways into free space.
    pub horizontal_affinity: u32,
    /// The probability that an idle liquid swaps with free space above it.
    pub fluid_shimmer: u32,
    /// The probability that a liquid keeps flowing sideways unpushed.
    pub viscosity: u32,
    /// The rank by which liquids sink through one another.
    pub density: usize,
    /// The most cells a liquid travels sideways in a tick.
    pub spread_velocity: usize,
    /// The impact speed above which a landing particle bounces sideways.
    pub speed_to_bounce: i32,
    /// The share of the impact speed that a bounce turns sideways.
    pub horizontal_transfer: i32,
}

/// The constants of a species that never moves: all zero.
pub open spec fn inert_params() -> ParticleParams {
    ParticleParams {
        terminal_velocity: 0,
        minimal_velocity: 0,
        gravity: 0,
        resistance: 0,
        volatility: 0,
        vertical_affinity: 0,
        horizontal_affinity: 0,
        fluid_shimmer: 0,
        viscosity: 0,
        density: 0,
        spread_velocity: 0,
        speed_to_bounce: 0,
        horizontal_transfer: 0,
    }
}

/// The constants each species starts with.
pub open spec fn base_params(species: ParticleType) -> ParticleParams {
    match species {
        ParticleType::Sand => ParticleParams {
            minimal_velocity: 1000,
            terminal_velocity: 4000,
            gravity: 50,
            resistance: 200,
            speed_to_bounce: 1500,
            horizontal_transfer: 600,
            ..inert_params()
        },
        ParticleType::Water => ParticleParams {
            minimal_velocity: 1000,
            terminal_velocity: 2500,
            gravity: 50,
            fluid_shimmer: 100,
            viscosity: 850,
            density: 10,
            spread_velocity: usize::MAX,
            speed_to_bounce: 1500,
            horizontal_transfer: 600,
            ..inert_params()
        },
        ParticleType::Smoke => ParticleParams {
            volatility: 1,
            vertical_affinity: 100,
            horizontal_affinity: 500,
            ..inert_params()
        },
        ParticleType::Gravel => ParticleParams {
            minimal_velocity: 1000,
            terminal_velocity: 4000,
            gravity: 100,
            resistance: 800,
            ..inert_params()
        },
        ParticleType::Oil => ParticleParams {
            minimal_velocity: 1000,
            terminal_velocity: 1500,
            gravity: 10,
            fluid_shimmer: 50,
            viscosity: 100,
            density: 1,
            spread_velocity: usize::MAX,
            speed_to_bounce: 1500,
            horizontal_transfer: 600,
            ..inert_params()
        },
        _ => inert_params(),
    }
}

impl Default for ParticleParams {
    fn default() -> (params: Self)
        ensures
            params == inert_params(),
    {
        ParticleParams {
            terminal_velocity: 0,
            minimal_velocity: 0,
            gravity: 0,
            resistance: 0,
            volatility: 0,
            vertical_affinity: 0,
            horizontal_affinity: 0,
            fluid_shimmer: 0,
            viscosity: 0,
            density: 0,
            spread_velocity: 0,
            speed_to_bounce: 0,
            horizontal_transfer: 0,
        }
    }
}

impl ParticleParams {
    /// The table of the constants each species starts with, indexed by
    /// [`ParticleType::index`].
    pub fn base_params_builder() -> (table: [Self; SPECIES_COUNT])
        ensures
            forall|species: ParticleType|
                #[trigger] table[species.spec_index() as int] == base_params(species),
    {
        let inert = ParticleParams::default();
        [inert, sand_params(), water_params(), inert, smoke_params(), gravel_params(), inert, oil_params(), inert]
    }
}

fn sand_params() -> (params: ParticleParams)
    ensures
        params == base_params(ParticleType::Sand),
{
    let mut params = ParticleParams::default();
    params.minimal_velocity = 1000;
    params.terminal_velocity = 4000;
    params.gravity = 50;
    params.resistance = 200;
    params.speed_to_bounce = 1500;
    params.horizontal_transfer = 600;
    params
}

fn water_params() -> (params: ParticleParams)
    ensures
        params == base_params(ParticleType::Water),
{
    let mut params = ParticleParams::default();
    params.minimal_velocity = 1000;
    params.terminal_velocity = 2500;
    params.gravity = 50;
    params.fluid_shimmer = 100;
    params.viscosity = 850;
    params.density = 10;
    params.spread_velocity = usize::MAX;
    params.speed_to_bounce = 1500;
    params.horizontal_transfer = 600;
    params
}

fn smoke_params() -> (params: ParticleParams)
    ensures
        params == base_params(ParticleType::Smoke),
{
    let mut params = ParticleParams::default();
    params.volatility = 1;
    params.vertical_affinity = 100;
    params.horizontal_affinity = 500;
    params
}

fn gravel_params() -> (params: ParticleParams)
    ensures
        params == base_params(ParticleType::Gravel),
{
    let mut params = ParticleParams::default();
    params.minimal_velocity = 1000;
    params.terminal_velocity = 4000;
    params.gravity = 100;
    params.resistance = 800;
    params
}

fn oil_params() -> (params: ParticleParams)
    ensures
        params == base_params(ParticleType::Oil),
{
    let mut params = ParticleParams::default();
    params.minimal_velocity = 1000;
    params.terminal_velocity = 1500;
    params.gravity = 10;
    params.fluid_shimmer = 50;
    params.viscosity = 100;
    params.density = 1;
    params.spread_velocity = usize::MAX;
    params.speed_to_bounce = 1500;
    params.horizontal_transfer = 600;
    params
}

} // verus!

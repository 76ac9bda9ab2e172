use vstd::prelude::*;
use crate::helpers::LineTracer;
use crate::helpers::TRACE_LIMIT;
use crate::matter::conserved;
use crate::matter::lemma_conserved_decay;
use crate::matter::lemma_conserved_refl;
use crate::matter::lemma_conserved_trans;
use crate::particle_params::ParticleParams;
use crate::particles::Particle;
use crate::particles::ParticleType;
use crate::particles::SPECIES_COUNT;
use crate::random::can_draw;
use crate::random::chance;
use crate::random::random_range;
use crate::random::UNIT;
use crate::sandbox::lemma_at_storable;
use crate::sandbox::lemma_put_at;
use crate::sandbox::lemma_swap_at;
use crate::sandbox::woken;
use crate::sandbox::Handler;
use crate::sandbox::Plane;
use crate::sandbox::SandBox;

verus! {

/// The rule of a granular particle: it falls, slides down slopes and settles.
#[derive(Clone, Copy, Debug, PartialEq, Eq, Structural)]
pub struct Solid;

/// The rule of a liquid: it sinks through lighter matter and spreads sideways.
#[derive(Clone, Copy, Debug, PartialEq, Eq, Structural)]
pub struct Liquid;

/// The rule of a gas: it decays, rises and drifts.
#[derive(Clone, Copy, Debug, PartialEq, Eq, Structural)]
pub struct Gas;

/// The rule of a particle in free fall: it follows its velocity until it lands.
#[derive(Clone, Copy, Debug, PartialEq, Eq, Structural)]
pub struct FreeFall;

/// The rule that currently governs a particle.
#[derive(Clone, Copy, Debug, PartialEq, Eq, Structural)]
pub enum Behavior {
    Solid(Solid),
    Liquid(Liquid),
    Gas(Gas),
    FreeFall(FreeFall),
}

/// Where one cell's update has left the grid and the cursor.
#[verifier::ext_equal]
pub struct Move {
    pub plane: Plane,
    pub x: int,
    pub y: int,
}

/// What chance contributes to one cell's update: the outcome of every draw
/// that a rule may make. A rule reads only the draws it makes.
pub struct Draws {
    /// Whether a blocked solid goes to sleep.
    pub settle: bool,
    /// Whether a liquid flows on unpushed, for each step of its spread.
    pub flows: Seq<bool>,
    /// Whether an idle liquid swaps with the space above it.
    pub shimmer: bool,
    /// Whether a gas decays.
    pub decay: bool,
    /// The empty particle that a decayed gas leaves.
    pub fresh: Particle,
    /// Whether a gas rises.
    pub rise: bool,
    /// Whether a gas drifts sideways.
    pub drift: bool,
    /// The share of a bounce, in thousandths.
    pub fraction: int,
}

impl Draws {
    /// Whether chance can give these draws to a particle with the constants
    /// `params`: each boolean is a possible outcome of its probability, there
    /// is a draw for each step that the spread of a liquid can make, the
    /// particle left by decay is a newly built empty one, and the share of a
    /// bounce is below one whole.
    pub open spec fn fair(self, params: ParticleParams) -> bool {
        &&& can_draw(params.resistance, self.settle)
        &&& self.flows.len() >= params.spread_velocity
        &&& forall|k: int| 0 <= k < self.flows.len() ==> can_draw(params.viscosity, #[trigger] self.flows[k])
        &&& can_draw(params.fluid_shimmer, self.shimmer)
        &&& can_draw(params.volatility, self.decay)
        &&& self.fresh.built(ParticleType::Empty, None, 0)
        &&& can_draw(params.vertical_affinity, self.rise)
        &&& can_draw(params.horizontal_affinity, self.drift)
        &&& 0 <= self.fraction < UNIT
    }

    /// Draws that are fair for `params` whatever they are, given one newly
    /// built empty particle.
    pub open spec fn quiet(params: ParticleParams, fresh: Particle) -> Draws {
        Draws {
            settle: params.resistance >= UNIT,
            flows: Seq::new(params.spread_velocity as nat, |k: int| params.viscosity >= UNIT),
            shimmer: params.fluid_shimmer >= UNIT,
            decay: params.volatility >= UNIT,
            fresh,
            rise: params.vertical_affinity >= UNIT,
            drift: params.horizontal_affinity >= UNIT,
            fraction: 0,
        }
    }
}

/// The side a particle tries first: the side of the tick for a particle with
/// the direction bias, the other side for one without.
pub open spec fn facing(p: Particle, flipflop: int) -> int {
    if p.direction_bias {
        flipflop
    } else {
        -flipflop
    }
}

/// Whether a solid can slide into a cell that holds `p`.
pub open spec fn gives_way(p: Particle) -> bool {
    p.is_empty() || p.is_liquid() || p.is_gas()
}

/// Whether the cursor and the grid are where `m` says.
pub open spec fn arrived(handler: &Handler, sandbox: &SandBox, m: Move) -> bool {
    &&& sandbox@ =~= m.plane
    &&& handler.x == m.x
    &&& handler.y == m.y
}

/// One cell's update by the rule that governs its particle.
pub trait Update {
    /// Whether this rule governs the particle `p`.
    spec fn governs(&self, p: Particle) -> bool;

    /// What this rule makes of the grid `plane` when it updates the cell
    /// `(x, y)` in a tick whose side is `flipflop`, with the constants of
    /// `table` and the draws `draws`.
    spec fn step(
        &self,
        plane: Plane,
        table: [ParticleParams; SPECIES_COUNT],
        flipflop: int,
        x: int,
        y: int,
        draws: Draws,
    ) -> Move;

    /// Updates the cell the cursor stands on. The cursor follows the particle.
    fn update(&self, handler: &mut Handler, sandbox: &mut SandBox)
        requires
            old(sandbox).wf(),
            old(handler).wf(old(sandbox)),
            self.governs(old(handler).here),
        ensures
            final(sandbox).wf(),
            final(sandbox).same_setup(old(sandbox)),
            final(handler).wf(final(sandbox)),
            conserved(old(sandbox).grid@, final(sandbox).grid@),
            exists|draws: Draws| #[trigger]
                draws.fair(old(sandbox).params_of(old(handler).here.species)) && arrived(
                    final(handler),
                    final(sandbox),
                    self.step(
                        old(sandbox)@,
                        old(sandbox).particleparams,
                        old(sandbox).flipflop as int,
                        old(handler).x as int,
                        old(handler).y as int,
                        draws,
                    ),
                ),
    ;
}

impl Update for Gas {
    open spec fn governs(&self, p: Particle) -> bool {
        p.is_gas()
    }

    /// The gas decays into the empty particle `draws.fresh` if `draws.decay`.
    /// Whether it decayed or not, the cell then swaps with the cell above if
    /// that is empty and `draws.rise`; else with the cell on the side of the
    /// tick if that is empty and `draws.drift`.
    open spec fn step(
        &self,
        plane: Plane,
        table: [ParticleParams; SPECIES_COUNT],
        flipflop: int,
        x: int,
        y: int,
        draws: Draws,
    ) -> Move {
        let aired = if draws.decay {
            plane.put(x, y, draws.fresh)
        } else {
            plane
        };
        if aired.at(x, y - 1).is_empty() && draws.rise {
            Move { plane: aired.swap(x, y, x, y - 1), x, y: y - 1 }
        } else if aired.at(x + flipflop, y).is_empty() && draws.drift {
            Move { plane: aired.swap(x, y, x + flipflop, y), x: x + flipflop, y }
        } else {
            Move { plane: aired, x, y }
        }
    }

    fn update(&self, handler: &mut Handler, sandbox: &mut SandBox) {
        let direc: isize = sandbox.flipflop;
        let params = handler.get_params_here(sandbox);
        let ghost before = sandbox@;
        let ghost x = handler.x as int;
        let ghost y = handler.y as int;

        let decay = chance(params.volatility);
        let ghost mut fresh = Particle::vacant();
        if decay {
            let empty = Particle::build(ParticleType::Empty);
            proof {
                fresh = empty;
                lemma_at_storable(before, x, y);
                lemma_conserved_decay(before, x, y, fresh);
            }
            handler.set_here(sandbox, empty);
        }
        let ghost aired = sandbox@;
        proof {
            Particle::lemma_vacant_built();
            lemma_conserved_refl(before.cells);
        }
        let up_free = handler.get(sandbox, 0, -1).is_empty();
        let rise = up_free && chance(params.vertical_affinity);
        let side_free = !rise && handler.get(sandbox, direc, 0).is_empty();
        let drift = side_free && chance(params.horizontal_affinity);
        let ghost draws = Draws {
            decay,
            fresh,
            rise: if up_free {
                rise
            } else {
                params.vertical_affinity >= UNIT
            },
            drift: if side_free {
                drift
            } else {
                params.horizontal_affinity >= UNIT
            },
            ..Draws::quiet(params, fresh)
        };
        if rise {
            handler.swap(sandbox, 0, -1);
            proof {
                lemma_conserved_trans(before.cells, aired.cells, sandbox@.cells);
            }
        } else if drift {
            handler.swap(sandbox, direc, 0);
            proof {
                lemma_conserved_trans(before.cells, aired.cells, sandbox@.cells);
            }
        }
        assert(draws.fair(params) && arrived(
            handler,
            sandbox,
            self.step(before, sandbox.particleparams, direc as int, x, y, draws),
        ));
    }
}

impl Update for Solid {
    open spec fn governs(&self, p: Particle) -> bool {
        p.is_solid()
    }

    /// A sleeping solid stays as it is unless the cell below is empty, liquid,
    /// gas or falling; then it wakes. A solid that is awake, or has just
    /// woken, sinks into an empty cell below and is in free fall from then on;
    /// else it slides down to the side it faces, else to the other side, into
    /// a cell that is empty, liquid or gas. A solid that has moved wakes the
    /// cells to its left and right. One that cannot move goes to sleep if
    /// `draws.settle`.
    open spec fn step(
        &self,
        plane: Plane,
        table: [ParticleParams; SPECIES_COUNT],
        flipflop: int,
        x: int,
        y: int,
        draws: Draws,
    ) -> Move {
        let me = plane.at(x, y);
        let below = plane.at(x, y + 1);
        let direc = facing(me, flipflop);
        if !me.awake && !(gives_way(below) || below.is_falling()) {
            Move { plane, x, y }
        } else {
            let roused = if me.awake {
                plane
            } else {
                plane.put(x, y, Particle { awake: true, ..me })
            };
            if below.is_empty() {
                let sunk = roused.swap(x, y, x, y + 1);
                let fallen = sunk.put(x, y + 1, sunk.at(x, y + 1).falling());
                Move { plane: woken(woken(fallen, x + 1, y + 1), x - 1, y + 1), x, y: y + 1 }
            } else if gives_way(roused.at(x + direc, y + 1)) {
                let slid = roused.swap(x, y, x + direc, y + 1);
                Move { plane: woken(woken(slid, x + direc + 1, y + 1), x + direc - 1, y + 1), x: x + direc, y: y + 1 }
            } else if gives_way(roused.at(x - direc, y + 1)) {
                let slid = roused.swap(x, y, x - direc, y + 1);
                Move { plane: woken(woken(slid, x - direc + 1, y + 1), x - direc - 1, y + 1), x: x - direc, y: y + 1 }
            } else if draws.settle {
                Move { plane: roused.put(x, y, Particle { awake: false, ..roused.at(x, y) }), x, y }
            } else {
                Move { plane: roused, x, y }
            }
        }
    }

    fn update(&self, handler: &mut Handler, sandbox: &mut SandBox) {
        let params = handler.get_params_here(sandbox);
        let ghost before = sandbox@;
        let ghost x = handler.x as int;
        let ghost y = handler.y as int;
        let ghost quiet = Draws::quiet(params, Particle::vacant());
        let below = handler.get(sandbox, 0, 1);
        proof {
            Particle::lemma_vacant_built();
            lemma_conserved_refl(before.cells);
            lemma_at_storable(before, x, y);
        }
        if !handler.here.is_awake() {
            if below.is_empty() || below.is_liquid() || below.is_gas() || below.is_falling() {
                let mut me = handler.here;
                me.awake = true;
                handler.set_here(sandbox, me);
            } else {
                assert(quiet.fair(params) && arrived(
                    handler,
                    sandbox,
                    self.step(before, sandbox.particleparams, sandbox.flipflop as int, x, y, quiet),
                ));
                return ;
            }
        }
        let ghost roused = sandbox@;
        proof {
            lemma_put_at(before, x, y, handler.here, x, y + 1);
        }
        let direc: isize = if handler.here.direction_bias {
            sandbox.flipflop
        } else {
            -sandbox.flipflop
        };
        let mut moved = false;
        let ghost mut draws = quiet;
        if below.is_empty() {
            handler.swap(sandbox, 0, 1);
            let ghost sunk = sandbox@;
            let mut me = handler.here;
            me.begin_falling();
            handler.set_here(sandbox, me);
            proof {
                lemma_conserved_trans(before.cells, roused.cells, sunk.cells);
                lemma_conserved_trans(before.cells, sunk.cells, sandbox@.cells);
            }
            moved = true;
        } else if handler.get(sandbox, direc, 1).is_empty() || handler.get(sandbox, direc, 1).is_liquid()
            || handler.get(sandbox, direc, 1).is_gas() {
            handler.swap(sandbox, direc, 1);
            proof {
                lemma_conserved_trans(before.cells, roused.cells, sandbox@.cells);
            }
            moved = true;
        } else if handler.get(sandbox, -direc, 1).is_empty() || handler.get(sandbox, -direc, 1).is_liquid()
            || handler.get(sandbox, -direc, 1).is_gas() {
            handler.swap(sandbox, -direc, 1);
            proof {
                lemma_conserved_trans(before.cells, roused.cells, sandbox@.cells);
            }
            moved = true;
        } else {
            let settle = chance(params.resistance);
            proof {
                draws = Draws { settle, ..quiet };
            }
            if settle {
                let mut me = handler.here;
                me.awake = false;
                handler.set_here(sandbox, me);
                proof {
                    lemma_conserved_trans(before.cells, roused.cells, sandbox@.cells);
                }
            }
        }
        if moved {
            let ghost shifted = sandbox@;
            handler.wake(sandbox, 1, 0);
            let ghost half = sandbox@;
            handler.wake(sandbox, -1, 0);
            proof {
                lemma_conserved_trans(before.cells, shifted.cells, half.cells);
                lemma_conserved_trans(before.cells, half.cells, sandbox@.cells);
            }
        }
        assert(draws.fair(params) && arrived(
            handler,
            sandbox,
            self.step(before, sandbox.particleparams, sandbox.flipflop as int, x, y, draws),
        ));
    }
}

/// Whether a liquid of density `density` sinks into a cell that holds `below`,
/// a particle of a species of density `below_density`.
pub open spec fn sinks_into(below: Particle, below_density: usize, density: usize) -> bool {
    below.is_empty() || below.is_gas() || (below.is_liquid() && below_density < density)
}

/// Whether a liquid whose cursor is at `(x, y)` takes a step to the side
/// `direc`: the cell there is empty or holds a liquid of another species, and
/// the liquid is pushed by a liquid down on the other side or flows on by
/// itself, which is `roll`.
pub open spec fn flows_on(plane: Plane, x: int, y: int, direc: int, roll: bool) -> bool {
    let side = plane.at(x + direc, y);
    &&& side.is_empty() || (side.is_liquid() && side.species != plane.at(x, y).species)
    &&& plane.at(x - direc, y + 1).is_liquid() || roll
}

/// The spread of a liquid from step `done` on: it swaps with the cell on the
/// side `direc`, step by step, while it flows on and has made fewer than
/// `limit` steps. The draw of step `k` is `flows[k]`; fair draws hold one for
/// every step, and a draw that is not there counts as false.
pub open spec fn flow(plane: Plane, x: int, y: int, direc: int, limit: nat, flows: Seq<bool>, done: nat) -> Move
    decreases limit - done,
{
    if done < limit && flows_on(plane, x, y, direc, done < flows.len() && flows[done as int]) {
        flow(plane.swap(x, y, x + direc, y), x + direc, y, direc, limit, flows, done + 1)
    } else {
        Move { plane, x, y }
    }
}

impl Update for Liquid {
    open spec fn governs(&self, p: Particle) -> bool {
        p.is_liquid()
    }

    /// A liquid sinks into the cell below if that is empty, gas, or a liquid
    /// of a lower density. Else it spreads to the side it faces, by at most
    /// as many cells as its spread allows. A liquid that has not moved swaps
    /// with the cell above if that is empty and `draws.shimmer`.
    open spec fn step(
        &self,
        plane: Plane,
        table: [ParticleParams; SPECIES_COUNT],
        flipflop: int,
        x: int,
        y: int,
        draws: Draws,
    ) -> Move {
        let me = plane.at(x, y);
        let mine = table[me.species.spec_index() as int];
        let below = plane.at(x, y + 1);
        let direc = facing(me, flipflop);
        if sinks_into(below, table[below.species.spec_index() as int].density, mine.density) {
            Move { plane: plane.swap(x, y, x, y + 1), x, y: y + 1 }
        } else {
            let spread = flow(plane, x, y, direc, mine.spread_velocity as nat, draws.flows, 0);
            if spread.x == x && plane.at(x, y - 1).is_empty() && draws.shimmer {
                Move { plane: plane.swap(x, y, x, y - 1), x, y: y - 1 }
            } else {
                spread
            }
        }
    }

    fn update(&self, handler: &mut Handler, sandbox: &mut SandBox) {
        let params = handler.get_params_here(sandbox);
        let ghost before = sandbox@;
        let ghost x = handler.x as int;
        let ghost y = handler.y as int;
        let ghost quiet = Draws::quiet(params, Particle::vacant());
        let ghost table = sandbox.particleparams;
        let ghost flipflop = sandbox.flipflop as int;
        proof {
            Particle::lemma_vacant_built();
            lemma_conserved_refl(before.cells);
        }
        let direc: isize = if handler.here.direction_bias {
            sandbox.flipflop
        } else {
            -sandbox.flipflop
        };
        let below = handler.get(sandbox, 0, 1);
        if below.is_empty() || below.is_gas() || (below.is_liquid() && handler.get_params(sandbox, 0, 1).density
            < params.density) {
            handler.swap(sandbox, 0, 1);
            assert(quiet.fair(params) && arrived(handler, sandbox, self.step(before, table, flipflop, x, y, quiet)));
            return ;
        }
        let limit: usize = params.spread_velocity;
        let mut travelled: usize = 0;
        let mut going: bool = true;
        let ghost mut flows: Seq<bool> = Seq::empty();
        while going && travelled < limit
            invariant
                sandbox.wf(),
                sandbox.same_setup(old(sandbox)),
                handler.wf(sandbox),
                conserved(before.cells, sandbox@.cells),
                before == old(sandbox)@,
                params == sandbox.params_of(handler.here.species),
                direc == 1 || direc == -1,
                handler.y == y,
                travelled <= limit,
                travelled == 0 ==> sandbox@ == before,
                direc == 1 ==> handler.x == x + travelled,
                direc == -1 ==> handler.x == x - travelled,
                forall|k: int| 0 <= k < flows.len() ==> can_draw(params.viscosity, #[trigger] flows[k]),
                flows.len() == travelled + (if going { 0int } else { 1int }),
                flows.len() <= limit,
                forall|g: Seq<bool>|
                    g.len() >= flows.len() && g.take(flows.len() as int) == flows ==> #[trigger] flow(
                        before,
                        x,
                        y,
                        direc as int,
                        limit as nat,
                        g,
                        0,
                    ) == if going {
                        flow(sandbox@, handler.x as int, y, direc as int, limit as nat, g, travelled as nat)
                    } else {
                        Move { plane: sandbox@, x: handler.x as int, y }
                    },
            decreases limit - travelled + (if going { 1int } else { 0int }),
        {
            let ghost cur = sandbox@;
            let ghost cx = handler.x as int;
            let side = handler.get(sandbox, direc, 0);
            let free = side.is_empty() || (side.is_liquid() && side.species != handler.here.species);
            let pushed = free && handler.get(sandbox, -direc, 1).is_liquid();
            let rolled = free && !pushed && chance(params.viscosity);
            let ghost roll = if free && !pushed {
                rolled
            } else {
                params.viscosity >= UNIT
            };
            let ghost longer = flows.push(roll);
            proof {
                assert(longer.take(travelled as int) =~= flows);
            }
            if pushed || rolled {
                handler.swap(sandbox, direc, 0);
                proof {
                    lemma_conserved_trans(before.cells, cur.cells, sandbox@.cells);
                    assert forall|g: Seq<bool>|
                        g.len() >= travelled + 1 && g.take(travelled + 1) == longer implies #[trigger] flow(
                        before,
                        x,
                        y,
                        direc as int,
                        limit as nat,
                        g,
                        0,
                    ) == flow(
                        sandbox@,
                        handler.x as int,
                        y,
                        direc as int,
                        limit as nat,
                        g,
                        (travelled + 1) as nat,
                    ) by {
                        assert(g.take(travelled as int) =~= flows);
                        assert(g[travelled as int] == g.take(travelled + 1)[travelled as int]);
                        assert(sandbox@ =~= cur.swap(cx, y, cx + direc, y));
                    }
                    flows = longer;
                }
                travelled += 1;
            } else {
                proof {
                    assert forall|g: Seq<bool>|
                        g.len() >= travelled + 1 && g.take(travelled + 1) == longer implies #[trigger] flow(
                        before,
                        x,
                        y,
                        direc as int,
                        limit as nat,
                        g,
                        0,
                    ) == (Move { plane: sandbox@, x: handler.x as int, y }) by {
                        assert(g.take(travelled as int) =~= flows);
                        assert(g[travelled as int] == g.take(travelled + 1)[travelled as int]);
                    }
                    flows = longer;
                }
                going = false;
            }
        }
        let ghost spread = sandbox@;
        let ghost all = flows + Seq::new((limit - flows.len()) as nat, |k: int| params.viscosity >= UNIT);
        proof {
            assert(all.take(flows.len() as int) =~= flows);
            assert(flow(before, x, y, direc as int, limit as nat, all, 0) == (Move {
                plane: spread,
                x: handler.x as int,
                y,
            }));
            assert forall|k: int| 0 <= k < all.len() implies can_draw(params.viscosity, #[trigger] all[k]) by {
                if k < flows.len() {
                    assert(all[k] == flows[k]);
                }
            }
        }
        let idle = travelled == 0 && handler.get(sandbox, 0, -1).is_empty();
        let shimmer = idle && chance(params.fluid_shimmer);
        let ghost draws = Draws {
            flows: all,
            shimmer: if idle {
                shimmer
            } else {
                params.fluid_shimmer >= UNIT
            },
            ..quiet
        };
        if shimmer {
            handler.swap(sandbox, 0, -1);
            proof {
                lemma_conserved_trans(before.cells, spread.cells, sandbox@.cells);
            }
        }
        assert(draws.fair(params) && arrived(handler, sandbox, self.step(before, table, flipflop, x, y, draws)));
    }
}

/// The whole cells that a velocity of `v` thousandths of a cell per tick
/// covers in a tick: the nearest whole number, and of two that are equally
/// near the one farther from zero.
pub open spec fn cells_of(v: i32) -> int {
    if v >= 0 {
        (v + 500) / 1000
    } else {
        -((500 - v) / 1000)
    }
}

/// `v` held within the bounds `low` and `high`: `low` where it is below, else
/// `high` where it is above.
pub open spec fn held(v: int, low: int, high: int) -> int {
    if v < low {
        low
    } else if v > high {
        high
    } else {
        v
    }
}

/// The sideways velocity that an impact at the vertical velocity `vy` turns
/// into: the share `transfer` of it, of which chance takes the share
/// `fraction`, both in thousandths, towards the side `direc`; cut to whole
/// thousandths towards zero, and held within what a velocity can be.
pub open spec fn bounce_of(vy: i32, direc: int, transfer: i32, fraction: int) -> int {
    let speed = if vy < 0 {
        -vy
    } else {
        vy as int
    };
    let share = if transfer < 0 {
        -transfer
    } else {
        transfer as int
    };
    let size = (speed * share * fraction) / 1_000_000;
    let signed = if (vy < 0) == (transfer < 0) {
        size * direc
    } else {
        -size * direc
    };
    held(signed, i32::MIN as int, i32::MAX as int)
}

/// Computes the whole cells that a velocity covers in a tick.
pub fn cells(v: i32) -> (n: isize)
    ensures
        n == cells_of(v),
        -TRACE_LIMIT <= n <= TRACE_LIMIT,
{
    if v >= 0 {
        ((v as i64 + 500) / 1000) as isize
    } else {
        -(((500 - v as i64) / 1000) as isize)
    }
}

/// Computes the vertical velocity after a tick of free fall: gravity is
/// added, and the sum is held between the least and the greatest velocity.
pub fn fall_velocity(vy: i32, gravity: i32, minimal: i32, terminal: i32) -> (v: i32)
    ensures
        v == held(vy + gravity, minimal as int, terminal as int),
{
    let sum: i64 = vy as i64 + gravity as i64;
    if sum < minimal as i64 {
        minimal
    } else if sum > terminal as i64 {
        terminal
    } else {
        sum as i32
    }
}

/// Computes the sideways velocity that an impact turns into.
pub fn bounce(vy: i32, direc: isize, transfer: i32, fraction: usize) -> (vx: i32)
    requires
        direc == 1 || direc == -1,
        fraction < UNIT,
    ensures
        vx == bounce_of(vy, direc as int, transfer, fraction as int),
{
    let speed: i128 = if vy < 0 {
        -(vy as i128)
    } else {
        vy as i128
    };
    let share: i128 = if transfer < 0 {
        -(transfer as i128)
    } else {
        transfer as i128
    };
    assert(0 <= speed * share <= 0x8000_0000 * 0x8000_0000) by (nonlinear_arith)
        requires
            0 <= speed <= 0x8000_0000,
            0 <= share <= 0x8000_0000,
    ;
    let product: i128 = speed * share;
    assert(0 <= product * (fraction as i128) <= 0x8000_0000 * 0x8000_0000 * 1000) by (nonlinear_arith)
        requires
            0 <= product <= 0x8000_0000 * 0x8000_0000,
            0 <= fraction < 1000,
    ;
    let size: i128 = (product * (fraction as i128)) / 1_000_000;
    let toward: bool = (direc == 1) == ((vy < 0) == (transfer < 0));
    let signed: i128 = if toward {
        size
    } else {
        -size
    };
    assert(signed == if (vy < 0) == (transfer < 0) {
        size * direc
    } else {
        -size * direc
    }) by (nonlinear_arith)
        requires
            direc == 1 || direc == -1,
            toward == ((direc == 1) == ((vy < 0) == (transfer < 0))),
            signed == if toward {
                size as int
            } else {
                -size
            },
    ;
    if signed < i32::MIN as i128 {
        i32::MIN
    } else if signed > i32::MAX as i128 {
        i32::MAX
    } else {
        signed as i32
    }
}

/// Where the trace of a fall has left the grid and the cursor, whether the
/// particle moved or passed its velocity on, and whether it hit an obstacle.
#[verifier::ext_equal]
pub struct Fall {
    pub plane: Plane,
    pub x: int,
    pub y: int,
    pub moved: bool,
    pub hit: bool,
}

/// The rest of the trace of a fall that began at `(sx, sy)`, for a particle
/// whose cursor is at `(x, y)`. The walk `tracer` gives the cells of the line
/// as offsets from `(sx, sy)`. The start itself is passed over. The particle
/// swaps into each cell of the line that is empty; to a cell that holds a
/// falling particle it passes its velocity on and stays; any other cell is an
/// obstacle, which ends the trace.
pub open spec fn trace(plane: Plane, x: int, y: int, sx: int, sy: int, tracer: LineTracer, moved: bool) -> Fall
    decreases tracer.remaining(),
{
    if !tracer.wf() || tracer.finished {
        Fall { plane, x, y, moved, hit: false }
    } else {
        proof {
            tracer.lemma_next();
        }
        let tx = sx + tracer.x0;
        let ty = sy + tracer.y0;
        let target = plane.at(tx, ty);
        let me = plane.at(x, y);
        if tracer.x0 == 0 && tracer.y0 == 0 {
            trace(plane, x, y, sx, sy, tracer.next(), moved)
        } else if target.is_empty() {
            trace(plane.swap(x, y, tx, ty), tx, ty, sx, sy, tracer.next(), true)
        } else if target.is_falling() {
            trace(
                plane.put(tx, ty, Particle { vx: me.vx, vy: me.vy, ..target }),
                x,
                y,
                sx,
                sy,
                tracer.next(),
                true,
            )
        } else {
            Fall { plane, x, y, moved, hit: true }
        }
    }
}

/// The walk along the line that a particle with the velocity `(vx, vy)`
/// covers in a tick, as offsets from where it is.
pub open spec fn line_of(vx: i32, vy: i32) -> LineTracer {
    LineTracer::begun(0, 0, cells_of(vx) as isize, cells_of(vy) as isize)
}

impl Update for FreeFall {
    open spec fn governs(&self, p: Particle) -> bool {
        p.is_falling()
    }

    /// Gravity is added to the vertical velocity of the particle, which is
    /// held between the least and the greatest velocity of its species. The
    /// particle then follows the line that its velocity covers, as `trace`
    /// says. If it hit an obstacle at a speed above the bounce threshold, its
    /// vertical velocity becomes the least velocity and its sideways velocity
    /// the bounce, towards the side it faces, with the share `draws.fraction`.
    /// A particle that neither moved nor passed its velocity on comes to
    /// rest: it has no sideways velocity, the least vertical velocity, and
    /// the rule of its species again. One that moved and hit an obstacle has
    /// landed, and has the rule of its species again.
    open spec fn step(
        &self,
        plane: Plane,
        table: [ParticleParams; SPECIES_COUNT],
        flipflop: int,
        x: int,
        y: int,
        draws: Draws,
    ) -> Move {
        let me = plane.at(x, y);
        let params = table[me.species.spec_index() as int];
        let direc = facing(me, flipflop);
        let vy = held(me.vy + params.gravity, params.minimal_velocity as int, params.terminal_velocity as int) as i32;
        let sped = Particle { vy, ..me };
        let fall = trace(plane.put(x, y, sped), x, y, x, y, line_of(me.vx, vy), false);
        let mover = fall.plane.at(fall.x, fall.y);
        let bounced = if fall.hit && (vy > params.speed_to_bounce || -vy > params.speed_to_bounce) {
            Particle {
                vx: bounce_of(vy, direc, params.horizontal_transfer, draws.fraction) as i32,
                vy: params.minimal_velocity,
                ..mover
            }
        } else {
            mover
        };
        let rested = if !fall.moved {
            Particle { vx: 0, vy: params.minimal_velocity, ..bounced }.landed()
        } else if fall.hit {
            bounced.landed()
        } else {
            bounced
        };
        Move { plane: fall.plane.put(fall.x, fall.y, rested), x: fall.x, y: fall.y }
    }

    fn update(&self, handler: &mut Handler, sandbox: &mut SandBox) {
        let params = handler.get_params_here(sandbox);
        let ghost before = sandbox@;
        let ghost x = handler.x as int;
        let ghost y = handler.y as int;
        let ghost quiet = Draws::quiet(params, Particle::vacant());
        let ghost table = sandbox.particleparams;
        let ghost flipflop = sandbox.flipflop as int;
        proof {
            Particle::lemma_vacant_built();
            lemma_at_storable(before, x, y);
        }
        let direc: isize = if handler.here.direction_bias {
            sandbox.flipflop
        } else {
            -sandbox.flipflop
        };
        let mut sped = handler.here;
        sped.vy = fall_velocity(sped.vy, params.gravity, params.minimal_velocity, params.terminal_velocity);
        handler.set_here(sandbox, sped);
        let ghost start = sandbox@;
        let mut tracer = LineTracer::build(0, 0, cells(sped.vx), cells(sped.vy));
        let ghost line = tracer;
        assert(line == line_of(sped.vx, sped.vy));
        let mut moved: bool = false;
        let mut hit: bool = false;
        let mut lx: isize = 0;
        let mut ly: isize = 0;
        while !hit && !tracer.finished
            invariant
                sandbox.wf(),
                sandbox.same_setup(old(sandbox)),
                handler.wf(sandbox),
                handler.here == sped,
                sped.storable(),
                conserved(before.cells, sandbox@.cells),
                tracer.wf(),
                tracer.x1 == line.x1,
                tracer.y1 == line.y1,
                -3 * TRACE_LIMIT <= lx <= 3 * TRACE_LIMIT,
                -3 * TRACE_LIMIT <= ly <= 3 * TRACE_LIMIT,
                handler.x == x + lx,
                handler.y == y + ly,
                trace(start, x, y, x, y, line, false) == if hit {
                    Fall { plane: sandbox@, x: handler.x as int, y: handler.y as int, moved, hit: true }
                } else {
                    trace(sandbox@, handler.x as int, handler.y as int, x, y, tracer, moved)
                },
            decreases tracer.remaining() + (if hit { 0int } else { 1int }),
        {
            let ghost cur = sandbox@;
            let ghost walk = tracer;
            proof {
                walk.lemma_next();
            }
            let point = tracer.step();
            let (px, py) = point.unwrap();
            if px != 0 || py != 0 {
                let ox: isize = px - lx;
                let oy: isize = py - ly;
                let target = handler.get(sandbox, ox, oy);
                if target.is_empty() {
                    handler.swap(sandbox, ox, oy);
                    proof {
                        lemma_conserved_trans(before.cells, cur.cells, sandbox@.cells);
                    }
                    lx = px;
                    ly = py;
                    moved = true;
                } else if target.is_falling() {
                    handler.hand_over(sandbox, ox, oy);
                    proof {
                        lemma_conserved_trans(before.cells, cur.cells, sandbox@.cells);
                    }
                    moved = true;
                } else {
                    hit = true;
                }
            }
        }
        let ghost fallen = sandbox@;
        let mut rested = handler.here;
        let ghost mut draws = quiet;
        if hit && (sped.vy > params.speed_to_bounce || -(sped.vy as i64) > params.speed_to_bounce as i64) {
            let fraction: usize = random_range(0, UNIT as usize);
            proof {
                draws = Draws { fraction: fraction as int, ..quiet };
            }
            rested.vx = bounce(sped.vy, direc, params.horizontal_transfer, fraction);
            rested.vy = params.minimal_velocity;
        }
        if !moved {
            rested.vx = 0;
            rested.vy = params.minimal_velocity;
            rested.stop_falling();
        } else if hit {
            rested.stop_falling();
        }
        handler.set_here(sandbox, rested);
        proof {
            lemma_conserved_trans(before.cells, fallen.cells, sandbox@.cells);
        }
        assert(draws.fair(params) && arrived(handler, sandbox, self.step(before, table, flipflop, x, y, draws)));
    }
}

/// A gas whose volatility is one whole or more is gone after its update:
/// whatever the draws, the cell the cursor has come to is empty.
pub proof fn lemma_volatile_gas_decays(
    plane: Plane,
    table: [ParticleParams; SPECIES_COUNT],
    flipflop: int,
    x: int,
    y: int,
    draws: Draws,
)
    requires
        plane.wf(),
        plane.inbounds(x, y),
        table[plane.at(x, y).species.spec_index() as int].volatility >= UNIT,
        draws.fair(table[plane.at(x, y).species.spec_index() as int]),
    ensures
        ({
            let after = Gas.step(plane, table, flipflop, x, y, draws);
            after.plane.at(after.x, after.y).is_empty()
        }),
{
    let aired = plane.put(x, y, draws.fresh);
    lemma_put_at(plane, x, y, draws.fresh, x, y);
    if aired.at(x, y - 1).is_empty() && draws.rise {
        lemma_swap_at(aired, x, y, x, y - 1, x, y - 1);
    } else if aired.at(x + flipflop, y).is_empty() && draws.drift {
        lemma_swap_at(aired, x, y, x + flipflop, y, x + flipflop, y);
    }
}

/// A solid that is awake and can neither sink nor slide goes to sleep where
/// it is if its resistance is one whole or more, and nothing else changes.
pub proof fn lemma_blocked_solid_settles(
    plane: Plane,
    table: [ParticleParams; SPECIES_COUNT],
    flipflop: int,
    x: int,
    y: int,
    draws: Draws,
)
    requires
        plane.wf(),
        plane.inbounds(x, y),
        plane.at(x, y).awake,
        !gives_way(plane.at(x, y + 1)),
        !gives_way(plane.at(x + 1, y + 1)),
        !gives_way(plane.at(x - 1, y + 1)),
        flipflop == 1 || flipflop == -1,
        table[plane.at(x, y).species.spec_index() as int].resistance >= UNIT,
        draws.fair(table[plane.at(x, y).species.spec_index() as int]),
    ensures
        Solid.step(plane, table, flipflop, x, y, draws) == (Move {
            plane: plane.put(x, y, Particle { awake: false, ..plane.at(x, y) }),
            x,
            y,
        }),
{
}

/// A solid that sleeps on a cell that is neither empty, liquid, gas nor
/// falling stays as it is, and so does the grid.
pub proof fn lemma_sleeping_solid_rests(
    plane: Plane,
    table: [ParticleParams; SPECIES_COUNT],
    flipflop: int,
    x: int,
    y: int,
    draws: Draws,
)
    requires
        !plane.at(x, y).awake,
        !gives_way(plane.at(x, y + 1)),
        !plane.at(x, y + 1).is_falling(),
    ensures
        Solid.step(plane, table, flipflop, x, y, draws) == (Move { plane, x, y }),
{
}

/// The spread of a liquid stays in its row and goes to the side `direc` only,
/// by no more steps than are left of `limit`.
pub proof fn lemma_flow_reach(plane: Plane, x: int, y: int, direc: int, limit: nat, flows: Seq<bool>, done: nat)
    requires
        direc == 1 || direc == -1,
        done <= limit,
    ensures
        flow(plane, x, y, direc, limit, flows, done).y == y,
        direc == 1 ==> x <= flow(plane, x, y, direc, limit, flows, done).x <= x + (limit - done),
        direc == -1 ==> x - (limit - done) <= flow(plane, x, y, direc, limit, flows, done).x <= x,
    decreases limit - done,
{
    if done < limit && flows_on(plane, x, y, direc, done < flows.len() && flows[done as int]) {
        lemma_flow_reach(plane.swap(x, y, x + direc, y), x + direc, y, direc, limit, flows, done + 1);
    }
}

/// A liquid that does not sink ends its update in its own row, no more
/// columns away than its spread allows, or in the cell above it.
pub proof fn lemma_liquid_reach(
    plane: Plane,
    table: [ParticleParams; SPECIES_COUNT],
    flipflop: int,
    x: int,
    y: int,
    draws: Draws,
)
    requires
        flipflop == 1 || flipflop == -1,
        !sinks_into(
            plane.at(x, y + 1),
            table[plane.at(x, y + 1).species.spec_index() as int].density,
            table[plane.at(x, y).species.spec_index() as int].density,
        ),
    ensures
        ({
            let after = Liquid.step(plane, table, flipflop, x, y, draws);
            let spread = table[plane.at(x, y).species.spec_index() as int].spread_velocity;
            ||| after.y == y && x - spread <= after.x <= x + spread
            ||| after.x == x && after.y == y - 1
        }),
{
    let mine = table[plane.at(x, y).species.spec_index() as int];
    lemma_flow_reach(plane, x, y, facing(plane.at(x, y), flipflop), mine.spread_velocity as nat, draws.flows, 0);
}

/// A liquid that is certain to flow on, does not sink and has room on the
/// side it faces leaves its cell and stays in its row, no more columns away
/// than its spread allows.
pub proof fn lemma_certain_flow(
    plane: Plane,
    table: [ParticleParams; SPECIES_COUNT],
    flipflop: int,
    x: int,
    y: int,
    draws: Draws,
)
    requires
        flipflop == 1 || flipflop == -1,
        !sinks_into(
            plane.at(x, y + 1),
            table[plane.at(x, y + 1).species.spec_index() as int].density,
            table[plane.at(x, y).species.spec_index() as int].density,
        ),
        flows_on(plane, x, y, facing(plane.at(x, y), flipflop), true),
        table[plane.at(x, y).species.spec_index() as int].spread_velocity >= 1,
        table[plane.at(x, y).species.spec_index() as int].viscosity >= UNIT,
        draws.fair(table[plane.at(x, y).species.spec_index() as int]),
    ensures
        ({
            let after = Liquid.step(plane, table, flipflop, x, y, draws);
            let spread = table[plane.at(x, y).species.spec_index() as int].spread_velocity;
            &&& after.y == y
            &&& after.x != x
            &&& x - spread <= after.x <= x + spread
        }),
{
    let mine = table[plane.at(x, y).species.spec_index() as int];
    let direc = facing(plane.at(x, y), flipflop);
    let limit = mine.spread_velocity as nat;
    assert(can_draw(mine.viscosity, draws.flows[0]));
    lemma_flow_reach(plane.swap(x, y, x + direc, y), x + direc, y, direc, limit, draws.flows, 1);
}

/// A liquid above a liquid of a lower density sinks: the two exchange their
/// cells, whatever the draws.
pub proof fn lemma_denser_liquid_sinks(
    plane: Plane,
    table: [ParticleParams; SPECIES_COUNT],
    flipflop: int,
    x: int,
    y: int,
    draws: Draws,
)
    requires
        plane.at(x, y + 1).is_liquid(),
        table[plane.at(x, y + 1).species.spec_index() as int].density < table[plane.at(
            x,
            y,
        ).species.spec_index() as int].density,
    ensures
        Liquid.step(plane, table, flipflop, x, y, draws) == (Move {
            plane: plane.swap(x, y, x, y + 1),
            x,
            y: y + 1,
        }),
{
}

impl Update for Behavior {
    open spec fn governs(&self, p: Particle) -> bool {
        p.behavior == Some(*self)
    }

    /// What the rule that this is makes of the grid.
    open spec fn step(
        &self,
        plane: Plane,
        table: [ParticleParams; SPECIES_COUNT],
        flipflop: int,
        x: int,
        y: int,
        draws: Draws,
    ) -> Move {
        match self {
            Behavior::Solid(solid) => solid.step(plane, table, flipflop, x, y, draws),
            Behavior::Liquid(liquid) => liquid.step(plane, table, flipflop, x, y, draws),
            Behavior::Gas(gas) => gas.step(plane, table, flipflop, x, y, draws),
            Behavior::FreeFall(freefall) => freefall.step(plane, table, flipflop, x, y, draws),
        }
    }

    fn update(&self, handler: &mut Handler, sandbox: &mut SandBox) {
        match self {
            Self::Solid(solid) => solid.update(handler, sandbox),
            Self::Liquid(liquid) => liquid.update(handler, sandbox),
            Self::Gas(gas) => gas.update(handler, sandbox),
            Self::FreeFall(freefall) => freefall.update(handler, sandbox),
        }
    }
}

/// What one update of the cell `(x, y)` makes of the grid: what the rule of
/// the particle there makes of it, and nothing where the particle has no rule.
pub open spec fn cell_step(
    plane: Plane,
    table: [ParticleParams; SPECIES_COUNT],
    flipflop: int,
    x: int,
    y: int,
    draws: Draws,
) -> Move {
    match plane.at(x, y).behavior {
        Some(behavior) => behavior.step(plane, table, flipflop, x, y, draws),
        None => Move { plane, x, y },
    }
}

/// Whether `after` is what one update of the cell `(x, y)` can make of the
/// grid `before`, for some outcome of the draws.
pub open spec fn updates_to(
    before: Plane,
    table: [ParticleParams; SPECIES_COUNT],
    flipflop: int,
    x: int,
    y: int,
    after: Plane,
) -> bool {
    exists|draws: Draws| #[trigger]
        draws.fair(table[before.at(x, y).species.spec_index() as int]) && after =~= cell_step(
            before,
            table,
            flipflop,
            x,
            y,
            draws,
        ).plane
}

} // verus!

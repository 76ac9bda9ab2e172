use sandbox::particle_params::ParticleParams;
use sandbox::particle_updates::Behavior;
use sandbox::particle_updates::FreeFall;
use sandbox::particle_updates::Gas;
use sandbox::particle_updates::Liquid;
use sandbox::particle_updates::Solid;
use sandbox::particles::Particle;
use sandbox::particles::ParticleType;
use sandbox::particles::SPECIES_COUNT;
use sandbox::random::UNIT;
use sandbox::sandbox::offset;
use sandbox::sandbox::Handler;
use sandbox::sandbox::SandBox;

fn matter(world: &SandBox) -> usize {
    world.grid.iter().filter(|p| p.species != ParticleType::Empty).count()
}

#[test]
fn out_of_bounds_reads_give_the_sentinel() {
    let world = SandBox::build(4, 3);
    assert_eq!(world.get(4, 0).species, ParticleType::OutOfBounds);
    assert_eq!(world.get(0, 3).species, ParticleType::OutOfBounds);
    assert_eq!(world.get(usize::MAX, usize::MAX).species, ParticleType::OutOfBounds);
    assert_eq!(world.get(3, 2).species, ParticleType::Empty);
    let sentinel = world.get(9, 9);
    assert_eq!(sentinel.behavior, Some(Behavior::Solid(Solid)));
    assert_eq!(sentinel.color, 0xff00_ffff);
    assert!(sentinel.awake);
    assert_eq!((sentinel.vx, sentinel.vy), (0, 0));
}

#[test]
fn a_new_world_is_empty_and_has_the_base_settings() {
    let world = SandBox::build(7, 5);
    assert_eq!(world.width, 7);
    assert_eq!(world.height, 5);
    assert_eq!(world.grid.len(), 35);
    assert!(world.grid.iter().all(|p| p.species == ParticleType::Empty && p.behavior.is_none() && p.awake));
    assert_eq!(world.flipflop, 1);
    assert_eq!(world.tick, 0);
    assert_eq!(world.thread_count, 0);
    assert_eq!(world.cluster_size, 0);
    assert_eq!(world.cluster_fill, UNIT);
    assert_eq!(world.chunk_offset, 0);
    assert_eq!(world.color_freq, 0);
    assert_eq!(world.color_shift, 0);
    assert_eq!(world.color_wave, [0i16; SPECIES_COUNT]);
    assert_eq!(world.particleparams[ParticleType::Sand.index()].resistance, 200);
}

#[test]
fn an_empty_world_of_no_cells_can_be_built_and_ticked() {
    let mut world = SandBox::build(0, 0);
    world.update_par();
    assert_eq!(world.grid.len(), 0);
    assert_eq!(world.tick, 1);
    assert_eq!(world.get(0, 0).species, ParticleType::OutOfBounds);
}

#[test]
fn cells_are_stored_row_by_row() {
    let mut world = SandBox::build(4, 3);
    world.add_particle(ParticleType::Stone, 1, 2);
    assert_eq!(world.index(1, 2), 9);
    assert_eq!(world.grid[9].species, ParticleType::Stone);
    assert_eq!(world.get(1, 2).species, ParticleType::Stone);
    assert_eq!(world.get(2, 1).species, ParticleType::Empty);
    assert!(world.inbounds(3, 2));
    assert!(!world.inbounds(4, 2));
    assert!(!world.inbounds(3, 3));
}

#[test]
fn matter_is_placed_on_empty_cells_only() {
    let mut world = SandBox::build(4, 4);
    world.add_particle(ParticleType::Sand, 1, 1);
    let sand = world.get(1, 1);
    assert_eq!(sand.species, ParticleType::Sand);
    assert_eq!(sand.behavior, Some(Behavior::Solid(Solid)));
    assert!(sand.awake);
    assert_eq!((sand.vx, sand.vy), (0, 0));
    world.add_particle(ParticleType::Water, 1, 1);
    assert_eq!(world.get(1, 1).species, ParticleType::Sand);
    assert_eq!(matter(&world), 1);
}

#[test]
fn placing_emptiness_erases() {
    let mut world = SandBox::build(4, 4);
    world.add_particle(ParticleType::Stone, 2, 3);
    world.add_particle(ParticleType::Empty, 2, 3);
    assert_eq!(world.get(2, 3).species, ParticleType::Empty);
    assert_eq!(world.get(2, 3).behavior, None);
    assert_eq!(matter(&world), 0);
}

#[test]
fn placing_outside_the_grid_changes_nothing() {
    let mut world = SandBox::build(4, 4);
    world.add_particle(ParticleType::Sand, 4, 0);
    world.add_particle(ParticleType::Sand, 0, 4);
    world.add_particle(ParticleType::Sand, usize::MAX, usize::MAX);
    assert_eq!(matter(&world), 0);
}

#[test]
fn the_sentinel_species_is_never_placed() {
    let mut world = SandBox::build(4, 4);
    world.add_particle(ParticleType::OutOfBounds, 1, 1);
    assert_eq!(world.get(1, 1).species, ParticleType::Empty);
    assert!(world.grid.iter().all(|p| p.species != ParticleType::OutOfBounds));
}

#[test]
fn a_placed_particle_is_coloured_with_the_wave_of_its_species() {
    let mut world = SandBox::build(2, 2);
    world.color_wave[ParticleType::Oil.index()] = 100;
    world.add_particle(ParticleType::Oil, 0, 0);
    let color = world.get(0, 0).color;
    assert_eq!(color >> 24, 0xff);
    let red = (color >> 16) & 0xff;
    let green = (color >> 8) & 0xff;
    let blue = color & 0xff;
    assert!((191..=209).contains(&red));
    assert!((141..=159).contains(&green));
    assert!((141..=159).contains(&blue));
}

#[test]
fn clear_empties_every_cell() {
    let mut world = SandBox::build(5, 4);
    world.add_particle(ParticleType::Stone, 0, 0);
    world.add_particle(ParticleType::Water, 4, 3);
    world.add_particle(ParticleType::Smoke, 2, 2);
    world.thread_count = 3;
    world.clear();
    assert_eq!(world.grid.len(), 20);
    assert_eq!(matter(&world), 0);
    assert!(world.grid.iter().all(|p| p.behavior.is_none() && p.awake && p.vx == 0 && p.vy == 0));
    assert_eq!(world.thread_count, 3);
    assert_eq!((world.width, world.height), (5, 4));
}

#[test]
fn the_brush_fills_a_disc() {
    let mut world = SandBox::build(11, 11);
    world.cluster_size = 4;
    world.add_cluster(ParticleType::Stone, 5, 5);
    assert_eq!(matter(&world), 13);
    for y in 0..11usize {
        for x in 0..11usize {
            let dx = x as i64 - 5;
            let dy = y as i64 - 5;
            let inside = dx * dx + dy * dy <= 4;
            assert_eq!(world.get(x, y).species == ParticleType::Stone, inside);
        }
    }
}

#[test]
fn the_brush_is_cut_off_at_the_edge() {
    let mut world = SandBox::build(10, 10);
    world.cluster_size = 5;
    world.add_cluster(ParticleType::Sand, 0, 5);
    assert_eq!(matter(&world), 9);
    for y in 0..10usize {
        for x in 0..10usize {
            let dx = x as i64;
            let dy = y as i64 - 5;
            assert_eq!(world.get(x, y).species == ParticleType::Sand, dx * dx + dy * dy <= 4);
        }
    }
    let mut corner = SandBox::build(3, 3);
    corner.cluster_size = 2;
    corner.add_cluster(ParticleType::Sand, 2, 2);
    assert_eq!(matter(&corner), 3);
}

#[test]
fn a_brush_that_never_fills_places_nothing() {
    let mut world = SandBox::build(9, 9);
    world.cluster_size = 6;
    world.cluster_fill = 0;
    world.add_cluster(ParticleType::Sand, 4, 4);
    assert_eq!(matter(&world), 0);
}

#[test]
fn a_brush_of_no_size_places_one_particle() {
    let mut world = SandBox::build(9, 9);
    world.add_cluster(ParticleType::Water, 4, 4);
    assert_eq!(matter(&world), 1);
    assert_eq!(world.get(4, 4).species, ParticleType::Water);
}

#[test]
fn the_brush_does_not_overwrite_matter_but_erases() {
    let mut world = SandBox::build(9, 9);
    world.cluster_size = 2;
    world.add_particle(ParticleType::Stone, 4, 4);
    world.add_cluster(ParticleType::Sand, 4, 4);
    assert_eq!(world.get(4, 4).species, ParticleType::Stone);
    assert_eq!(world.get(3, 4).species, ParticleType::Sand);
    assert_eq!(matter(&world), 5);
    world.add_cluster(ParticleType::Empty, 4, 4);
    assert_eq!(matter(&world), 0);
}

#[test]
fn colours_are_read_row_by_row() {
    let mut world = SandBox::build(3, 2);
    world.add_particle(ParticleType::Sand, 2, 1);
    let colors = world.to_color();
    assert_eq!(colors.len(), 6);
    for i in 0..6 {
        assert_eq!(colors[i], world.grid[i].color);
    }
}

#[test]
fn the_debug_picture_shows_who_is_awake() {
    let mut world = SandBox::build(3, 2);
    world.get_mut(1, 0).unwrap().awake = false;
    let picture = world.to_debug();
    assert_eq!(picture, vec![0xff00_ffff, 0xff00_0000, 0xff00_ffff, 0xff00_ffff, 0xff00_ffff, 0xff00_ffff]);
}

#[test]
fn get_mut_reaches_cells_of_the_grid_only() {
    let mut world = SandBox::build(3, 3);
    assert!(world.get_mut(3, 0).is_none());
    assert!(world.get_mut(0, 3).is_none());
    world.get_mut(2, 2).unwrap().vy = 77;
    assert_eq!(world.get(2, 2).vy, 77);
    world.get_mut_unchecked(0, 1).vx = -5;
    assert_eq!(world.grid[3].vx, -5);
}

#[test]
fn swap_exchanges_two_cells() {
    let mut world = SandBox::build(3, 3);
    world.add_particle(ParticleType::Sand, 0, 0);
    world.add_particle(ParticleType::Water, 2, 2);
    world.swap(0, 8);
    assert_eq!(world.get(0, 0).species, ParticleType::Water);
    assert_eq!(world.get(2, 2).species, ParticleType::Sand);
    world.swap(4, 4);
    assert_eq!(world.get(1, 1).species, ParticleType::Empty);
}

#[test]
fn offsets_stay_within_what_a_coordinate_holds() {
    assert_eq!(offset(5, 3), Some(8));
    assert_eq!(offset(5, -5), Some(0));
    assert_eq!(offset(5, -6), None);
    assert_eq!(offset(0, isize::MIN), None);
    assert_eq!(offset(usize::MAX, 1), None);
    assert_eq!(offset(usize::MAX, 0), Some(usize::MAX));
    assert_eq!(offset(1usize << (usize::BITS - 1), isize::MIN), Some(0));
}

#[test]
fn a_cursor_sees_its_cell_and_its_neighbours() {
    let mut world = SandBox::build(3, 3);
    world.add_particle(ParticleType::Sand, 1, 1);
    world.add_particle(ParticleType::Water, 2, 1);
    world.add_particle(ParticleType::Stone, 1, 0);
    let handler = Handler::build(1, 1, &world);
    assert_eq!(handler.here.species, ParticleType::Sand);
    assert_eq!(handler.get(&world, 0, 0).species, ParticleType::Sand);
    assert_eq!(handler.get(&world, 1, 0).species, ParticleType::Water);
    assert_eq!(handler.get(&world, 0, -1).species, ParticleType::Stone);
    assert_eq!(handler.get(&world, -1, 1).species, ParticleType::Empty);
    assert_eq!(handler.get(&world, 2, 0).species, ParticleType::OutOfBounds);
    assert_eq!(handler.get(&world, -2, 0).species, ParticleType::OutOfBounds);
    assert_eq!(handler.get(&world, 0, isize::MIN).species, ParticleType::OutOfBounds);
    assert_eq!(handler.relative_index(1, -1), Some((2, 0)));
    assert_eq!(handler.relative_index(-2, 0), None);
    assert_eq!(handler.get_params(&world, 1, 0).density, 10);
    assert_eq!(handler.get_params_here(&world).resistance, 200);
    assert!(handler.get_mut(&mut world, 2, 2).is_none());
    handler.get_mut(&mut world, 1, 0).unwrap().awake = false;
    assert!(!world.get(2, 1).awake);
    handler.get_mut_unchecked(&mut world, 0, -1).vx = 9;
    assert_eq!(world.get(1, 0).vx, 9);
    handler.get_mut_here(&mut world).vy = 4;
    assert_eq!(world.get(1, 1).vy, 4);
}

#[test]
fn a_cursor_outside_the_grid_sees_the_sentinel() {
    let world = SandBox::build(3, 3);
    let handler = Handler::build(7, 7, &world);
    assert_eq!(handler.here.species, ParticleType::OutOfBounds);
    assert_eq!((handler.x, handler.y), (7, 7));
}

#[test]
fn a_cursor_keeps_its_copy_until_it_is_taken_anew() {
    let mut world = SandBox::build(2, 2);
    world.add_particle(ParticleType::Sand, 0, 0);
    let mut handler = Handler::build(0, 0, &world);
    world.get_mut(0, 0).unwrap().vy = 123;
    assert_eq!(handler.here.vy, 0);
    handler.reup_here(&world);
    assert_eq!(handler.here.vy, 123);
    let mut p = handler.here;
    p.vx = 5;
    handler.set_here(&mut world, p);
    assert_eq!(handler.here.vx, 5);
    assert_eq!(world.get(0, 0).vx, 5);
}

#[test]
fn a_swap_and_the_swap_back_restore_the_grid() {
    let mut world = SandBox::build(4, 4);
    world.add_particle(ParticleType::Sand, 1, 1);
    world.add_particle(ParticleType::Water, 2, 2);
    world.add_particle(ParticleType::Stone, 0, 3);
    let before: Vec<(ParticleType, u32, bool, i32)> =
        world.grid.iter().map(|p| (p.species, p.color, p.direction_bias, p.vy)).collect();
    let mut handler = Handler::build(1, 1, &world);
    handler.swap(&mut world, 1, 1);
    assert_eq!((handler.x, handler.y), (2, 2));
    assert_eq!(handler.here.species, ParticleType::Sand);
    assert_eq!(world.get(2, 2).species, ParticleType::Sand);
    assert_eq!(world.get(1, 1).species, ParticleType::Water);
    handler.swap(&mut world, -1, -1);
    assert_eq!((handler.x, handler.y), (1, 1));
    assert_eq!(handler.here.species, ParticleType::Sand);
    let after: Vec<(ParticleType, u32, bool, i32)> =
        world.grid.iter().map(|p| (p.species, p.color, p.direction_bias, p.vy)).collect();
    assert_eq!(before, after);
}

#[test]
fn waking_and_handing_over_reach_the_neighbour() {
    let mut world = SandBox::build(3, 1);
    world.add_particle(ParticleType::Sand, 0, 0);
    world.add_particle(ParticleType::Sand, 1, 0);
    world.get_mut(1, 0).unwrap().awake = false;
    world.get_mut(0, 0).unwrap().vx = 30;
    world.get_mut(0, 0).unwrap().vy = 40;
    let handler = Handler::build(0, 0, &world);
    handler.wake(&mut world, 1, 0);
    assert!(world.get(1, 0).awake);
    handler.wake(&mut world, -1, 0);
    handler.hand_over(&mut world, 1, 0);
    assert_eq!((world.get(1, 0).vx, world.get(1, 0).vy), (30, 40));
    assert_eq!(world.get(1, 0).species, ParticleType::Sand);
}

#[test]
fn species_have_their_base_rules() {
    assert_eq!(ParticleType::Sand.base_behavior(), Some(Behavior::Solid(Solid)));
    assert_eq!(ParticleType::Gravel.base_behavior(), Some(Behavior::Solid(Solid)));
    assert_eq!(ParticleType::OutOfBounds.base_behavior(), Some(Behavior::Solid(Solid)));
    assert_eq!(ParticleType::Water.base_behavior(), Some(Behavior::Liquid(Liquid)));
    assert_eq!(ParticleType::Oil.base_behavior(), Some(Behavior::Liquid(Liquid)));
    assert_eq!(ParticleType::Smoke.base_behavior(), Some(Behavior::Gas(Gas)));
    assert_eq!(ParticleType::Empty.base_behavior(), None);
    assert_eq!(ParticleType::Stone.base_behavior(), None);
    assert_eq!(ParticleType::Wood.base_behavior(), None);
}

#[test]
fn species_index_the_parameter_table() {
    let all = [
        ParticleType::Empty,
        ParticleType::Sand,
        ParticleType::Water,
        ParticleType::Stone,
        ParticleType::Smoke,
        ParticleType::Gravel,
        ParticleType::Wood,
        ParticleType::Oil,
        ParticleType::OutOfBounds,
    ];
    for (i, species) in all.iter().enumerate() {
        assert_eq!(species.index(), i);
    }
    assert_eq!(all.len(), SPECIES_COUNT);
}

#[test]
fn the_base_table_holds_the_constants_of_each_species() {
    let table = ParticleParams::base_params_builder();
    let sand = table[ParticleType::Sand.index()];
    assert_eq!(
        (sand.minimal_velocity, sand.terminal_velocity, sand.gravity, sand.resistance),
        (1000, 4000, 50, 200)
    );
    assert_eq!((sand.speed_to_bounce, sand.horizontal_transfer), (1500, 600));
    let water = table[ParticleType::Water.index()];
    assert_eq!((water.minimal_velocity, water.terminal_velocity, water.gravity), (1000, 2500, 50));
    assert_eq!((water.fluid_shimmer, water.viscosity, water.density), (100, 850, 10));
    assert_eq!(water.spread_velocity, usize::MAX);
    let smoke = table[ParticleType::Smoke.index()];
    assert_eq!((smoke.volatility, smoke.vertical_affinity, smoke.horizontal_affinity), (1, 100, 500));
    let gravel = table[ParticleType::Gravel.index()];
    assert_eq!(
        (gravel.minimal_velocity, gravel.terminal_velocity, gravel.gravity, gravel.resistance),
        (1000, 4000, 100, 800)
    );
    let oil = table[ParticleType::Oil.index()];
    assert_eq!((oil.terminal_velocity, oil.gravity, oil.fluid_shimmer), (1500, 10, 50));
    assert_eq!((oil.viscosity, oil.density, oil.spread_velocity), (100, 1, usize::MAX));
    for species in [ParticleType::Empty, ParticleType::Stone, ParticleType::Wood, ParticleType::OutOfBounds] {
        let inert = table[species.index()];
        assert_eq!((inert.gravity, inert.resistance, inert.density, inert.volatility), (0, 0, 0, 0));
        assert_eq!((inert.terminal_velocity, inert.minimal_velocity, inert.spread_velocity), (0, 0, 0));
    }
    let none = ParticleParams::default();
    assert_eq!((none.viscosity, none.fluid_shimmer, none.horizontal_transfer, none.speed_to_bounce), (0, 0, 0, 0));
    assert_eq!((none.vertical_affinity, none.horizontal_affinity), (0, 0));
}

#[test]
fn builders_make_particles_awake_and_at_rest() {
    let sand = Particle::build(ParticleType::Sand);
    assert_eq!(sand.species, ParticleType::Sand);
    assert_eq!(sand.behavior, Some(Behavior::Solid(Solid)));
    assert!(sand.awake && sand.vx == 0 && sand.vy == 0);
    let water = Particle::build_color(ParticleType::Water, 7);
    assert_eq!(water.behavior, Some(Behavior::Liquid(Liquid)));
    assert!(water.is_liquid() && !water.is_solid() && !water.is_gas() && !water.is_falling());
    let falling = Particle::build_color_start_falling(ParticleType::Gravel, 0);
    assert_eq!(falling.species, ParticleType::Gravel);
    assert_eq!(falling.behavior, Some(Behavior::FreeFall(FreeFall)));
    assert!(falling.is_falling() && falling.is_awake() && !falling.is_empty());
    let empty = Particle::build(ParticleType::Empty);
    assert!(empty.is_empty() && !empty.is_solid() && !empty.is_falling());
    let smoke = Particle::build(ParticleType::Smoke);
    assert!(smoke.is_gas());
    let sentinel = Particle::out_of_bounds();
    assert!(sentinel.is_solid() && !sentinel.is_empty());
    assert!(!sentinel.direction_bias);
}

#[test]
fn falling_begins_and_stops() {
    let mut sand = Particle::build(ParticleType::Sand);
    sand.vy = 1200;
    sand.begin_falling();
    assert!(sand.is_falling());
    assert_eq!(sand.species, ParticleType::Sand);
    assert_eq!(sand.vy, 1200);
    sand.stop_falling();
    assert!(sand.is_solid());
    let mut water = Particle::build(ParticleType::Water);
    water.begin_falling();
    water.stop_falling();
    assert!(water.is_liquid());
}

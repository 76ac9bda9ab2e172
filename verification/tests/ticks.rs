use sandbox::chunks::Chunk;
use sandbox::particles::Particle;
use sandbox::particles::ParticleType;
use sandbox::random::UNIT;
use sandbox::sandbox::SandBox;

fn put(world: &mut SandBox, x: usize, y: usize, species: ParticleType) {
    let mut p = Particle::build(species);
    p.direction_bias = true;
    *world.get_mut(x, y).unwrap() = p;
}

fn count(world: &SandBox, species: ParticleType) -> usize {
    world.grid.iter().filter(|p| p.species == species).count()
}

fn matter(world: &SandBox) -> usize {
    world.grid.len() - count(world, ParticleType::Empty)
}

fn find(world: &SandBox, species: ParticleType) -> Vec<(usize, usize)> {
    let mut found = Vec::new();
    for y in 0..world.height {
        for x in 0..world.width {
            if world.get(x, y).species == species {
                found.push((x, y));
            }
        }
    }
    found
}

fn whole(world: &SandBox) -> Chunk {
    Chunk::build(0, world.width, 0, world.height)
}

fn smoke_filled(width: usize, height: usize) -> SandBox {
    let mut world = SandBox::build(width, height);
    for y in 0..height {
        for x in 0..width {
            put(&mut world, x, y, ParticleType::Smoke);
        }
    }
    let smoke = ParticleType::Smoke.index();
    world.particleparams[smoke].volatility = UNIT;
    world.particleparams[smoke].vertical_affinity = 0;
    world.particleparams[smoke].horizontal_affinity = 0;
    world
}

#[test]
fn sand_falls_to_the_floor_and_lands() {
    let mut world = SandBox::build(10, 10);
    world.thread_count = 1;
    world.add_particle(ParticleType::Sand, 5, 0);
    for _ in 0..9 {
        world.update_par();
    }
    assert_eq!(find(&world, ParticleType::Sand), vec![(5, 9)]);
    assert_eq!(matter(&world), 1);
    let sand = world.get(5, 9);
    assert!(sand.is_solid());
    assert!(!sand.is_falling());
    assert_eq!(sand.vx, 0);
    assert_eq!(sand.vy, world.particleparams[ParticleType::Sand.index()].minimal_velocity);
    assert_eq!(world.tick, 9);
}

#[test]
fn sand_falls_to_the_floor_whatever_the_bands() {
    for (threads, offset) in [(0usize, 0i32), (1, 5), (3, 3), (4, 2), (10, 1), (25, 7)] {
        let mut world = SandBox::build(10, 10);
        world.thread_count = threads;
        world.chunk_offset = offset;
        world.add_particle(ParticleType::Sand, 5, 0);
        for _ in 0..9 {
            world.update_par();
        }
        assert_eq!(find(&world, ParticleType::Sand), vec![(5, 9)]);
        assert!(world.get(5, 9).is_solid());
    }
}

#[test]
fn the_denser_liquid_sinks_in_one_tick() {
    let mut world = SandBox::build(1, 2);
    world.thread_count = 1;
    put(&mut world, 0, 0, ParticleType::Water);
    put(&mut world, 0, 1, ParticleType::Oil);
    assert_eq!(world.particleparams[ParticleType::Water.index()].density, 10);
    assert_eq!(world.particleparams[ParticleType::Oil.index()].density, 1);
    world.update_par();
    assert_eq!(world.get(0, 0).species, ParticleType::Oil);
    assert_eq!(world.get(0, 1).species, ParticleType::Water);
}

#[test]
fn the_denser_liquid_sinks_between_walls() {
    let mut world = SandBox::build(3, 3);
    world.thread_count = 1;
    for y in 0..3 {
        put(&mut world, 0, y, ParticleType::Stone);
        put(&mut world, 2, y, ParticleType::Stone);
    }
    put(&mut world, 1, 2, ParticleType::Stone);
    put(&mut world, 1, 0, ParticleType::Water);
    put(&mut world, 1, 1, ParticleType::Oil);
    world.particleparams[ParticleType::Water.index()].fluid_shimmer = 0;
    world.particleparams[ParticleType::Oil.index()].fluid_shimmer = 0;
    world.update_par();
    assert_eq!(world.get(1, 0).species, ParticleType::Oil);
    assert_eq!(world.get(1, 1).species, ParticleType::Water);
    for _ in 0..10 {
        world.update_par();
    }
    assert_eq!(world.get(1, 0).species, ParticleType::Oil);
    assert_eq!(world.get(1, 1).species, ParticleType::Water);
}

#[test]
fn volatile_smoke_is_gone_after_one_tick() {
    for _ in 0..20 {
        let mut world = SandBox::build(5, 5);
        world.thread_count = 2;
        world.chunk_offset = 2;
        put(&mut world, 2, 2, ParticleType::Smoke);
        world.particleparams[ParticleType::Smoke.index()].volatility = UNIT;
        world.update_par();
        assert_eq!(count(&world, ParticleType::Smoke), 0);
        assert_eq!(matter(&world), 0);
    }
}

#[test]
fn stable_smoke_stays() {
    let mut world = SandBox::build(5, 5);
    world.thread_count = 2;
    put(&mut world, 2, 2, ParticleType::Smoke);
    world.particleparams[ParticleType::Smoke.index()].volatility = 0;
    for _ in 0..50 {
        world.update_par();
        assert_eq!(count(&world, ParticleType::Smoke), 1);
    }
}

#[test]
fn sand_on_a_floor_settles_in_one_tick_and_stays() {
    let mut world = SandBox::build(5, 5);
    world.thread_count = 1;
    for x in 0..5 {
        put(&mut world, x, 4, ParticleType::Stone);
    }
    put(&mut world, 2, 3, ParticleType::Sand);
    world.particleparams[ParticleType::Sand.index()].resistance = UNIT;
    assert!(world.get(2, 3).awake);
    world.update_par();
    assert_eq!(find(&world, ParticleType::Sand), vec![(2, 3)]);
    assert!(!world.get(2, 3).awake);
    for _ in 0..40 {
        world.update_par();
        assert_eq!(find(&world, ParticleType::Sand), vec![(2, 3)]);
        assert!(!world.get(2, 3).awake);
        assert!(world.get(2, 3).is_solid());
    }
}

#[test]
fn matter_is_conserved_without_smoke() {
    let mut world = SandBox::build(24, 20);
    world.thread_count = 3;
    world.chunk_offset = 4;
    world.cluster_size = 7;
    world.add_cluster(ParticleType::Sand, 6, 4);
    world.add_cluster(ParticleType::Water, 16, 5);
    world.add_cluster(ParticleType::Oil, 12, 12);
    world.add_cluster(ParticleType::Gravel, 20, 2);
    for x in 3..15 {
        world.add_particle(ParticleType::Stone, x, 15);
    }
    world.add_particle(ParticleType::Wood, 0, 0);
    let all = [
        ParticleType::Sand,
        ParticleType::Water,
        ParticleType::Oil,
        ParticleType::Gravel,
        ParticleType::Stone,
        ParticleType::Wood,
        ParticleType::Empty,
    ];
    let before: Vec<usize> = all.iter().map(|&s| count(&world, s)).collect();
    assert!(before[0] > 20 && before[1] > 20);
    for _ in 0..120 {
        world.update_par();
        let after: Vec<usize> = all.iter().map(|&s| count(&world, s)).collect();
        assert_eq!(before, after);
        assert_eq!(count(&world, ParticleType::OutOfBounds), 0);
    }
}

#[test]
fn matter_is_lost_to_the_decay_of_smoke_only() {
    let mut world = SandBox::build(20, 20);
    world.thread_count = 4;
    world.chunk_offset = 5;
    world.cluster_size = 9;
    world.add_cluster(ParticleType::Smoke, 10, 12);
    world.add_cluster(ParticleType::Sand, 5, 3);
    world.add_cluster(ParticleType::Water, 14, 3);
    world.particleparams[ParticleType::Smoke.index()].volatility = 200;
    let sand = count(&world, ParticleType::Sand);
    let water = count(&world, ParticleType::Water);
    let mut smoke = count(&world, ParticleType::Smoke);
    let mut empty = count(&world, ParticleType::Empty);
    assert!(smoke > 30);
    for _ in 0..200 {
        world.update_par();
        let smoke_now = count(&world, ParticleType::Smoke);
        let empty_now = count(&world, ParticleType::Empty);
        assert_eq!(count(&world, ParticleType::Sand), sand);
        assert_eq!(count(&world, ParticleType::Water), water);
        assert!(smoke_now <= smoke);
        assert_eq!(empty_now - empty, smoke - smoke_now);
        smoke = smoke_now;
        empty = empty_now;
    }
    assert_eq!(smoke, 0);
}

#[test]
fn a_tick_flips_the_side_and_counts() {
    let mut world = SandBox::build(4, 4);
    world.thread_count = 2;
    world.color_freq = 2;
    world.update_par();
    assert_eq!((world.flipflop, world.tick, world.color_shift), (-1, 1, 0));
    world.update_par();
    assert_eq!((world.flipflop, world.tick, world.color_shift), (1, 2, 1));
    world.update_par();
    assert_eq!((world.flipflop, world.tick, world.color_shift), (-1, 3, 1));
    world.color_freq = 0;
    world.update_par();
    assert_eq!((world.flipflop, world.tick, world.color_shift), (1, 4, 4));
    assert_eq!((world.thread_count, world.width, world.height), (2, 4, 4));
}

#[test]
fn the_tick_counter_wraps() {
    let mut world = SandBox::build(2, 2);
    world.tick = u32::MAX;
    world.color_freq = 3;
    world.update_par();
    assert_eq!(world.tick, 0);
    assert_eq!(world.color_shift, 0);
}

#[test]
fn a_tick_without_bands_set_is_sound() {
    let mut world = SandBox::build(6, 6);
    world.add_particle(ParticleType::Sand, 3, 0);
    world.thread_count = 0;
    world.chunk_offset = 0;
    world.update_par();
    world.chunk_offset = -7;
    world.update_par();
    world.thread_count = 1000;
    world.chunk_offset = i32::MAX;
    world.update_par();
    assert_eq!(matter(&world), 1);
}

#[test]
fn the_zig_zag_scan_updates_every_cell_of_its_chunk() {
    let mut world = smoke_filled(7, 5);
    let chunk = whole(&world);
    world.process_zig_zag(chunk);
    assert_eq!(matter(&world), 0);

    let mut partly = smoke_filled(7, 5);
    partly.process_zig_zag(Chunk::build(2, 5, 1, 4));
    for y in 0..5usize {
        for x in 0..7usize {
            let inside = (2..5).contains(&x) && (1..4).contains(&y);
            assert_eq!(partly.get(x, y).is_empty(), inside);
        }
    }
}

#[test]
fn the_zig_zag_scan_goes_from_the_bottom_up_by_every_second_row() {
    let mut world = SandBox::build(1, 6);
    put(&mut world, 0, 1, ParticleType::Sand);
    world.process_zig_zag(Chunk::build(0, 1, 0, 6));
    // row 1 is scanned in the first pass, and row 2, which the sand has come
    // to, in the second
    assert_eq!(find(&world, ParticleType::Sand), vec![(0, 3)]);
    let mut even = SandBox::build(1, 6);
    put(&mut even, 0, 0, ParticleType::Sand);
    even.process_zig_zag(Chunk::build(0, 1, 0, 6));
    assert_eq!(find(&even, ParticleType::Sand), vec![(0, 1)]);
}

#[test]
fn a_row_is_scanned_in_either_direction() {
    let mut world = SandBox::build(4, 1);
    put(&mut world, 0, 0, ParticleType::Water);
    world.particleparams[ParticleType::Water.index()].viscosity = UNIT;
    world.particleparams[ParticleType::Water.index()].spread_velocity = 1;
    world.particleparams[ParticleType::Water.index()].fluid_shimmer = 0;
    world.process_row(0, 4, 0, false);
    assert_eq!(find(&world, ParticleType::Water), vec![(3, 0)]);
    let mut back = SandBox::build(4, 1);
    put(&mut back, 0, 0, ParticleType::Water);
    back.particleparams[ParticleType::Water.index()].viscosity = UNIT;
    back.particleparams[ParticleType::Water.index()].spread_velocity = 1;
    back.particleparams[ParticleType::Water.index()].fluid_shimmer = 0;
    back.process_row(0, 4, 0, true);
    assert_eq!(find(&back, ParticleType::Water), vec![(1, 0)]);
    back.process_row(2, 2, 0, true);
    assert_eq!(find(&back, ParticleType::Water), vec![(1, 0)]);
}

#[test]
fn one_cell_can_be_updated_by_itself() {
    let mut world = SandBox::build(2, 3);
    put(&mut world, 1, 0, ParticleType::Sand);
    world.update_cell(0, 0);
    assert_eq!(find(&world, ParticleType::Sand), vec![(1, 0)]);
    world.update_cell(1, 0);
    assert_eq!(find(&world, ParticleType::Sand), vec![(1, 1)]);
}

#[test]
fn the_strided_scan_updates_every_cell_of_its_chunk() {
    for (width, height) in [(1usize, 1usize), (2, 1), (7, 5), (6, 6), (12, 10), (1, 9)] {
        for _ in 0..10 {
            let mut world = smoke_filled(width, height);
            let chunk = whole(&world);
            world.process_pcg(chunk);
            assert_eq!(matter(&world), 0);
        }
    }
    let mut partly = smoke_filled(7, 5);
    partly.process_pcg(Chunk::build(2, 5, 1, 4));
    for y in 0..5usize {
        for x in 0..7usize {
            let inside = (2..5).contains(&x) && (1..4).contains(&y);
            assert_eq!(partly.get(x, y).is_empty(), inside);
        }
    }
    let mut none = smoke_filled(3, 3);
    none.process_pcg(Chunk::build(1, 1, 0, 3));
    assert_eq!(matter(&none), 9);
}

#[test]
fn the_shuffled_scan_updates_every_cell_of_its_chunk() {
    for _ in 0..10 {
        let mut world = smoke_filled(8, 6);
        let chunk = whole(&world);
        world.process_true_random(chunk);
        assert_eq!(matter(&world), 0);
    }
    let mut partly = smoke_filled(7, 5);
    partly.process_true_random(Chunk::build(2, 5, 1, 4));
    for y in 0..5usize {
        for x in 0..7usize {
            let inside = (2..5).contains(&x) && (1..4).contains(&y);
            assert_eq!(partly.get(x, y).is_empty(), inside);
        }
    }
    let mut none = smoke_filled(3, 3);
    none.process_true_random(Chunk::build(0, 3, 2, 2));
    assert_eq!(matter(&none), 9);
}

#[test]
fn the_other_scans_follow_the_same_rules() {
    let mut strided = SandBox::build(9, 9);
    let mut shuffled = SandBox::build(9, 9);
    for world in [&mut strided, &mut shuffled] {
        world.cluster_size = 4;
        world.add_cluster(ParticleType::Sand, 4, 2);
        world.add_cluster(ParticleType::Water, 4, 6);
    }
    let sand = count(&strided, ParticleType::Sand);
    let water = count(&strided, ParticleType::Water);
    for _ in 0..60 {
        let chunk = whole(&strided);
        strided.process_pcg(chunk);
        shuffled.process_true_random(chunk);
    }
    for world in [&strided, &shuffled] {
        assert_eq!(count(world, ParticleType::Sand), sand);
        assert_eq!(count(world, ParticleType::Water), water);
        assert!(world.valid());
        assert!(world.get(4, 0).is_empty());
    }
}

#[test]
fn chunks_are_processed_even_ones_first() {
    let mut world = smoke_filled(6, 2);
    let chunks = vec![Chunk::build(0, 2, 0, 2), Chunk::build(2, 4, 0, 2), Chunk::build(4, 6, 0, 2)];
    world.process_chunks(&chunks);
    assert_eq!(matter(&world), 0);
    let mut some = smoke_filled(6, 2);
    some.process_chunks(&vec![Chunk::build(0, 2, 0, 2), Chunk::build(4, 6, 0, 2)]);
    assert_eq!(find(&some, ParticleType::Smoke), vec![(2, 0), (3, 0), (2, 1), (3, 1)]);
    some.process_chunks(&Vec::new());
    assert_eq!(matter(&some), 4);
}

fn water_row() -> SandBox {
    let mut world = SandBox::build(8, 1);
    put(&mut world, 0, 0, ParticleType::Water);
    let water = ParticleType::Water.index();
    world.particleparams[water].viscosity = UNIT;
    world.particleparams[water].spread_velocity = 1;
    world.particleparams[water].fluid_shimmer = 0;
    world
}

#[test]
fn the_shuffled_scan_has_no_fixed_order() {
    let mut ends = Vec::new();
    for _ in 0..60 {
        let mut world = water_row();
        let chunk = whole(&world);
        world.process_true_random(chunk);
        ends.push(find(&world, ParticleType::Water)[0].0);
    }
    assert!(ends.iter().all(|&x| x >= 1));
    assert!(ends.iter().any(|&x| x != ends[0]));
}

#[test]
fn the_strided_scan_has_no_fixed_order() {
    let mut ends = Vec::new();
    for _ in 0..60 {
        let mut world = water_row();
        let chunk = whole(&world);
        world.process_pcg(chunk);
        ends.push(find(&world, ParticleType::Water)[0].0);
    }
    assert!(ends.iter().all(|&x| x >= 1));
    assert!(ends.iter().any(|&x| x != ends[0]));
}

#[test]
fn a_tick_is_counted_by_itself() {
    let mut world = SandBox::build(3, 3);
    world.add_particle(ParticleType::Sand, 1, 0);
    world.color_freq = 4;
    world.tick = 7;
    world.advance();
    assert_eq!((world.flipflop, world.tick, world.color_shift), (-1, 8, 2));
    assert_eq!(find(&world, ParticleType::Sand), vec![(1, 0)]);
}

#[test]
fn a_world_knows_whether_it_is_valid() {
    let mut world = SandBox::build(4, 3);
    world.add_particle(ParticleType::Sand, 1, 1);
    world.thread_count = 2;
    assert!(world.valid());
    world.update_par();
    assert!(world.valid());
    world.flipflop = 2;
    assert!(!world.valid());
    world.flipflop = -1;
    assert!(world.valid());
    world.width = 5;
    assert!(!world.valid());
    world.width = usize::MAX;
    assert!(!world.valid());
    world.width = 4;
    world.get_mut(0, 0).unwrap().species = ParticleType::OutOfBounds;
    assert!(!world.valid());
    world.get_mut(0, 0).unwrap().species = ParticleType::Water;
    assert!(!world.valid());
    *world.get_mut(0, 0).unwrap() = Particle::build_color_start_falling(ParticleType::Gravel, 0);
    assert!(world.valid());
    *world.get_mut(0, 0).unwrap() = Particle::build_color_start_falling(ParticleType::Water, 0);
    assert!(!world.valid());
}

#[test]
fn a_chunk_fits_a_world_that_holds_it() {
    let world = SandBox::build(4, 3);
    assert!(Chunk::build(0, 4, 0, 3).fits(&world));
    assert!(Chunk::build(2, 2, 1, 1).fits(&world));
    assert!(!Chunk::build(0, 5, 0, 3).fits(&world));
    assert!(!Chunk::build(0, 4, 0, 4).fits(&world));
    assert!(!Chunk::build(3, 2, 0, 3).fits(&world));
    assert!(!Chunk::build(0, 4, 2, 1).fits(&world));
}

#[test]
fn storable_particles_are_those_a_grid_may_hold() {
    assert!(Particle::build(ParticleType::Sand).is_storable());
    assert!(Particle::build(ParticleType::Empty).is_storable());
    assert!(Particle::build(ParticleType::Stone).is_storable());
    assert!(Particle::build_color_start_falling(ParticleType::Sand, 0).is_storable());
    assert!(!Particle::build_color_start_falling(ParticleType::Oil, 0).is_storable());
    assert!(!Particle::build_color_start_falling(ParticleType::Empty, 0).is_storable());
    assert!(!Particle::out_of_bounds().is_storable());
    let mut odd = Particle::build(ParticleType::Sand);
    odd.behavior = None;
    assert!(!odd.is_storable());
}

#[test]
fn a_tick_uses_no_more_bands_than_threads_are_set() {
    for (width, threads) in [(10usize, 3usize), (9, 3), (10, 4), (7, 1), (3, 8), (12, 0)] {
        for _ in 0..20 {
            let chunks = Chunk::columnar_chunks(4, width, threads, 3);
            assert!(chunks.len() <= threads.max(1));
            assert!(!chunks.is_empty());
            let mut world = smoke_filled(width, 4);
            world.process_chunks(&chunks);
            assert_eq!(matter(&world), 0);
        }
    }
}

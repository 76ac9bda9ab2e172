use sandbox::chunks::Chunk;
use sandbox::helpers::channel;
use sandbox::helpers::color_near;
use sandbox::helpers::greatest_common_divisor;
use sandbox::helpers::random_coprime;
use sandbox::helpers::LineTracer;
use sandbox::particles::ParticleType;

fn walk(x0: isize, y0: isize, dx: isize, dy: isize) -> Vec<(isize, isize)> {
    let mut tracer = LineTracer::build(x0, y0, dx, dy);
    let mut points = Vec::new();
    while let Some(point) = tracer.step() {
        points.push(point);
        assert!(points.len() < 10_000);
    }
    assert_eq!(tracer.step(), None);
    points
}

fn bounds(chunks: &[Chunk]) -> Vec<(usize, usize, usize, usize)> {
    chunks.iter().map(|c| (c.xmin, c.xmax, c.ymin, c.ymax)).collect()
}

#[test]
fn the_greatest_common_divisor_is_euclids() {
    assert_eq!(greatest_common_divisor(12, 18), 6);
    assert_eq!(greatest_common_divisor(18, 12), 6);
    assert_eq!(greatest_common_divisor(17, 5), 1);
    assert_eq!(greatest_common_divisor(0, 9), 9);
    assert_eq!(greatest_common_divisor(9, 0), 9);
    assert_eq!(greatest_common_divisor(0, 0), 0);
    assert_eq!(greatest_common_divisor(1, usize::MAX), 1);
    assert_eq!(greatest_common_divisor(300_000, 450_000), 150_000);
}

#[test]
fn a_random_coprime_has_no_divisor_in_common() {
    for target in [2usize, 3, 4, 6, 12, 30, 97, 210, 1024, 300_000] {
        for _ in 0..50 {
            let step = random_coprime(target);
            assert!(step >= 1 && step < target);
            assert_eq!(greatest_common_divisor(step, target), 1);
        }
    }
    assert_eq!(random_coprime(0), 1);
    assert_eq!(random_coprime(1), 1);
    assert_eq!(random_coprime(2), 1);
}

#[test]
fn a_random_coprime_is_not_always_the_same() {
    let draws: Vec<usize> = (0..200).map(|_| random_coprime(1009)).collect();
    assert!(draws.iter().any(|&step| step != draws[0]));
}

#[test]
fn a_walk_gives_the_cells_of_a_line() {
    assert_eq!(walk(0, 0, 3, 1), vec![(0, 0), (1, 0), (2, 1), (3, 1)]);
    assert_eq!(walk(0, 0, 0, 3), vec![(0, 0), (0, 1), (0, 2), (0, 3)]);
    assert_eq!(walk(2, 2, -2, 0), vec![(2, 2), (1, 2), (0, 2)]);
    assert_eq!(walk(0, 0, 2, 2), vec![(0, 0), (1, 1), (2, 2)]);
    assert_eq!(walk(0, 0, -1, -3), vec![(0, 0), (0, -1), (-1, -2), (-1, -3)]);
    assert_eq!(walk(5, -5, 1, -2), vec![(5, -5), (5, -6), (6, -7)]);
}

#[test]
fn a_walk_of_no_length_gives_its_start() {
    assert_eq!(walk(1, 1, 0, 0), vec![(1, 1)]);
    assert_eq!(walk(-4, 9, 0, 0), vec![(-4, 9)]);
}

#[test]
fn a_walk_ends_at_the_end_of_the_line_by_single_steps() {
    for dx in -7isize..=7 {
        for dy in -7isize..=7 {
            let points = walk(3, -2, dx, dy);
            assert_eq!(points[0], (3, -2));
            assert_eq!(*points.last().unwrap(), (3 + dx, -2 + dy));
            assert_eq!(points.len() as isize, dx.abs().max(dy.abs()) + 1);
            for pair in points.windows(2) {
                let step = (pair[1].0 - pair[0].0, pair[1].1 - pair[0].1);
                assert!(step.0.abs() <= 1 && step.1.abs() <= 1 && step != (0, 0));
            }
        }
    }
}

#[test]
fn a_long_walk_ends() {
    let limit = 0x0fff_ffff;
    let mut tracer = LineTracer::build(-limit, limit, 5000, -2_000_000);
    let mut count = 0;
    let mut last = (0, 0);
    while let Some(point) = tracer.step() {
        last = point;
        count += 1;
    }
    assert_eq!(count, 2_000_001);
    assert_eq!(last, (5000 - limit, limit - 2_000_000));
    let mut far = LineTracer::build(limit, -limit, limit, -limit);
    assert_eq!(far.step(), Some((limit, -limit)));
    assert_eq!(far.step(), Some((limit + 1, -limit - 1)));
}

#[test]
fn channels_are_jittered_and_held_within_a_byte() {
    assert_eq!(channel(220, 0, 6, 0), 220);
    assert_eq!(channel(220, 5, 6, 0), 225);
    assert_eq!(channel(220, 6, 6, 0), 220);
    assert_eq!(channel(220, 7, 6, 0), 221);
    assert_eq!(channel(220, -7, 6, 0), 219);
    assert_eq!(channel(220, -128, 6, 0), 218);
    assert_eq!(channel(220, 127, 127, 0), 220);
    assert_eq!(channel(250, 100, 127, 0), 255);
    assert_eq!(channel(3, -100, 127, 0), 0);
    assert_eq!(channel(100, 0, 1, 50), 150);
    assert_eq!(channel(100, 3, 10, -50), 53);
    assert_eq!(channel(100, 0, 10, i16::MAX), 255);
    assert_eq!(channel(100, 0, 10, i16::MIN), 0);
}

#[test]
fn a_colour_near_another_is_opaque_and_close() {
    for _ in 0..200 {
        let color = color_near(245, 210, 170, 15, 0);
        assert_eq!(color >> 24, 0xff);
        let red = (color >> 16) & 0xff;
        let green = (color >> 8) & 0xff;
        let blue = color & 0xff;
        assert!((231..=255).contains(&red));
        assert!((196..=224).contains(&green));
        assert!((156..=184).contains(&blue));
    }
    assert_eq!(color_near(10, 20, 30, 1, 0), 0xff0a_141e);
    assert_eq!(color_near(10, 20, 30, 1, 5), 0xff0f_1923);
    assert_eq!(color_near(10, 20, 30, 1, -20), 0xff00_000a);
}

#[test]
fn a_colour_near_another_is_jittered() {
    let colors: Vec<u32> = (0..100).map(|_| color_near(100, 100, 100, 40, 0)).collect();
    assert!(colors.iter().any(|&c| c != colors[0]));
}

#[test]
fn species_have_their_colours() {
    assert_eq!(ParticleType::OutOfBounds.color(0), 0xff00_ffff);
    assert_eq!(ParticleType::OutOfBounds.color(300), 0xff00_ffff);
    assert_eq!(ParticleType::Sand.base_color(), (245, 210, 170, 15));
    assert_eq!(ParticleType::Empty.base_color(), (220, 235, 245, 6));
    assert_eq!(ParticleType::Gravel.base_color(), (160, 150, 145, 40));
    assert_eq!(ParticleType::Oil.color_period(), 20);
    assert_eq!(ParticleType::Stone.color_period(), 35);
    for _ in 0..100 {
        let color = ParticleType::Empty.color(0);
        assert_eq!(color >> 24, 0xff);
        assert!((215..=225).contains(&((color >> 16) & 0xff)));
        assert!((230..=240).contains(&((color >> 8) & 0xff)));
        assert!((240..=250).contains(&(color & 0xff)));
        let shifted = ParticleType::Empty.color(10);
        assert!((225..=235).contains(&((shifted >> 16) & 0xff)));
        assert!((250..=255).contains(&(shifted & 0xff)));
    }
}

#[test]
fn a_chunk_is_built_from_its_bounds() {
    let chunk = Chunk::build(1, 4, 2, 9);
    assert_eq!((chunk.xmin, chunk.xmax, chunk.ymin, chunk.ymax), (1, 4, 2, 9));
}

#[test]
fn bands_have_the_width_that_the_count_gives() {
    assert_eq!(Chunk::band_width(600, 20), 30);
    assert_eq!(Chunk::band_width(10, 3), 3);
    assert_eq!(Chunk::band_width(10, 0), 10);
    assert_eq!(Chunk::band_width(3, 8), 1);
    assert_eq!(Chunk::band_width(0, 4), 1);
}

#[test]
fn there_are_no_more_bands_than_the_count_says() {
    assert_eq!(Chunk::band_number(600, 20), 20);
    assert_eq!(Chunk::band_number(10, 3), 3);
    assert_eq!(Chunk::band_number(10, 0), 1);
    assert_eq!(Chunk::band_number(3, 8), 3);
    assert_eq!(Chunk::band_number(0, 4), 0);
    assert_eq!(Chunk::band_number(0, 0), 0);
    assert_eq!(Chunk::band_number(usize::MAX, usize::MAX), usize::MAX);
}

#[test]
fn columns_split_the_grid_into_bands() {
    assert_eq!(bounds(&Chunk::columns(5, 10, 3, 1)), vec![(0, 2, 0, 5), (2, 5, 0, 5), (5, 10, 0, 5)]);
    assert_eq!(bounds(&Chunk::columns(5, 10, 2, 0)), vec![(0, 5, 0, 5), (5, 10, 0, 5)]);
    assert_eq!(bounds(&Chunk::columns(7, 9, 3, 2)), vec![(0, 1, 0, 7), (1, 4, 0, 7), (4, 9, 0, 7)]);
    assert_eq!(bounds(&Chunk::columns(7, 9, 3, 0)), vec![(0, 3, 0, 7), (3, 6, 0, 7), (6, 9, 0, 7)]);
    assert_eq!(
        bounds(&Chunk::columns(5, 10, 4, 1)),
        vec![(0, 1, 0, 5), (1, 3, 0, 5), (3, 5, 0, 5), (5, 10, 0, 5)]
    );
}

#[test]
fn columns_are_sound_for_settings_that_make_no_sense() {
    assert_eq!(bounds(&Chunk::columns(5, 10, 0, 0)), vec![(0, 10, 0, 5)]);
    assert_eq!(bounds(&Chunk::columns(5, 10, 1, 7)), vec![(0, 10, 0, 5)]);
    assert_eq!(bounds(&Chunk::columns(5, 3, 8, 0)), vec![(0, 1, 0, 5), (1, 2, 0, 5), (2, 3, 0, 5)]);
    assert_eq!(bounds(&Chunk::columns(5, 0, 4, 0)), vec![]);
    assert_eq!(bounds(&Chunk::columns(5, 10, 2, 99)), vec![(0, 1, 0, 5), (1, 10, 0, 5)]);
    assert_eq!(bounds(&Chunk::columns(0, 4, 1, 0)), vec![(0, 4, 0, 0)]);
    assert_eq!(bounds(&Chunk::columns(1, usize::MAX, 2, 0)), vec![
        (0, usize::MAX / 2, 0, 1),
        (usize::MAX / 2, usize::MAX, 0, 1),
    ]);
}

#[test]
fn the_bands_of_a_tick_cover_the_grid_side_by_side() {
    let settings = [
        (600usize, 20usize, 30i32),
        (10, 3, 3),
        (9, 3, 3),
        (10, 3, 0),
        (10, 0, -4),
        (7, 9, 50),
        (1, 1, 1),
        (601, 20, 30),
        (5, 5, 9),
    ];
    for (width, count, offset) in settings {
        for _ in 0..40 {
            let chunks = Chunk::columnar_chunks(50, width, count, offset);
            let size = Chunk::band_width(width, count);
            assert!(chunks.len() <= count.max(1));
            assert!(!chunks.is_empty());
            assert_eq!(chunks.len(), count.max(1).min(width));
            assert_eq!(chunks[0].xmin, 0);
            assert_eq!(chunks.last().unwrap().xmax, width);
            for (i, chunk) in chunks.iter().enumerate() {
                assert_eq!((chunk.ymin, chunk.ymax), (0, 50));
                assert!(chunk.xmin < chunk.xmax && chunk.xmax <= width);
                if i + 1 < chunks.len() {
                    assert_eq!(chunk.xmax, chunks[i + 1].xmin);
                    if i > 0 {
                        assert_eq!(chunk.xmax - chunk.xmin, size);
                    } else {
                        let inset = size - (chunk.xmax - chunk.xmin);
                        assert!(inset < size);
                        assert!(inset == 0 || (inset as i64) < offset as i64);
                    }
                } else if i > 0 {
                    assert!(chunk.xmax - chunk.xmin >= size);
                }
            }
        }
    }
    assert!(Chunk::columnar_chunks(5, 0, 3, 2).is_empty());
}

#[test]
fn the_seams_between_the_bands_move() {
    let seams: Vec<usize> = (0..200).map(|_| Chunk::columnar_chunks(5, 600, 20, 30)[0].xmax).collect();
    assert!(seams.iter().all(|&seam| seam >= 1 && seam <= 30));
    assert!(seams.iter().any(|&seam| seam != seams[0]));
}

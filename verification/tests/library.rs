use fractal_glyph::border::compute_border;
use fractal_glyph::builder::{FractalImageBuilder, Position};
use fractal_glyph::colors::{generate_palette, generate_relative_palette, highlight_palette, Color};
use fractal_glyph::curve::bits_required;
use fractal_glyph::gosper::{curve_order, gosper_child, gosper_path, is_in};
use fractal_glyph::quality::PixelNeighboorhoodQuality;
use fractal_glyph::raster::{can_paint, image_to_relative, paint, Image};
use fractal_glyph::sample::{
    class_count, correct_predictions, generate_random_data, label_to_relative_divergence,
    samples_in_order, Sample, SampleRecord,
};
use fractal_glyph::sort::stable_sort_by_key;

fn record(id: usize, groundtruth: usize, prediction: usize, order: usize) -> SampleRecord {
    SampleRecord { id, groundtruth, prediction, order }
}

fn accuracy(records: &[SampleRecord]) -> f64 {
    correct_predictions(records) as f64 / records.len() as f64 * 100.
}

#[test]
fn test_accuracy_perfect() {
    let db = [record(0, 1, 1, 0), record(1, 10, 10, 2), record(2, 2, 2, 3)];
    assert_eq!(correct_predictions(&db), 3);
    assert_eq!(100.0, accuracy(&db));
}

#[test]
fn test_accuracy_bad() {
    let db = [record(0, 1, 10, 0), record(1, 10, 1, 2), record(2, 2, 1, 3)];
    assert_eq!(correct_predictions(&db), 0);
    assert_eq!(0.0, accuracy(&db));
}

#[test]
fn test_accuracy() {
    let db = [record(0, 1, 10, 0), record(1, 1, 1, 2), record(2, 2, 1, 3)];
    assert_eq!(correct_predictions(&db), 1);
    assert_eq!(1.0 / 3.0 * 100.0, accuracy(&db));
}

#[test]
fn sample_from_record_takes_groundtruth_and_order() {
    let r = record(7, 4, 2, 11);
    let s = Sample::from(&r);
    assert_eq!(s, Sample { label: 4, order: 11 });
}

#[test]
fn samples_are_sorted_by_order_stably() {
    let db = [
        record(0, 1, 1, 5),
        record(1, 2, 2, 3),
        record(2, 3, 3, 5),
        record(3, 4, 4, 0),
        record(4, 5, 5, 3),
    ];
    let samples = samples_in_order(&db);
    let idx: Vec<usize> = samples.iter().map(|s| s.0).collect();
    assert_eq!(idx, vec![3, 1, 4, 0, 2]);
    assert_eq!(samples[0].1, Sample { label: 4, order: 0 });
    assert_eq!(samples[4].1, Sample { label: 3, order: 5 });
}

#[test]
fn stable_sort_keeps_equal_keys_in_place() {
    let items = vec![(2usize, 'a'), (1, 'b'), (2, 'c'), (0, 'd'), (1, 'e')];
    let sorted = stable_sort_by_key(&items);
    assert_eq!(sorted, vec![(0, 'd'), (1, 'b'), (1, 'e'), (2, 'a'), (2, 'c')]);
    assert!(stable_sort_by_key::<u8>(&vec![]).is_empty());
}

#[test]
fn random_data_splits_classes_evenly() {
    let data = generate_random_data(9, 3);
    let labels: Vec<usize> = data.iter().map(|s| s.label).collect();
    let orders: Vec<usize> = data.iter().map(|s| s.order).collect();
    assert_eq!(labels, vec![0, 0, 0, 1, 1, 1, 2, 2, 2]);
    assert_eq!(orders, (0..9).collect::<Vec<_>>());
    let data = generate_random_data(10, 2);
    let labels: Vec<usize> = data.iter().map(|s| s.label).collect();
    assert_eq!(labels, vec![0, 0, 0, 0, 0, 1, 1, 1, 1, 1]);
    assert!(generate_random_data(0, 0).is_empty());
}

#[test]
fn divergence_counts_differing_neighbours() {
    let data = vec![
        (0, Sample { label: 1, order: 0 }),
        (1, Sample { label: 1, order: 1 }),
        (2, Sample { label: 2, order: 2 }),
        (3, Sample { label: 3, order: 3 }),
        (4, Sample { label: 3, order: 4 }),
    ];
    let d = label_to_relative_divergence(&data);
    let labels: Vec<usize> = d.iter().map(|s| s.1.label).collect();
    assert_eq!(labels, vec![0, 1, 2, 1, 0]);
    assert_eq!(d[3].0, 3);
    assert_eq!(d[3].1.order, 3);
    assert!(label_to_relative_divergence(&[]).is_empty());
}

#[test]
fn class_count_counts_distinct_labels() {
    let data = vec![
        (0, Sample { label: 4, order: 0 }),
        (1, Sample { label: 1, order: 1 }),
        (2, Sample { label: 4, order: 2 }),
        (3, Sample { label: 9, order: 3 }),
    ];
    assert_eq!(class_count(&data), 3);
    assert_eq!(class_count(&vec![]), 0);
}

#[test]
fn palette_takes_the_first_class_colors() {
    let p = generate_palette(3);
    assert_eq!(p, vec![Color::new(166, 206, 227), Color::new(31, 120, 180), Color::new(178, 223, 138)]);
    assert_eq!(generate_palette(12)[11], Color::new(177, 89, 40));
    assert!(generate_palette(0).is_empty());
}

#[test]
fn relative_palette_spreads_grays() {
    let p = generate_relative_palette(4);
    assert_eq!(p, vec![Color::gray(0), Color::gray(64), Color::gray(128), Color::gray(192)]);
    let p = generate_relative_palette(3);
    assert_eq!(p, vec![Color::gray(0), Color::gray(85), Color::gray(170)]);
}

#[test]
fn highlight_keeps_one_class() {
    let p = generate_palette(3);
    let h = highlight_palette(&p, 1);
    assert_eq!(h, vec![Color::black(), p[1], Color::black()]);
}

#[test]
fn paint_draws_placements_on_background() {
    let bg = Color::new(1, 2, 3);
    let red = Color::new(255, 0, 0);
    let green = Color::new(0, 255, 0);
    assert!(can_paint(3, 2, bg, &vec![(0, 0, red), (2, 1, green)]));
    let img = paint(3, 2, bg, &vec![(0, 0, red), (2, 1, green)]);
    assert_eq!(img.width(), 3);
    assert_eq!(img.height(), 2);
    assert_eq!(img.pixels(), &vec![red, bg, bg, bg, bg, green]);
    assert_eq!(img.get_pixel(2, 1), green);
}

#[test]
fn paint_refuses_overlaps_and_outside_points() {
    let bg = Color::black();
    let red = Color::new(255, 0, 0);
    assert!(!can_paint(2, 2, bg, &vec![(1, 1, red), (1, 1, red)]));
    assert!(!can_paint(2, 2, bg, &vec![(2, 0, red)]));
    // a placement of the background color can be painted over
    assert!(can_paint(2, 2, bg, &vec![(1, 1, bg), (1, 1, red)]));
    assert_eq!(paint(2, 2, bg, &vec![(1, 1, bg), (1, 1, red)]).get_pixel(1, 1), red);
}

#[test]
fn image_from_pixels_checks_size() {
    let c = Color::new(9, 9, 9);
    assert!(Image::from_pixels(2, 2, vec![c; 3]).is_none());
    let img = Image::from_pixels(2, 2, vec![c; 4]).unwrap();
    assert_eq!(img.get_pixel(1, 1), c);
    assert_eq!(Image::new(3, 1, c).pixels(), &vec![c; 3]);
}

#[test]
fn relative_image_grays_by_similar_neighbours() {
    let a = Color::new(10, 20, 30);
    let b = Color::new(40, 50, 60);
    let img = Image::from_pixels(2, 2, vec![a, b, b, a]).unwrap();
    let rel = image_to_relative(&img);
    assert_eq!(rel.pixels(), &vec![Color::gray(128), Color::gray(128), Color::gray(128), Color::gray(128)]);
}

#[test]
fn relative_image_counts_equal_neighbours() {
    let red = Color::new(255, 0, 0);
    let blue = Color::new(0, 0, 255);
    let img = Image::from_pixels(2, 2, vec![red, blue, blue, blue]).unwrap();
    let rel = image_to_relative(&img);
    assert_eq!(rel.pixels(), &vec![Color::gray(128), Color::gray(192), Color::gray(192), Color::gray(255)]);
    // a wide image, and a single row
    let wide = Image::from_pixels(3, 1, vec![red, red, blue]).unwrap();
    assert_eq!(image_to_relative(&wide).pixels(), &vec![Color::gray(255), Color::gray(192), Color::gray(192)]);
}

fn red_square_with_black_corner() -> Image {
    let red = Color::new(200, 0, 0);
    let mut pixels = vec![red; 25];
    pixels[0] = Color::black();
    Image::from_pixels(5, 5, pixels).unwrap()
}

#[test]
fn quality_browses_the_window() {
    let img = red_square_with_black_corner();
    let q5 = PixelNeighboorhoodQuality { kernel_size: 5 };
    let around = q5.coords_for(&img, 2, 2);
    assert_eq!(around.len(), 23);
    assert!(!around.contains(&(2, 2)));
    assert!(!around.contains(&(0, 0)));
    assert_eq!(around[0], (1, 0));
    assert_eq!(q5.nb_similar_colors(&img, 2, 2), 23);
    assert_eq!(q5.local_quality(&img), 0);
    assert_eq!(q5.max_quality(&img), 8);
    let q3 = PixelNeighboorhoodQuality { kernel_size: 3 };
    assert_eq!(
        q3.coords_for(&img, 2, 2),
        vec![(1, 1), (2, 1), (3, 1), (1, 2), (3, 2), (1, 3), (2, 3), (3, 3)]
    );
    assert_eq!(q3.local_quality(&img), 8);
    assert_eq!(q3.max_quality(&img), 11);
    let q2 = PixelNeighboorhoodQuality { kernel_size: 2 };
    assert!(q2.coords_for(&img, 2, 2).is_empty());
    assert_eq!(q2.max_quality(&img), 0);
    assert!(!PixelNeighboorhoodQuality::coord_valid_for(&img, 0, 0));
    assert!(PixelNeighboorhoodQuality::coord_valid_for(&img, 4, 4));
    assert!(!PixelNeighboorhoodQuality::coord_valid_for(&img, 5, 0));
    assert!(!PixelNeighboorhoodQuality::coord_valid_for(&img, -1, 0));
}

#[test]
fn quality_window_of_three_around_the_centre() {
    let white = Color::new(255, 255, 255);
    let img = Image::from_pixels(3, 3, vec![white; 9]).unwrap();
    let q3 = PixelNeighboorhoodQuality { kernel_size: 3 };
    assert_eq!(
        q3.coords_for(&img, 1, 1),
        vec![(0, 0), (1, 0), (2, 0), (0, 1), (2, 1), (0, 2), (1, 2), (2, 2)]
    );
    assert_eq!(q3.nb_similar_colors(&img, 1, 1), 8);
}

fn four_samples() -> Vec<(usize, Sample)> {
    (0..4).map(|i| (i, Sample { label: i % 2, order: i })).collect()
}

#[test]
fn builder_refuses_too_small_images() {
    let err = FractalImageBuilder::new(four_samples(), 1, 3).err().unwrap();
    assert_eq!(err, "The image cannot embed the samples");
    let b = FractalImageBuilder::new(four_samples(), 2, 2).ok().unwrap();
    assert_eq!(b.nb_samples(), 4);
    assert_eq!(b.width(), 2);
    let b = FractalImageBuilder::new_with_background(four_samples(), 4, 1, Color::new(1, 1, 1)).ok().unwrap();
    assert_eq!(b.height(), 1);
}

#[test]
fn bits_required_is_bit_length() {
    assert_eq!(bits_required(0), 0);
    assert_eq!(bits_required(1), 1);
    assert_eq!(bits_required(3), 2);
    assert_eq!(bits_required(4), 3);
    assert_eq!(bits_required(16), 5);
    assert_eq!(bits_required(u32::MAX), 32);
}

#[test]
fn coordinates_follow_the_hilbert_curve() {
    let b = FractalImageBuilder::new(four_samples(), 2, 2).ok().unwrap();
    assert_eq!(b.produce_coordinates(), vec![(0, 0, 0), (1, 1, 0), (2, 1, 1), (3, 0, 1)]);
    let c0 = Color::new(1, 0, 0);
    let c1 = Color::new(0, 1, 0);
    let img = b.produce_image(&[c0, c1]);
    assert_eq!(img.pixels(), &vec![c0, c1, c1, c0]);
    assert_eq!(b.try_produce_image(&[c0, c1]).unwrap().pixels(), &vec![c0, c1, c1, c0]);
    // in a 3 x 1 image the four-point curve leaves the image
    let narrow = FractalImageBuilder::new((0..3).map(|i| (i, Sample { label: 0, order: i })).collect(), 3, 1).ok().unwrap();
    assert!(narrow.try_produce_image(&[c0]).is_none());
}

#[test]
fn positions_come_back_in_index_order() {
    let samples: Vec<(usize, Sample)> = vec![
        (3, Sample { label: 0, order: 0 }),
        (1, Sample { label: 0, order: 1 }),
        (0, Sample { label: 0, order: 2 }),
        (2, Sample { label: 0, order: 3 }),
    ];
    let b = FractalImageBuilder::new(samples, 2, 2).ok().unwrap();
    let p = b.positions_by_index();
    assert_eq!(
        p,
        vec![(0, Position::new(1, 1)), (1, Position::new(1, 0)), (2, Position::new(0, 1)), (3, Position::new(0, 0))]
    );
}

#[test]
fn fake_coordinates_are_centred_on_the_curve() {
    let c = FractalImageBuilder::fake_coordinates(3, 3, 5);
    assert_eq!(c, vec![(1, 1), (1, 0), (2, 0), (3, 0), (3, 1)]);
}

#[test]
fn is_in_ignores_the_order_of_bounds() {
    assert!(is_in(3, 0, 7));
    assert!(is_in(3, 7, 0));
    assert!(!is_in(7, 0, 7));
    assert!(is_in(0, 7, 0));
    assert!(!is_in(7, 7, 0));
}

#[test]
fn gosper_descends_into_children() {
    assert_eq!(gosper_child(0, 49, 10), (1, 14, 7, true));
    assert_eq!(gosper_child(14, 7, 10), (3, 11, 10, false));
    assert_eq!(gosper_child(0, 49, 48), (6, 49, 42, true));
    assert_eq!(gosper_path(1, 3), (vec![3], true));
    assert_eq!(gosper_path(2, 10), (vec![1, 3], false));
    assert_eq!(gosper_path(2, 48).0.len(), 2);
    assert_eq!(gosper_path(0, 1000), (vec![], true));
}

#[test]
fn curve_order_is_smallest_seventh_root() {
    assert_eq!(curve_order(0), 1);
    assert_eq!(curve_order(1), 1);
    assert_eq!(curve_order(10), 2);
    assert_eq!(curve_order(128), 2);
    assert_eq!(curve_order(129), 3);
}

#[test]
fn border_surrounds_the_points() {
    let b = compute_border(&[(1, 1), (3, 2)]);
    assert_eq!(
        b,
        vec![
            (0, 0), (0, 3), (1, 0), (1, 3), (2, 0), (2, 3), (3, 0), (3, 3),
            (0, 0), (4, 0), (0, 1), (4, 1), (0, 2), (4, 2),
        ]
    );
    let single = compute_border(&[(0, 0)]);
    assert_eq!(single, vec![(-1, -1), (-1, 1), (0, -1), (0, 1), (-1, -1), (1, -1), (-1, 0), (1, 0)]);
}

#[test]
fn position_keeps_its_coordinates() {
    let p = Position::new(4u32, 7u32);
    assert_eq!((p.x, p.y), (4, 7));
}

#[test]
fn positions_follow_the_records_after_ordering() {
    let db = [record(0, 1, 1, 2), record(1, 2, 2, 0), record(2, 1, 1, 3), record(3, 2, 2, 1)];
    let samples = samples_in_order(&db);
    let b = FractalImageBuilder::new(samples, 2, 2).ok().unwrap();
    let p = b.positions_by_index();
    let keys: Vec<usize> = p.iter().map(|e| e.0).collect();
    assert_eq!(keys, vec![0, 1, 2, 3]);
    // record 1 has order 0, the first point of the curve
    assert_eq!(p[1].1, Position::new(0, 0));
    assert_eq!(p[2].1, Position::new(0, 1));
}

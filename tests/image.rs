use ray_tracer::image::{
    emission_index, pixel_at, pixel_seed, render_tasks, ImageSize, PixelCoord, ScanOrder,
};

fn px(row: u32, col: u32) -> PixelCoord {
    PixelCoord { row, col }
}

#[test]
fn pixel_count_is_width_times_height() {
    assert_eq!(ImageSize { width: 4, height: 3 }.pixel_count(), 12);
    assert_eq!(ImageSize { width: 0, height: 3 }.pixel_count(), 0);
}

#[test]
fn top_down_emits_top_scanline_first() {
    let size = ImageSize { width: 4, height: 3 };
    assert_eq!(emission_index(size, ScanOrder::TopDown, px(2, 0)), 0);
    assert_eq!(emission_index(size, ScanOrder::TopDown, px(2, 3)), 3);
    assert_eq!(emission_index(size, ScanOrder::TopDown, px(1, 1)), 5);
    assert_eq!(emission_index(size, ScanOrder::TopDown, px(0, 3)), 11);
}

#[test]
fn bottom_up_emits_bottom_scanline_first() {
    let size = ImageSize { width: 4, height: 3 };
    assert_eq!(emission_index(size, ScanOrder::BottomUp, px(0, 0)), 0);
    assert_eq!(emission_index(size, ScanOrder::BottomUp, px(1, 1)), 5);
    assert_eq!(emission_index(size, ScanOrder::BottomUp, px(2, 3)), 11);
}

#[test]
fn pixel_at_inverts_emission_index() {
    let size = ImageSize { width: 5, height: 4 };
    for order in [ScanOrder::TopDown, ScanOrder::BottomUp] {
        for k in 0..20usize {
            let c = pixel_at(size, order, k);
            assert!(c.row < 4 && c.col < 5);
            assert_eq!(emission_index(size, order, c), k);
        }
    }
    assert_eq!(pixel_at(size, ScanOrder::TopDown, 7), px(2, 2));
    assert_eq!(pixel_at(size, ScanOrder::BottomUp, 7), px(1, 2));
}

#[test]
fn render_tasks_cover_each_pixel_once_in_emission_order() {
    let size = ImageSize { width: 3, height: 2 };
    let tasks = render_tasks(size, ScanOrder::TopDown);
    assert_eq!(
        tasks,
        vec![px(1, 0), px(1, 1), px(1, 2), px(0, 0), px(0, 1), px(0, 2)]
    );
    let tasks = render_tasks(size, ScanOrder::BottomUp);
    assert_eq!(
        tasks,
        vec![px(0, 0), px(0, 1), px(0, 2), px(1, 0), px(1, 1), px(1, 2)]
    );
    assert!(render_tasks(ImageSize { width: 0, height: 7 }, ScanOrder::TopDown).is_empty());
}

#[test]
fn pixel_seed_adds_the_bottom_up_position() {
    let size = ImageSize { width: 4, height: 3 };
    assert_eq!(pixel_seed(100, size, px(0, 0)), 100);
    assert_eq!(pixel_seed(100, size, px(1, 2)), 106);
    assert_eq!(pixel_seed(100, size, px(2, 3)), 111);
}

#[test]
fn pixel_seed_wraps_modulo_two_to_the_64() {
    let size = ImageSize { width: 4, height: 3 };
    assert_eq!(pixel_seed(u64::MAX, size, px(0, 0)), u64::MAX);
    assert_eq!(pixel_seed(u64::MAX, size, px(0, 1)), 0);
    assert_eq!(pixel_seed(u64::MAX - 1, size, px(1, 0)), 2);
}

#[test]
fn pixel_seeds_of_one_image_are_distinct() {
    let size = ImageSize { width: 6, height: 5 };
    let mut seeds: Vec<u64> = render_tasks(size, ScanOrder::TopDown)
        .iter()
        .map(|&c| pixel_seed(u64::MAX - 10, size, c))
        .collect();
    seeds.sort();
    seeds.dedup();
    assert_eq!(seeds.len(), 30);
}

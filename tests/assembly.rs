use ray_tracer::assembly::{assemble, AssemblyError, TaggedPixel};
use ray_tracer::image::{render_tasks, ImageSize, PixelCoord, Rgb, ScanOrder};

fn px(row: u32, col: u32) -> PixelCoord {
    PixelCoord { row, col }
}

fn shade(c: PixelCoord) -> Rgb {
    Rgb { r: c.row as u8, g: c.col as u8, b: (10 * c.row + c.col) as u8 }
}

fn tagged(c: PixelCoord) -> TaggedPixel {
    TaggedPixel { coord: c, color: shade(c) }
}

#[test]
fn results_in_any_order_come_out_top_down() {
    let size = ImageSize { width: 3, height: 2 };
    let results = vec![
        tagged(px(0, 2)),
        tagged(px(1, 0)),
        tagged(px(0, 0)),
        tagged(px(1, 2)),
        tagged(px(0, 1)),
        tagged(px(1, 1)),
    ];
    let img = assemble(size, ScanOrder::TopDown, &results).unwrap();
    let expected: Vec<Rgb> = vec![px(1, 0), px(1, 1), px(1, 2), px(0, 0), px(0, 1), px(0, 2)]
        .into_iter()
        .map(shade)
        .collect();
    assert_eq!(img, expected);
}

#[test]
fn results_come_out_bottom_up_when_asked() {
    let size = ImageSize { width: 2, height: 2 };
    let results = vec![tagged(px(1, 1)), tagged(px(0, 1)), tagged(px(1, 0)), tagged(px(0, 0))];
    let img = assemble(size, ScanOrder::BottomUp, &results).unwrap();
    let expected: Vec<Rgb> =
        vec![px(0, 0), px(0, 1), px(1, 0), px(1, 1)].into_iter().map(shade).collect();
    assert_eq!(img, expected);
}

#[test]
fn completion_order_does_not_change_the_image() {
    let size = ImageSize { width: 5, height: 4 };
    let forward: Vec<TaggedPixel> =
        render_tasks(size, ScanOrder::BottomUp).into_iter().map(tagged).collect();
    let mut backward = forward.clone();
    backward.reverse();
    let mut interleaved: Vec<TaggedPixel> = Vec::new();
    for i in 0..10 {
        interleaved.push(forward[i]);
        interleaved.push(forward[19 - i]);
    }
    let a = assemble(size, ScanOrder::TopDown, &forward).unwrap();
    let b = assemble(size, ScanOrder::TopDown, &backward).unwrap();
    let c = assemble(size, ScanOrder::TopDown, &interleaved).unwrap();
    assert_eq!(a, b);
    assert_eq!(a, c);
}

#[test]
fn empty_image_from_no_results() {
    let size = ImageSize { width: 0, height: 0 };
    assert_eq!(assemble(size, ScanOrder::TopDown, &vec![]), Ok(vec![]));
}

#[test]
fn result_outside_the_image_is_refused() {
    let size = ImageSize { width: 2, height: 1 };
    let results = vec![tagged(px(0, 0)), tagged(px(0, 2)), tagged(px(0, 0))];
    assert_eq!(
        assemble(size, ScanOrder::TopDown, &results),
        Err(AssemblyError::OutOfImage(px(0, 2)))
    );
    let results = vec![tagged(px(1, 0))];
    assert_eq!(
        assemble(size, ScanOrder::TopDown, &results),
        Err(AssemblyError::OutOfImage(px(1, 0)))
    );
}

#[test]
fn second_result_for_a_pixel_is_refused() {
    let size = ImageSize { width: 2, height: 1 };
    let results = vec![tagged(px(0, 1)), tagged(px(0, 1)), tagged(px(0, 0))];
    assert_eq!(
        assemble(size, ScanOrder::TopDown, &results),
        Err(AssemblyError::Duplicate(px(0, 1)))
    );
}

#[test]
fn first_pixel_without_a_result_is_reported() {
    let size = ImageSize { width: 2, height: 2 };
    let results = vec![tagged(px(1, 0)), tagged(px(0, 0))];
    assert_eq!(
        assemble(size, ScanOrder::TopDown, &results),
        Err(AssemblyError::Missing(px(1, 1)))
    );
    assert_eq!(
        assemble(size, ScanOrder::BottomUp, &results),
        Err(AssemblyError::Missing(px(0, 1)))
    );
}

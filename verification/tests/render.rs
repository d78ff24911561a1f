use tma_engine::render::color_for_index;
use tma_engine::Renderer;

fn pixel(raw: &[u8], width: u32, x: u32, y: u32) -> (u8, u8, u8) {
    let i = ((y * width + x) * 3) as usize;
    (raw[i], raw[i + 1], raw[i + 2])
}

#[test]
fn renderer_keeps_its_size() {
    let renderer = Renderer::new(2048, 1024);
    assert_eq!(renderer.width(), 2048);
    assert_eq!(renderer.height(), 1024);
}

#[test]
fn palette_by_transform_index() {
    assert_eq!(color_for_index(0), (70, 140, 50));
    assert_eq!(color_for_index(1), (120, 200, 80));
    assert_eq!(color_for_index(2), (80, 160, 200));
    assert_eq!(color_for_index(3), (200, 100, 150));
    assert_eq!(color_for_index(4), (255, 255, 255));
    assert_eq!(color_for_index(99), (255, 255, 255));
}

#[test]
fn rasterize_paints_points_inside_the_image() {
    let renderer = Renderer::new(4, 3);
    let raw = renderer.rasterize(&[(0, 0, 0), (3, 2, 1), (1, 1, 7), (4, 0, 2), (0, 3, 2)]);
    assert_eq!(raw.len(), 4 * 3 * 3);
    assert_eq!(pixel(&raw, 4, 0, 0), (70, 140, 50));
    assert_eq!(pixel(&raw, 4, 3, 2), (120, 200, 80));
    assert_eq!(pixel(&raw, 4, 1, 1), (255, 255, 255));
    // untouched pixels keep the background
    assert_eq!(pixel(&raw, 4, 2, 0), (10, 25, 15));
    assert_eq!(pixel(&raw, 4, 3, 0), (10, 25, 15));
    assert_eq!(pixel(&raw, 4, 0, 2), (10, 25, 15));
}

#[test]
fn later_points_win() {
    let renderer = Renderer::new(2, 2);
    let raw = renderer.rasterize(&[(1, 0, 0), (1, 0, 3)]);
    assert_eq!(pixel(&raw, 2, 1, 0), (200, 100, 150));
    assert_eq!(pixel(&raw, 2, 0, 0), (10, 25, 15));
}

#[test]
fn empty_point_list_gives_the_background() {
    let renderer = Renderer::new(3, 1);
    let raw = renderer.rasterize(&[]);
    assert_eq!(raw, vec![10, 25, 15, 10, 25, 15, 10, 25, 15]);
}

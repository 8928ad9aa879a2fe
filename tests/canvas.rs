use yeti_paint::canvas::{Pixel, Rgba, Texture, Update};
use yeti_paint::geom::Point;

fn px(x: i32, y: i32, c: Rgba) -> Pixel {
    Pixel { position: Point::new(x, y), color: c }
}

const RED: Rgba = Rgba { r: 255, g: 0, b: 0, a: 255 };
const BLUE: Rgba = Rgba { r: 0, g: 0, b: 255, a: 255 };
const GREEN: Rgba = Rgba { r: 0, g: 255, b: 0, a: 255 };

#[test]
fn blank_texture_is_transparent() {
    let t = Texture::new();
    assert_eq!(t.get(Point::new(0, 0)), Rgba::transparent_black());
    assert_eq!(t.get(Point::new(-5, 1_000_000)), Rgba { r: 0, g: 0, b: 0, a: 0 });
}

#[test]
fn later_pixel_at_same_place_wins() {
    let mut t = Texture::new();
    t.update(Update::Draw(vec![px(1, 1, RED), px(2, 2, GREEN), px(1, 1, BLUE)]));
    assert_eq!(t.get(Point::new(1, 1)), BLUE);
    assert_eq!(t.get(Point::new(2, 2)), GREEN);
    assert_eq!(t.get(Point::new(3, 3)), Rgba::transparent_black());
}

#[test]
fn inverse_restores_prior_colors() {
    let mut t = Texture::new();
    t.update(Update::Draw(vec![px(0, 0, GREEN)]));
    let back = t.apply(Update::Draw(vec![px(0, 0, RED), px(-1, -1, BLUE), px(0, 0, BLUE)]));
    assert_eq!(
        back,
        Update::Draw(vec![
            px(0, 0, GREEN),
            px(-1, -1, Rgba::transparent_black()),
            px(0, 0, GREEN)
        ])
    );
    assert_eq!(t.get(Point::new(0, 0)), BLUE);
    t.update(back);
    assert_eq!(t.get(Point::new(0, 0)), GREEN);
    assert_eq!(t.get(Point::new(-1, -1)), Rgba::transparent_black());
}

#[test]
fn drawing_twice_equals_drawing_once() {
    let edit = Update::Draw(vec![px(4, 4, RED), px(5, 4, GREEN), px(4, 4, BLUE)]);
    let mut once = Texture::new();
    once.update(edit.clone());
    let mut twice = Texture::new();
    twice.update(edit.clone());
    let back = twice.apply(edit.copied());
    for (x, y) in [(4, 4), (5, 4), (6, 4)] {
        assert_eq!(once.get(Point::new(x, y)), twice.get(Point::new(x, y)));
    }
    assert_eq!(back, Update::Draw(vec![px(4, 4, BLUE), px(5, 4, GREEN), px(4, 4, BLUE)]));
}

#[test]
fn copied_update_keeps_pixels() {
    let u = Update::Draw(vec![px(1, 2, RED), px(3, 4, BLUE)]);
    assert_eq!(u.copied(), u);
}

#[test]
fn painted_places_are_listed_once_in_first_paint_order() {
    let mut t = Texture::new();
    assert!(t.to_pixels().is_empty());
    t.update(Update::Draw(vec![px(3, 3, RED), px(-2, 7, GREEN), px(3, 3, BLUE)]));
    t.update(Update::Draw(vec![px(-2, 7, RED)]));
    assert_eq!(t.to_pixels(), vec![px(3, 3, BLUE), px(-2, 7, RED)]);
}

use celui::color::Color;
use celui::primitives::PrimitiveRenderer;
use celui::types::{GraphicsBackend, TextureRegistry};

struct Counting {
    triangles: usize,
    rectangles: usize,
}

impl PrimitiveRenderer for Counting {
    fn draw_triangle(&mut self) {
        self.triangles += 1;
    }

    fn draw_rectangle(&mut self) {
        self.rectangles += 1;
    }
}

struct NoBackend;

impl GraphicsBackend for NoBackend {}

fn accepts_backend<B: GraphicsBackend>(_backend: &B) -> bool {
    true
}

#[test]
fn color_new_keeps_channels() {
    let c = Color::new(1, 2, 3, 4);
    assert_eq!((c.r, c.g, c.b, c.a), (1, 2, 3, 4));
}

#[test]
fn color_from_rgb_is_opaque() {
    let c = Color::from_rgb(10, 20, 30);
    assert_eq!((c.r, c.g, c.b, c.a), (10, 20, 30, 255));
    assert!(c == Color::new(10, 20, 30, 255));
    assert!(c != Color::new(10, 20, 30, 254));
}

#[test]
fn named_colors() {
    assert!(Color::black() == Color::new(0, 0, 0, 255));
    assert!(Color::white() == Color::new(255, 255, 255, 255));
    assert!(Color::red() == Color::new(255, 0, 0, 255));
    assert!(Color::green() == Color::new(0, 255, 0, 255));
    assert!(Color::blue() == Color::new(0, 0, 255, 255));
}

#[test]
fn texture_registry_reset() {
    let mut registry = TextureRegistry::new();
    assert_eq!(registry.index, 1);
    assert_eq!(registry.default.id.0, 0);
    registry.slots.push(77);
    registry.map.insert(77, 1);
    registry.index = 2;
    registry.reset();
    assert_eq!(registry.index, 1);
    assert!(registry.map.is_empty());
    assert_eq!(registry.slots, vec![77]);
    assert_eq!(registry.default.id.0, 0);
}

#[test]
fn primitive_renderer_can_be_implemented() {
    let mut r = Counting { triangles: 0, rectangles: 0 };
    r.draw_triangle();
    r.draw_rectangle();
    r.draw_rectangle();
    assert_eq!((r.triangles, r.rectangles), (1, 2));
    assert!(accepts_backend(&NoBackend));
}

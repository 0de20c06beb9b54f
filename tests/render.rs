use voronoi::bbox::BoundingBox;
use voronoi::image::{Image, Rgb};
use voronoi::point::Point;
use voronoi::voronoi::{
    generate_distinct_random_points, gradient_color, gradient_voronoi, random_voronoi, render_gradient,
    render_palette,
};

const RED: Rgb = Rgb { r: 255, g: 0, b: 0 };
const BLUE: Rgb = Rgb { r: 0, g: 0, b: 255 };
const GREY: Rgb = Rgb { r: 7, g: 7, b: 7 };

fn all_pixels(img: &Image) -> Vec<Rgb> {
    let mut v = Vec::new();
    for y in 0..img.height() {
        for x in 0..img.width() {
            v.push(img.get_pixel(x, y));
        }
    }
    v
}

#[test]
fn palette_with_one_seed_is_flat() {
    let mut img = Image::new(6, 4, GREY);
    random_voronoi(&mut img, 1);
    let px = all_pixels(&img);
    assert!(px.iter().all(|c| *c == px[0]));
}

#[test]
fn zero_points_leave_image_unchanged() {
    let mut img = Image::new(5, 3, GREY);
    img.put_pixel(2, 1, RED);
    let before = all_pixels(&img);
    random_voronoi(&mut img, 0);
    assert_eq!(all_pixels(&img), before);
    gradient_voronoi(&mut img, RED, BLUE, 0);
    assert_eq!(all_pixels(&img), before);
    render_palette(&mut img, Vec::new());
    assert_eq!(all_pixels(&img), before);
}

#[test]
fn palette_colors_by_nearest_seed() {
    let mut img = Image::new(10, 1, GREY);
    render_palette(&mut img, vec![(Point::new(0, 0), RED), (Point::new(9, 0), BLUE)]);
    for x in 0..5 {
        assert_eq!(img.get_pixel(x, 0), RED);
    }
    for x in 5..10 {
        assert_eq!(img.get_pixel(x, 0), BLUE);
    }
}

#[test]
fn gradient_uses_seed_column() {
    assert_eq!(gradient_color(RED, BLUE, 0, 10), RED);
    assert_eq!(gradient_color(RED, BLUE, 10, 10), BLUE);
    assert_eq!(gradient_color(RED, BLUE, 5, 10), Rgb { r: 127, g: 0, b: 127 });
    assert_eq!(gradient_color(Rgb { r: 10, g: 0, b: 0 }, Rgb { r: 0, g: 0, b: 0 }, 1, 3), Rgb { r: 6, g: 0, b: 0 });

    let mut img = Image::new(10, 2, GREY);
    render_gradient(&mut img, RED, BLUE, vec![Point::new(5, 0)]);
    let px = all_pixels(&img);
    assert!(px.iter().all(|c| *c == Rgb { r: 127, g: 0, b: 127 }));
}

#[test]
fn random_points_are_distinct_and_in_box() {
    let b = BoundingBox::from_dimensions_and_origin(&Point::new(2, 3), 3, 2);
    let pts = generate_distinct_random_points(12, &b);
    assert_eq!(pts.len(), 12);
    for i in 0..pts.len() {
        assert!(b.contains(&pts[i]));
        for j in 0..i {
            assert_ne!(pts[i], pts[j]);
        }
    }
}

#[test]
fn gradient_diagram_stays_between_endpoints() {
    let mut img = Image::new(16, 8, GREY);
    gradient_voronoi(&mut img, RED, BLUE, 5);
    for c in all_pixels(&img) {
        assert_eq!(c.g, 0);
        assert_eq!(c.r as u32 + c.b as u32 >= 254, true);
    }
}

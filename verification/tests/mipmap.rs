use sdfgen::grid::TagGrid;
use sdfgen::mipmap::Mipmap;
use sdfgen::mipmap::MipmapError;
use sdfgen::mipmap::UniPoint;

fn grid_of(side: u32, cells: Vec<u8>) -> TagGrid {
    TagGrid::from_raw(side, side, cells).unwrap()
}

fn pattern(side: u32) -> Vec<u8> {
    let mut cells = Vec::new();
    let mut state: u32 = 12345;
    let mut i = 0;
    while i < side * side {
        state = state.wrapping_mul(1103515245).wrapping_add(12345);
        cells.push(if (state >> 16) % 5 == 0 { 64 } else { 128 });
        i += 1;
    }
    cells
}

#[test]
fn grid_keeps_size_and_cells() {
    let g = TagGrid::from_raw(2, 3, vec![1, 2, 3, 4, 5, 6]).unwrap();
    assert_eq!(g.dimensions(), (2, 3));
    assert_eq!(g.get_pixel(0, 0), 1);
    assert_eq!(g.get_pixel(1, 0), 2);
    assert_eq!(g.get_pixel(0, 1), 3);
    assert_eq!(g.get_pixel(1, 1), 4);
    assert_eq!(g.get_pixel(0, 2), 5);
    assert_eq!(g.get_pixel(1, 2), 6);
}

#[test]
fn grid_refuses_short_buffer() {
    assert!(TagGrid::from_raw(2, 3, vec![1, 2, 3, 4, 5]).is_none());
    assert!(TagGrid::from_raw(2, 3, vec![1, 2, 3, 4, 5, 6, 7]).is_some());
    assert!(TagGrid::from_raw(0, 0, vec![]).is_some());
}

#[test]
fn pixel_size_doubles_per_level() {
    assert_eq!(Mipmap::get_pixel_size(0).v, 2);
    assert_eq!(Mipmap::get_pixel_size(1).v, 4);
    assert_eq!(Mipmap::get_pixel_size(3).v, 16);
    assert_eq!(Mipmap::get_pixel_size(30).v, 1u32 << 31);
}

#[test]
fn position_is_the_top_left_corner() {
    let p = Mipmap::get_position(3, 5, 2);
    assert_eq!((p.x, p.y), (24, 40));
    let q = Mipmap::get_position(0, 0, 0);
    assert_eq!((q.x, q.y), (0, 0));
    let r = Mipmap::get_position(7, 1, 0);
    assert_eq!((r.x, r.y), (14, 2));
}

#[test]
fn corners_are_the_centres_of_the_corner_pixels() {
    let c = Mipmap::get_corners(1, 1, 1);
    assert_eq!((c[0].x, c[0].y), (5, 5));
    assert_eq!((c[1].x, c[1].y), (7, 5));
    assert_eq!((c[2].x, c[2].y), (5, 7));
    assert_eq!((c[3].x, c[3].y), (7, 7));
    let d = Mipmap::get_corners(2, 0, 0);
    assert_eq!((d[0].x, d[0].y), (5, 1));
    assert_eq!((d[3].x, d[3].y), (5, 1));
}

#[test]
fn pixel_square_is_drawn_in_by_one() {
    let s = Mipmap::get_pixel_square(1, 2, 1);
    assert_eq!((s.topleft.x, s.topleft.y, s.length.v), (5, 9, 2));
    let leaf = Mipmap::get_pixel_square(3, 0, 0);
    assert_eq!((leaf.topleft.x, leaf.topleft.y, leaf.length.v), (7, 1, 0));
    let top = Mipmap::get_pixel_square(0, 0, 3);
    assert_eq!((top.topleft.x, top.topleft.y, top.length.v), (1, 1, 14));
}

#[test]
fn center_of_a_cell() {
    let p = Mipmap::get_center(2, 3, 0);
    assert_eq!((p.x, p.y), (5, 7));
    let q = Mipmap::get_center(1, 1, 2);
    assert_eq!((q.x, q.y), (12, 12));
    let r = Mipmap::get_center(0, 0, 0);
    assert_eq!((r.x, r.y), (1, 1));
}

#[test]
fn children_of_a_cell() {
    assert_eq!(Mipmap::get_children(3, 4), [(6, 8), (7, 8), (6, 9), (7, 9)]);
    assert_eq!(Mipmap::get_children(0, 0), [(0, 0), (1, 0), (0, 1), (1, 1)]);
}

#[test]
fn new_refuses_bad_sizes() {
    let wide = TagGrid::from_raw(2, 4, vec![64; 8]).unwrap();
    assert_eq!(Mipmap::new(wide).err(), Some(MipmapError::NotSquare));
    let odd = TagGrid::from_raw(3, 3, vec![64; 9]).unwrap();
    assert_eq!(Mipmap::new(odd).err(), Some(MipmapError::NotPowerOfTwo));
    let six = TagGrid::from_raw(6, 6, vec![64; 36]).unwrap();
    assert_eq!(Mipmap::new(six).err(), Some(MipmapError::NotPowerOfTwo));
    let empty = TagGrid::from_raw(0, 0, vec![]).unwrap();
    assert_eq!(Mipmap::new(empty).err(), Some(MipmapError::NotPowerOfTwo));
    let flat = TagGrid::from_raw(0, 4, vec![]).unwrap();
    assert_eq!(Mipmap::new(flat).err(), Some(MipmapError::NotSquare));
}

#[test]
fn new_builds_all_levels() {
    let mm = Mipmap::new(grid_of(8, pattern(8))).ok().unwrap();
    assert_eq!(mm.images.len(), 4);
    assert_eq!(mm.get_max_level(), 3);
    assert_eq!(mm.images[0].dimensions(), (8, 8));
    assert_eq!(mm.images[1].dimensions(), (4, 4));
    assert_eq!(mm.images[2].dimensions(), (2, 2));
    assert_eq!(mm.images[3].dimensions(), (1, 1));
    let one = Mipmap::new(grid_of(1, vec![128])).ok().unwrap();
    assert_eq!(one.images.len(), 1);
    assert_eq!(one.get_max_level(), 0);
    assert_eq!(one.images[0].get_pixel(0, 0), 128);
}

#[test]
fn new_keeps_the_base() {
    let cells = pattern(8);
    let mm = Mipmap::new(grid_of(8, cells.clone())).ok().unwrap();
    let mut y = 0;
    while y < 8 {
        let mut x = 0;
        while x < 8 {
            assert_eq!(mm.images[0].get_pixel(x, y), cells[(y * 8 + x) as usize]);
            x += 1;
        }
        y += 1;
    }
}

#[test]
fn every_cell_merges_its_four_children() {
    let mut side = 1;
    while side <= 16 {
        let mm = Mipmap::new(grid_of(side, pattern(side))).ok().unwrap();
        let mut level = 1;
        while level < mm.images.len() {
            let (w, h) = mm.images[level].dimensions();
            assert_eq!(w, side >> level);
            assert_eq!(h, side >> level);
            let mut y = 0;
            while y < h {
                let mut x = 0;
                while x < w {
                    let below = &mm.images[level - 1];
                    let merged = below.get_pixel(2 * x, 2 * y) | below.get_pixel(2 * x + 1, 2 * y)
                        | below.get_pixel(2 * x, 2 * y + 1) | below.get_pixel(2 * x + 1, 2 * y + 1);
                    assert_eq!(mm.images[level].get_pixel(x, y), merged);
                    x += 1;
                }
                y += 1;
            }
            level += 1;
        }
        side *= 2;
    }
}

#[test]
fn merged_tags_of_a_small_image() {
    let cells = vec![
        64, 64, 128, 128,
        64, 64, 128, 128,
        128, 128, 128, 128,
        128, 128, 128, 64,
    ];
    let mm = Mipmap::new(grid_of(4, cells)).ok().unwrap();
    assert_eq!(mm.images[1].get_pixel(0, 0), 64);
    assert_eq!(mm.images[1].get_pixel(1, 0), 128);
    assert_eq!(mm.images[1].get_pixel(0, 1), 128);
    assert_eq!(mm.images[1].get_pixel(1, 1), 192);
    assert_eq!(mm.images[2].get_pixel(0, 0), 192);
}

#[test]
fn lower_right_corner_of_the_base() {
    let mm = Mipmap::new(grid_of(4, vec![128; 16])).ok().unwrap();
    let p = mm.lower_right_corner();
    assert_eq!((p.x, p.y), (7, 7));
    let one = Mipmap::new(grid_of(1, vec![64])).ok().unwrap();
    let q = one.lower_right_corner();
    assert_eq!((q.x, q.y), (1, 1));
}

#[test]
fn value_at_a_point() {
    let mut cells = vec![128; 16];
    cells[2 * 4 + 1] = 64;
    let mm = Mipmap::new(grid_of(4, cells)).ok().unwrap();
    assert_eq!(mm.get_value(&UniPoint { x: 3, y: 5 }), 64);
    assert_eq!(mm.get_value(&UniPoint { x: 2, y: 4 }), 64);
    assert_eq!(mm.get_value(&UniPoint { x: 4, y: 5 }), 128);
    assert_eq!(mm.get_value(&UniPoint { x: 1, y: 1 }), 128);
}

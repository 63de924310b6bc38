use sdfgen::grid::TagGrid;
use sdfgen::mipmap::Mipmap;
use sdfgen::mipmap::UniPoint;
use sdfgen::partition::chunk_bounds;
use sdfgen::sdf_algorithm::calculate_chunk;
use sdfgen::sdf_algorithm::calculate_sdf;
use sdfgen::sdf_algorithm::calculate_sdf_at;
use sdfgen::sdf_algorithm::calculate_sdf_at_rec;
use sdfgen::sdf_algorithm::create_task;
use sdfgen::sdf_algorithm::has_needed;
use sdfgen::sdf_algorithm::idx2point;
use sdfgen::sdf_algorithm::min_dst_sqr;
use sdfgen::sdf_algorithm::mmget;
use sdfgen::sdf_algorithm::quantize;
use sdfgen::sdf_algorithm::sdf_to_grayscale_image;
use sdfgen::sdf_algorithm::uniform_field;
use sdfgen::sdf_algorithm::DstT;
use sdfgen::sdf_algorithm::SdfError;
use sdfgen::sdf_algorithm::SdfValue;
use sdfgen::sdf_algorithm::SimpleDstT;
use sdfgen::sdf_task::ChildTasks;
use sdfgen::sdf_task::SdfTask;

const W: u8 = 128;
const B: u8 = 64;

fn pyramid(side: u32, cells: &Vec<u8>) -> Mipmap {
    Mipmap::new(TagGrid::from_raw(side, side, cells.clone()).unwrap()).ok().unwrap()
}

fn corner_image() -> Vec<u8> {
    vec![
        B, B, W, W,
        B, B, W, W,
        W, W, W, W,
        W, W, W, W,
    ]
}

fn noise(side: u32, seed: u32, rarity: u32) -> Vec<u8> {
    let mut cells = Vec::new();
    let mut state: u32 = seed;
    let mut i = 0;
    while i < side * side {
        state = state.wrapping_mul(1103515245).wrapping_add(12345);
        cells.push(if (state >> 16) % rarity == 0 { B } else { W });
        i += 1;
    }
    cells
}

fn chessboard(side: u32) -> Vec<u8> {
    let mut cells = Vec::new();
    let mut y = 0;
    while y < side {
        let mut x = 0;
        while x < side {
            cells.push(if (x + y) % 2 == 0 { B } else { W });
            x += 1;
        }
        y += 1;
    }
    cells
}

fn one_pixel(side: u32, at: u32, tag: u8, rest: u8) -> Vec<u8> {
    let mut cells = vec![rest; (side * side) as usize];
    cells[at as usize] = tag;
    cells
}

fn scan(side: u32, cells: &Vec<u8>, size: u32) -> Vec<SdfValue> {
    let ps = 2 * (side / size) as i64;
    let mut field = Vec::new();
    let mut y = 0;
    while y < size {
        let mut x = 0;
        while x < size {
            let px = x as i64 * ps + ps / 2;
            let py = y as i64 * ps + ps / 2;
            let own = cells[((py / 2) * side as i64 + px / 2) as usize];
            let needed = if own & W != 0 { B } else { W };
            let mut best: Option<u64> = None;
            let mut cy = 0;
            while cy < side as i64 {
                let mut cx = 0;
                while cx < side as i64 {
                    if cells[(cy * side as i64 + cx) as usize] & needed != 0 {
                        let dx = px - (2 * cx + 1);
                        let dy = py - (2 * cy + 1);
                        let d = (dx * dx + dy * dy) as u64;
                        if best.is_none() || d < best.unwrap() {
                            best = Some(d);
                        }
                    }
                    cx += 1;
                }
                cy += 1;
            }
            field.push(SdfValue::Squared { dst_sqr: best.unwrap(), negative: own & B != 0 });
            x += 1;
        }
        y += 1;
    }
    field
}

fn as_real(v: &SdfValue) -> f64 {
    match *v {
        SdfValue::Unbounded { negative } => if negative { f64::NEG_INFINITY } else { f64::INFINITY },
        SdfValue::Squared { dst_sqr, negative } => {
            let d = (dst_sqr as f64).sqrt();
            if negative { -d } else { d }
        }
    }
}

fn squared(dst_sqr: u64, negative: bool) -> SdfValue {
    SdfValue::Squared { dst_sqr, negative }
}

#[test]
fn idx2pointtest() {
    assert_eq!(idx2point(3, 5), (3, 0));
    assert_eq!(idx2point(5, 5), (0, 1));
    assert_eq!(idx2point(22, 5), (2, 4));
}

#[test]
fn idx2point_walks_rows() {
    assert_eq!(idx2point(0, 1), (0, 0));
    assert_eq!(idx2point(7, 1), (0, 7));
    assert_eq!(idx2point(15, 4), (3, 3));
    assert_eq!(idx2point(1u64 << 40, 1u64 << 20), (0, 1u64 << 20));
}

#[test]
fn squared_distance_between_points() {
    let a = UniPoint { x: 0, y: 0 };
    let b = UniPoint { x: 3, y: 4 };
    assert_eq!(SimpleDstT::new(&a, &b).get_dst_sqr(), 25);
    assert_eq!(SimpleDstT::new(&b, &a).get_dst_sqr(), 25);
    assert_eq!(SimpleDstT::new(&b, &b).get_dst_sqr(), 0);
    let far = UniPoint { x: 1u32 << 31, y: 1u32 << 31 };
    assert_eq!(SimpleDstT::new(&a, &far).get_dst_sqr(), 1u64 << 63);
}

#[test]
fn distances_are_ordered_by_size() {
    let o = UniPoint { x: 0, y: 0 };
    let near = SimpleDstT::new(&o, &UniPoint { x: 1, y: 2 });
    let far = SimpleDstT::new(&o, &UniPoint { x: 3, y: 0 });
    let also_near = SimpleDstT::new(&o, &UniPoint { x: 2, y: 1 });
    assert!(near < far);
    assert!(!(far < near));
    assert!(!(near < also_near));
    assert!(near <= also_near);
    assert!(near == also_near);
    assert!(near != far);
    assert_eq!(near.partial_cmp(&far), Some(std::cmp::Ordering::Less));
    assert_eq!(far.partial_cmp(&near), Some(std::cmp::Ordering::Greater));
    assert_eq!(near.partial_cmp(&also_near), Some(std::cmp::Ordering::Equal));
}

#[test]
fn tasks_are_ordered_by_their_bounds_reversed() {
    let o = UniPoint { x: 0, y: 0 };
    let near = SdfTask { x: 1, y: 2, level: 3, best_case_dst_sqr: SimpleDstT::new(&o, &UniPoint { x: 1, y: 0 }) };
    let far = SdfTask { x: 1, y: 2, level: 3, best_case_dst_sqr: SimpleDstT::new(&o, &UniPoint { x: 5, y: 0 }) };
    let elsewhere = SdfTask { x: 0, y: 2, level: 3, best_case_dst_sqr: SimpleDstT::new(&o, &UniPoint { x: 0, y: 1 }) };
    assert!(near > far);
    assert!(far < near);
    assert!(near == near);
    assert!(near != far);
    assert!(near != elsewhere);
    assert_eq!(near.partial_cmp(&elsewhere), Some(std::cmp::Ordering::Equal));
    assert_eq!(near.partial_cmp(&far), Some(std::cmp::Ordering::Greater));
    assert_eq!(far.partial_cmp(&near), Some(std::cmp::Ordering::Less));
}

#[test]
fn least_distance_to_a_cell() {
    let p = UniPoint { x: 1, y: 1 };
    assert_eq!(min_dst_sqr::<SimpleDstT>(&p, 1, 0, 1).get_dst_sqr(), 16);
    assert_eq!(min_dst_sqr::<SimpleDstT>(&p, 0, 0, 1).get_dst_sqr(), 0);
    assert_eq!(min_dst_sqr::<SimpleDstT>(&p, 1, 1, 1).get_dst_sqr(), 32);
    assert_eq!(min_dst_sqr::<SimpleDstT>(&p, 3, 2, 0).get_dst_sqr(), 36 + 16);
    let q = UniPoint { x: 9, y: 4 };
    assert_eq!(min_dst_sqr::<SimpleDstT>(&q, 0, 0, 1).get_dst_sqr(), 36 + 1);
    assert_eq!(min_dst_sqr::<SimpleDstT>(&q, 0, 0, 3).get_dst_sqr(), 0);
}

#[test]
fn task_carries_the_bound_of_its_cell() {
    let t: SdfTask<SimpleDstT> = create_task(0, 0, 1, 1, 1);
    assert_eq!((t.x, t.y, t.level), (1, 1, 1));
    assert_eq!(t.best_case_dst_sqr.get_dst_sqr(), 32);
    let root: SdfTask<SimpleDstT> = create_task(3, 2, 0, 0, 2);
    assert_eq!((root.x, root.y, root.level), (0, 0, 2));
    assert_eq!(root.best_case_dst_sqr.get_dst_sqr(), 0);
}

#[test]
fn tasks_are_kept_in_order() {
    let o = UniPoint { x: 0, y: 0 };
    let task = |x: u32, d: u32| SdfTask {
        x,
        y: 0,
        level: 1,
        best_case_dst_sqr: SimpleDstT::new(&o, &UniPoint { x: d, y: 0 }),
    };
    let mut tasks: ChildTasks<SimpleDstT> = ChildTasks::new(task(9, 9));
    assert_eq!(tasks.len(), 0);
    assert_eq!(tasks.insert(task(0, 3)), 0);
    assert_eq!(tasks.insert(task(1, 1)), 0);
    assert_eq!(tasks.insert(task(2, 3)), 2);
    assert_eq!(tasks.insert(task(3, 2)), 1);
    assert_eq!(tasks.len(), 4);
    let order: Vec<u32> = vec![tasks.get(0).x, tasks.get(1).x, tasks.get(2).x, tasks.get(3).x];
    assert_eq!(order, vec![1, 3, 0, 2]);
    let bounds: Vec<u64> = vec![
        tasks.get(0).best_case_dst_sqr.get_dst_sqr(),
        tasks.get(1).best_case_dst_sqr.get_dst_sqr(),
        tasks.get(2).best_case_dst_sqr.get_dst_sqr(),
        tasks.get(3).best_case_dst_sqr.get_dst_sqr(),
    ];
    assert_eq!(bounds, vec![1, 4, 9, 9]);
}

#[test]
fn tags_of_the_pyramid() {
    let mm = pyramid(4, &corner_image());
    assert_eq!(mmget(&mm, 0, 0, 0), B);
    assert_eq!(mmget(&mm, 2, 1, 0), W);
    assert_eq!(mmget(&mm, 0, 0, 1), B);
    assert_eq!(mmget(&mm, 1, 1, 1), W);
    assert_eq!(mmget(&mm, 0, 0, 2), W | B);
    assert!(has_needed(W | B, B));
    assert!(has_needed(W, W));
    assert!(!has_needed(W, B));
    assert!(!has_needed(0, W));
}

#[test]
fn distance_at_single_pixels() {
    let mm = pyramid(4, &corner_image());
    let (d, black): (SimpleDstT, bool) = calculate_sdf_at(&mm, 3, 3, 0);
    assert_eq!((d.get_dst_sqr(), black), (32, false));
    let (d, black): (SimpleDstT, bool) = calculate_sdf_at(&mm, 0, 0, 0);
    assert_eq!((d.get_dst_sqr(), black), (16, true));
    let (d, black): (SimpleDstT, bool) = calculate_sdf_at(&mm, 1, 1, 0);
    assert_eq!((d.get_dst_sqr(), black), (4, true));
    let (d, black): (SimpleDstT, bool) = calculate_sdf_at(&mm, 2, 0, 0);
    assert_eq!((d.get_dst_sqr(), black), (4, false));
    let (d, black): (SimpleDstT, bool) = calculate_sdf_at(&mm, 1, 1, 1);
    assert_eq!((d.get_dst_sqr(), black), (18, false));
    let (d, black): (SimpleDstT, bool) = calculate_sdf_at(&mm, 0, 0, 1);
    assert_eq!((d.get_dst_sqr(), black), (10, true));
}

#[test]
fn search_below_a_cell_respects_the_best_so_far() {
    let mm = pyramid(4, &corner_image());
    let p = UniPoint { x: 7, y: 7 };
    let root: SdfTask<SimpleDstT> = create_task(3, 3, 0, 0, 2);
    let found = calculate_sdf_at_rec(&mm, 3, 3, 0, None, &root, B, &p);
    assert_eq!(found.unwrap().get_dst_sqr(), 32);
    let o = UniPoint { x: 0, y: 0 };
    let better = SimpleDstT::new(&o, &UniPoint { x: 1, y: 1 });
    let kept = calculate_sdf_at_rec(&mm, 3, 3, 0, Some(better), &root, B, &p);
    assert_eq!(kept.unwrap().get_dst_sqr(), 2);
    let worse = SimpleDstT::new(&o, &UniPoint { x: 100, y: 0 });
    let improved = calculate_sdf_at_rec(&mm, 3, 3, 0, Some(worse), &root, B, &p);
    assert_eq!(improved.unwrap().get_dst_sqr(), 32);
    let black_block: SdfTask<SimpleDstT> = SdfTask { x: 0, y: 0, level: 1, best_case_dst_sqr: min_dst_sqr(&p, 0, 0, 1) };
    let below = calculate_sdf_at_rec(&mm, 3, 3, 0, None, &black_block, B, &p);
    assert_eq!(below.unwrap().get_dst_sqr(), 32);
}

#[test]
fn field_of_the_corner_image() {
    let cells = corner_image();
    let mm = pyramid(4, &cells);
    let field = calculate_sdf(&mm, 4, 4).ok().unwrap();
    let expected = vec![
        squared(16, true), squared(4, true), squared(4, false), squared(16, false),
        squared(4, true), squared(4, true), squared(4, false), squared(16, false),
        squared(4, false), squared(4, false), squared(8, false), squared(20, false),
        squared(16, false), squared(16, false), squared(20, false), squared(32, false),
    ];
    assert_eq!(field, expected);
    assert_eq!(field, scan(4, &cells, 4));
    let reals: Vec<f64> = field.iter().map(as_real).collect();
    let mut i = 0;
    while i < 16 {
        assert!(reals[i] <= reals[15]);
        if i != 15 {
            assert!(reals[i] < reals[15]);
        }
        assert!(reals[0] <= reals[i]);
        i += 1;
    }
    assert_eq!(reals[15], 32f64.sqrt());
    assert_eq!(reals[0], -4.0);
    assert_eq!(reals[1], -2.0);
    assert_eq!(reals[5], -2.0);
    assert_eq!(reals[2], 2.0);
    assert_eq!(reals[8], 2.0);
    assert_eq!(reals[10], 8f64.sqrt());
}

#[test]
fn grey_image_of_the_corner_image() {
    let mm = pyramid(4, &corner_image());
    let field = calculate_sdf(&mm, 4, 1).ok().unwrap();
    let grey = sdf_to_grayscale_image(&field, 4);
    let expected: Vec<u8> = vec![
        0, 63, 191, 254,
        63, 63, 191, 254,
        191, 191, 217, 254,
        254, 254, 254, 254,
    ];
    assert_eq!(grey, expected);
}

#[test]
fn field_of_a_white_image_is_unbounded() {
    let mm = pyramid(2, &vec![W; 4]);
    let mut size = 0;
    while size <= 9 {
        let field = calculate_sdf(&mm, size, 3).ok().unwrap();
        assert_eq!(field.len(), (size * size) as usize);
        assert!(field.iter().all(|v| *v == SdfValue::Unbounded { negative: false }));
        assert!(field.iter().all(|v| as_real(v) == f64::INFINITY));
        size += 1;
    }
}

#[test]
fn field_of_a_black_image_is_unbounded_below() {
    let mut side = 1;
    while side <= 8 {
        let mm = pyramid(side, &vec![B; (side * side) as usize]);
        let field = calculate_sdf(&mm, side, 2).ok().unwrap();
        assert_eq!(field.len(), (side * side) as usize);
        assert!(field.iter().all(|v| *v == SdfValue::Unbounded { negative: true }));
        assert!(field.iter().all(|v| as_real(v) == f64::NEG_INFINITY));
        side *= 2;
    }
}

#[test]
fn uniform_field_repeats_one_value() {
    let v = SdfValue::Unbounded { negative: true };
    assert_eq!(uniform_field(0, v), vec![]);
    assert_eq!(uniform_field(1, v), vec![v]);
    assert_eq!(uniform_field(3, squared(5, false)), vec![squared(5, false); 9]);
}

#[test]
fn search_agrees_with_a_scan_of_all_pixels() {
    let mut side = 2;
    while side <= 16 {
        let mut images = vec![
            chessboard(side),
            one_pixel(side, 0, B, W),
            one_pixel(side, side * side - 1, W, B),
            one_pixel(side, side * (side / 2) + side / 2, B, W),
            noise(side, 1, 2),
            noise(side, 2, 7),
            noise(side, 3, 50),
        ];
        let mut seed = 10;
        while seed < 20 {
            images.push(noise(side, seed, 3 + seed));
            seed += 1;
        }
        for cells in images.iter() {
            if !cells.contains(&B) || !cells.contains(&W) {
                continue;
            }
            let mm = pyramid(side, cells);
            let mut size = 1;
            while size <= side {
                let field = calculate_sdf(&mm, size, 4).ok().unwrap();
                assert_eq!(field, scan(side, cells, size));
                size *= 2;
            }
        }
        side *= 2;
    }
}

#[test]
fn number_of_workers_does_not_change_the_field() {
    let cells = noise(16, 99, 4);
    let mm = pyramid(16, &cells);
    let reference = calculate_sdf(&mm, 16, 1).ok().unwrap();
    assert_eq!(reference, scan(16, &cells, 16));
    for workers in [0usize, 1, 2, 3, 5, 16, 17, 255, 256, 257, 1000] {
        assert_eq!(calculate_sdf(&mm, 16, workers).ok().unwrap(), reference);
        assert_eq!(calculate_sdf(&mm, 16, workers).ok().unwrap(), reference);
    }
    let coarse = calculate_sdf(&mm, 4, 1).ok().unwrap();
    for workers in [2usize, 3, 16, 100] {
        assert_eq!(calculate_sdf(&mm, 4, workers).ok().unwrap(), coarse);
    }
}

#[test]
fn chunks_of_the_field_join_to_the_field() {
    let cells = noise(8, 5, 3);
    let mm = pyramid(8, &cells);
    let whole = scan(8, &cells, 8);
    for workers in [1usize, 3, 7, 64, 70] {
        let mut joined = Vec::new();
        let mut k = 0;
        while k < workers {
            let (lo, hi) = chunk_bounds(64, workers as u64, k as u64);
            let chunk = calculate_chunk(&mm, 8, 0, workers, k).ok().unwrap();
            assert_eq!(chunk.len() as u64, hi - lo);
            assert_eq!(chunk, whole[lo as usize..hi as usize].to_vec());
            joined.extend(chunk);
            k += 1;
        }
        assert_eq!(joined, whole);
    }
}

#[test]
fn field_size_must_be_a_power_of_two() {
    let mm = pyramid(4, &corner_image());
    assert_eq!(calculate_sdf(&mm, 3, 1).err(), Some(SdfError::SizeNotPowerOfTwo));
    assert_eq!(calculate_sdf(&mm, 0, 1).err(), Some(SdfError::SizeNotPowerOfTwo));
    assert_eq!(calculate_sdf(&mm, 6, 1).err(), Some(SdfError::SizeNotPowerOfTwo));
    assert_eq!(calculate_sdf(&mm, u32::MAX, 1).err(), Some(SdfError::SizeNotPowerOfTwo));
}

#[test]
fn field_size_must_not_exceed_the_image() {
    let mm = pyramid(4, &corner_image());
    assert_eq!(calculate_sdf(&mm, 8, 1).err(), Some(SdfError::SizeTooLarge));
    assert_eq!(calculate_sdf(&mm, 1u32 << 31, 1).err(), Some(SdfError::SizeTooLarge));
    assert!(calculate_sdf(&mm, 4, 1).is_ok());
    assert!(calculate_sdf(&mm, 2, 1).is_ok());
    assert!(calculate_sdf(&mm, 1, 1).is_ok());
}

#[test]
fn unclassified_pixels_are_refused() {
    let nothing = pyramid(2, &vec![0; 4]);
    assert_eq!(calculate_sdf(&nothing, 2, 1).err(), Some(SdfError::Unclassified));
    let mut cells = corner_image();
    cells[15] = 0;
    let hole = pyramid(4, &cells);
    assert_eq!(calculate_sdf(&hole, 4, 1).err(), Some(SdfError::Unclassified));
    assert_eq!(calculate_sdf(&hole, 4, 5).err(), Some(SdfError::Unclassified));
    cells[15] = W | B;
    let both = pyramid(4, &cells);
    assert_eq!(calculate_sdf(&both, 4, 3).err(), Some(SdfError::Unclassified));
    assert_eq!(calculate_chunk(&both, 4, 0, 4, 3).err(), Some(SdfError::Unclassified));
    assert!(calculate_chunk(&both, 4, 0, 4, 0).is_ok());
    assert!(calculate_sdf(&both, 1, 1).is_ok());
}

#[test]
fn chunk_bounds_share_out_evenly() {
    assert_eq!(chunk_bounds(10, 3, 0), (0, 4));
    assert_eq!(chunk_bounds(10, 3, 1), (4, 7));
    assert_eq!(chunk_bounds(10, 3, 2), (7, 10));
    assert_eq!(chunk_bounds(16, 4, 2), (8, 12));
    assert_eq!(chunk_bounds(3, 5, 0), (0, 1));
    assert_eq!(chunk_bounds(3, 5, 3), (3, 3));
    assert_eq!(chunk_bounds(3, 5, 4), (3, 3));
    assert_eq!(chunk_bounds(0, 2, 1), (0, 0));
    assert_eq!(chunk_bounds(u64::MAX, 1, 0), (0, u64::MAX));
    assert_eq!(chunk_bounds(u64::MAX, u64::MAX, u64::MAX - 1), (u64::MAX - 1, u64::MAX));
}

#[test]
fn chunks_cover_every_index_once() {
    let mut size: u64 = 1;
    while size <= 6 {
        let total = size * size;
        let mut workers: u64 = 1;
        while workers <= total {
            let mut seen = vec![0u32; total as usize];
            let mut next = 0;
            let mut k = 0;
            while k < workers {
                let (lo, hi) = chunk_bounds(total, workers, k);
                assert_eq!(lo, next);
                assert!(lo < hi);
                let mut i = lo;
                while i < hi {
                    seen[i as usize] += 1;
                    i += 1;
                }
                next = hi;
                k += 1;
            }
            assert_eq!(next, total);
            assert!(seen.iter().all(|n| *n == 1));
            workers += 1;
        }
        size += 1;
    }
}

#[test]
fn grey_value_of_a_distance() {
    assert_eq!(quantize(squared(0, false), 4), 127);
    assert_eq!(quantize(squared(0, true), 4), 127);
    assert_eq!(quantize(squared(4, false), 4), 191);
    assert_eq!(quantize(squared(4, true), 4), 63);
    assert_eq!(quantize(squared(16, false), 4), 254);
    assert_eq!(quantize(squared(16, true), 4), 0);
    assert_eq!(quantize(squared(1, false), 127), 128);
    assert_eq!(quantize(squared(100, false), 127), 137);
    assert_eq!(quantize(squared(8, false), 4), 217);
}

#[test]
fn grey_value_saturates() {
    assert_eq!(quantize(squared(17, false), 4), 254);
    assert_eq!(quantize(squared(1_000_000, false), 4), 254);
    assert_eq!(quantize(squared(u64::MAX, false), 1), 254);
    assert_eq!(quantize(squared(u64::MAX, true), u32::MAX), 0);
    assert_eq!(quantize(squared(1u64 << 63, true), 1), 0);
    assert_eq!(quantize(SdfValue::Unbounded { negative: false }, 9), 254);
    assert_eq!(quantize(SdfValue::Unbounded { negative: true }, 9), 0);
}

#[test]
fn grey_value_rounds_to_the_nearest_step() {
    assert_eq!(quantize(squared(1, false), 254), 128);
    assert_eq!(quantize(squared(1, false), 255), 127);
    assert_eq!(quantize(squared(1, true), 254), 126);
    assert_eq!(quantize(squared(1, true), 255), 127);
    assert_eq!(quantize(squared(9, false), 254), 129);
    assert_eq!(quantize(squared(9, false), 255), 128);
    assert_eq!(quantize(squared(4, false), 1000), 127);
}

#[test]
fn grey_value_keeps_the_sign() {
    let mut max_dst = 1;
    while max_dst <= 300 {
        let mut d: u64 = 0;
        while d <= 40 {
            let up = quantize(squared(d * d, false), max_dst);
            let down = quantize(squared(d * d, true), max_dst);
            assert!(up >= 127);
            assert!(down <= 127);
            assert_eq!(up - 127, 127 - down);
            let expected = ((d as f64) / (max_dst as f64) * 127.0).min(127.0).round() as u8;
            assert_eq!(up - 127, expected);
            if d == 0 {
                assert_eq!(up, 127);
                assert_eq!(down, 127);
            } else if (max_dst as u64) <= 254 * d {
                assert!(up > 127);
                assert!(down < 127);
            }
            d += 1;
        }
        max_dst += 1;
    }
}

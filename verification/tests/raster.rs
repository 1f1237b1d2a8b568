use raster_retrace::image_load::{format_from_filepath, image_threshold, pixel_is_foreground, ImageFormat};
use raster_retrace::image_skeletonize::calculate;
use raster_retrace::polys_from_raster_centerline::extract_centerline;
use raster_retrace::polys_from_raster_outline::{extract_outline, TurnPolicy};
use raster_retrace::raster::{xy, xy_is_filled_d, xy_is_filled_l, xy_is_filled_ld, xy_is_filled_lu, xy_is_filled_r, xy_is_filled_rd, xy_is_filled_ru, xy_is_filled_u};

fn bitmap(rows: &[&str]) -> (Vec<bool>, [usize; 2]) {
    // rows are given top to bottom; row 0 of the bitmap is the bottom one
    let h = rows.len();
    let w = rows[0].len();
    let mut image = vec![false; w * h];
    for (r, row) in rows.iter().enumerate() {
        let y = h - 1 - r;
        for (x, c) in row.chars().enumerate() {
            image[x + y * w] = c == '#';
        }
    }
    (image, [w, h])
}

fn filled(image: &[bool], size: &[usize; 2], x: i64, y: i64) -> bool {
    x >= 0 && y >= 0 && (x as usize) < size[0] && (y as usize) < size[1]
        && image[(x as usize) + (y as usize) * size[0]]
}

/// The unit edges of a closed polygon with axis-aligned sides.
fn unit_edges(poly: &Vec<[i32; 2]>) -> Vec<([i32; 2], [i32; 2])> {
    let mut edges = vec![];
    for i in 0..poly.len() {
        let a = poly[i];
        let b = poly[(i + 1) % poly.len()];
        assert!(a[0] == b[0] || a[1] == b[1], "side {:?} -> {:?} is not axis-aligned", a, b);
        let dx = (b[0] - a[0]).signum();
        let dy = (b[1] - a[1]).signum();
        let mut p = a;
        while p != b {
            let q = [p[0] + dx, p[1] + dy];
            edges.push((p, q));
            p = q;
        }
    }
    edges
}

/// The boundary edges of a bitmap, each with the filled pixel on its right.
fn boundary_edges(image: &[bool], size: &[usize; 2]) -> Vec<([i32; 2], [i32; 2])> {
    let mut edges = vec![];
    for y in 0..size[1] as i64 {
        for x in 0..size[0] as i64 {
            if !filled(image, size, x, y) {
                continue;
            }
            let (xi, yi) = (x as i32, y as i32);
            if !filled(image, size, x - 1, y) {
                edges.push(([xi, yi], [xi, yi + 1]));
            }
            if !filled(image, size, x + 1, y) {
                edges.push(([xi + 1, yi + 1], [xi + 1, yi]));
            }
            if !filled(image, size, x, y - 1) {
                edges.push(([xi + 1, yi], [xi, yi]));
            }
            if !filled(image, size, x, y + 1) {
                edges.push(([xi, yi + 1], [xi + 1, yi + 1]));
            }
        }
    }
    edges
}

fn assert_outline_covers_boundary(image: &[bool], size: &[usize; 2], policy: TurnPolicy, simplify: bool) {
    let polys = extract_outline(image, size, policy, simplify);
    let mut walked = vec![];
    for (is_cyclic, poly) in &polys {
        assert!(*is_cyclic);
        assert!(poly.len() >= 4);
        walked.extend(unit_edges(poly));
    }
    let mut expected = boundary_edges(image, size);
    walked.sort();
    expected.sort();
    // every boundary edge is walked, and none twice
    assert_eq!(walked, expected);
}

const SMALL: [&str; 10] = [
    "....##..#.",
    ".##..#.##.",
    ".##....##.",
    ".###...##.",
    "..#######.",
    "..########",
    "..##..####",
    "..##..####",
    "..##...###",
    "..##...##.",
];

#[test]
fn xy_is_row_major() {
    assert_eq!(xy(0, 0, 7), 0);
    assert_eq!(xy(3, 0, 7), 3);
    assert_eq!(xy(3, 2, 7), 17);
}

#[test]
fn neighbour_tests_treat_outside_as_empty() {
    let (image, size) = bitmap(&["###", "###", "###"]);
    assert!(!xy_is_filled_l(&image, &size, 0, 1));
    assert!(xy_is_filled_l(&image, &size, 1, 1));
    assert!(!xy_is_filled_r(&image, &size, 2, 1));
    assert!(xy_is_filled_r(&image, &size, 1, 1));
    assert!(!xy_is_filled_d(&image, &size, 1, 0));
    assert!(xy_is_filled_d(&image, &size, 1, 1));
    assert!(!xy_is_filled_u(&image, &size, 1, 2));
    assert!(xy_is_filled_u(&image, &size, 1, 1));
    assert!(!xy_is_filled_ld(&image, &size, 0, 1));
    assert!(!xy_is_filled_ld(&image, &size, 1, 0));
    assert!(xy_is_filled_ld(&image, &size, 1, 1));
    assert!(!xy_is_filled_lu(&image, &size, 1, 2));
    assert!(xy_is_filled_lu(&image, &size, 1, 1));
    assert!(!xy_is_filled_rd(&image, &size, 2, 1));
    assert!(xy_is_filled_rd(&image, &size, 1, 1));
    assert!(!xy_is_filled_ru(&image, &size, 2, 2));
    assert!(xy_is_filled_ru(&image, &size, 1, 1));
    let (image, size) = bitmap(&["#..", "...", "..#"]);
    assert!(xy_is_filled_lu(&image, &size, 1, 1));
    assert!(xy_is_filled_rd(&image, &size, 1, 1));
    assert!(!xy_is_filled_ld(&image, &size, 1, 1));
    assert!(!xy_is_filled_ru(&image, &size, 1, 1));
}

#[test]
fn outline_of_empty_bitmap_is_empty() {
    let image = vec![false; 25];
    assert!(extract_outline(&image, &[5, 5], TurnPolicy::Majority, true).is_empty());
    assert!(extract_outline(&image, &[5, 5], TurnPolicy::Black, false).is_empty());
    let none: Vec<bool> = vec![];
    assert!(extract_outline(&none, &[0, 0], TurnPolicy::Majority, true).is_empty());
    assert!(extract_outline(&none, &[0, 3], TurnPolicy::Majority, true).is_empty());
}

#[test]
fn outline_of_single_pixel() {
    let mut image = vec![false; 25];
    image[2 + 2 * 5] = true;
    for simplify in [false, true] {
        let polys = extract_outline(&image, &[5, 5], TurnPolicy::Majority, simplify);
        assert_eq!(polys.len(), 1);
        assert!(polys[0].0);
        assert_eq!(polys[0].1, vec![[2, 2], [2, 3], [3, 3], [3, 2]]);
    }
}

#[test]
fn outline_of_rectangle_merges_runs() {
    let (image, size) = bitmap(&["....", ".##.", ".##.", ".##.", "...."]);
    let polys = extract_outline(&image, &size, TurnPolicy::Majority, true);
    assert_eq!(polys.len(), 1);
    assert_eq!(polys[0], (true, vec![[1, 1], [1, 4], [3, 4], [3, 1]]));
    let polys = extract_outline(&image, &size, TurnPolicy::Majority, false);
    assert_eq!(polys.len(), 1);
    assert_eq!(
        polys[0],
        (true, vec![[1, 1], [1, 2], [1, 3], [1, 4], [2, 4], [3, 4], [3, 3], [3, 2], [3, 1], [2, 1]])
    );
}

#[test]
fn outline_of_full_bitmap_runs_along_the_border() {
    let image = vec![true; 6];
    let polys = extract_outline(&image, &[3, 2], TurnPolicy::White, true);
    assert_eq!(polys, vec![(true, vec![[0, 0], [0, 2], [3, 2], [3, 0]])]);
}

#[test]
fn outline_of_ring_has_outer_and_inner_polygon() {
    let (image, size) = bitmap(&["###", "#.#", "###"]);
    let polys = extract_outline(&image, &size, TurnPolicy::Majority, true);
    assert_eq!(polys.len(), 2);
    assert_eq!(polys[0], (true, vec![[0, 0], [0, 3], [3, 3], [3, 0]]));
    // the hole is walked the other way round
    assert_eq!(polys[1], (true, vec![[2, 1], [2, 2], [1, 2], [1, 1]]));
    assert_outline_covers_boundary(&image, &size, TurnPolicy::Majority, false);
}

#[test]
fn outline_turn_policy_decides_at_checker_corner() {
    // two pixels that touch by a corner
    let (image, size) = bitmap(&[".#", "#."]);
    let joined = vec![(true, vec![[0, 0], [0, 1], [1, 1], [1, 2], [2, 2], [2, 1], [1, 1], [1, 0]])];
    let apart = vec![
        (true, vec![[0, 0], [0, 1], [1, 1], [1, 0]]),
        (true, vec![[1, 1], [1, 2], [2, 2], [2, 1]]),
    ];
    assert_eq!(extract_outline(&image, &size, TurnPolicy::Black, true), apart);
    assert_eq!(extract_outline(&image, &size, TurnPolicy::White, true), joined);
    // with nothing else around, empty pixels are the majority
    assert_eq!(extract_outline(&image, &size, TurnPolicy::Majority, true), joined);
    assert_eq!(extract_outline(&image, &size, TurnPolicy::Minority, true), apart);
}

#[test]
fn outline_walks_every_boundary_edge_once() {
    let (image, size) = bitmap(&SMALL);
    for policy in [TurnPolicy::Black, TurnPolicy::White, TurnPolicy::Majority, TurnPolicy::Minority] {
        assert_outline_covers_boundary(&image, &size, policy, false);
        assert_outline_covers_boundary(&image, &size, policy, true);
    }
    let (image, size) = bitmap(&["#.#.#", ".#.#.", "#.#.#", ".#.#.", "#.#.#"]);
    for policy in [TurnPolicy::Black, TurnPolicy::White, TurnPolicy::Majority, TurnPolicy::Minority] {
        assert_outline_covers_boundary(&image, &size, policy, false);
        assert_outline_covers_boundary(&image, &size, policy, true);
    }
}

#[test]
fn outline_of_l_shape_has_six_corners() {
    let (image, size) = bitmap(&[
        "........",
        ".###....",
        ".###....",
        ".###....",
        ".######.",
        ".######.",
        "........",
    ]);
    let polys = extract_outline(&image, &size, TurnPolicy::Majority, true);
    assert_eq!(polys, vec![(true, vec![[1, 1], [1, 6], [4, 6], [4, 3], [7, 3], [7, 1]])]);
    assert_outline_covers_boundary(&image, &size, TurnPolicy::Majority, false);
}

#[test]
fn outline_of_disc_is_one_polygon() {
    let r: i64 = 20;
    let side = (2 * r + 3) as usize;
    let mut image = vec![false; side * side];
    for y in 0..side as i64 {
        for x in 0..side as i64 {
            let (dx, dy) = (x - r - 1, y - r - 1);
            image[(x as usize) + (y as usize) * side] = dx * dx + dy * dy <= r * r;
        }
    }
    let size = [side, side];
    let polys = extract_outline(&image, &size, TurnPolicy::Majority, true);
    assert_eq!(polys.len(), 1);
    assert!(polys[0].0);
    // no three vertices in a row lie on one axis-aligned line
    let poly = &polys[0].1;
    for i in 1..poly.len() - 1 {
        let (a, b, c) = (poly[i - 1], poly[i], poly[i + 1]);
        assert!(!(a[0] == b[0] && b[0] == c[0]) && !(a[1] == b[1] && b[1] == c[1]));
    }
    assert_outline_covers_boundary(&image, &size, TurnPolicy::Majority, true);
    assert_outline_covers_boundary(&image, &size, TurnPolicy::Black, false);
}

#[test]
fn outline_of_mixed_bitmap() {
    let (image, size) = bitmap(&SMALL);
    let polys = extract_outline(&image, &size, TurnPolicy::Majority, true);
    assert!(!polys.is_empty());
    for (is_cyclic, poly) in &polys {
        assert!(*is_cyclic);
        for v in poly {
            assert!(0 <= v[0] && v[0] <= 10 && 0 <= v[1] && v[1] <= 10);
        }
    }
    // the same input gives the same output
    assert_eq!(polys, extract_outline(&image, &size, TurnPolicy::Majority, true));
}

#[test]
fn centerline_of_empty_bitmap_is_empty() {
    let image = vec![false; 12];
    assert!(extract_centerline(&image, &[4, 3], true).is_empty());
    let none: Vec<bool> = vec![];
    assert!(extract_centerline(&none, &[0, 0], true).is_empty());
}

#[test]
fn centerline_of_single_pixel_is_empty() {
    // a pixel without neighbours has no link to walk
    let (image, size) = bitmap(&["...", ".#.", "..."]);
    assert!(extract_centerline(&image, &size, true).is_empty());
}

#[test]
fn centerline_of_horizontal_line() {
    let (image, size) = bitmap(&["..........", "##########", ".........."]);
    let polys = extract_centerline(&image, &size, true);
    assert_eq!(polys, vec![(false, vec![[9, 1], [0, 1]])]);
    let polys = extract_centerline(&image, &size, false);
    assert_eq!(polys.len(), 1);
    assert!(!polys[0].0);
    let expected: Vec<[i32; 2]> = (0..10).rev().map(|x| [x, 1]).collect();
    assert_eq!(polys[0].1, expected);
}

#[test]
fn centerline_walks_both_ways_from_the_middle() {
    // the scan meets the line at its lowest pixel, which is in the middle
    let (image, size) = bitmap(&["#...#", ".#.#.", "..#.."]);
    let polys = extract_centerline(&image, &size, true);
    assert_eq!(polys, vec![(false, vec![[0, 2], [2, 0], [4, 2]])]);
    let polys = extract_centerline(&image, &size, false);
    assert_eq!(polys, vec![(false, vec![[0, 2], [1, 1], [2, 0], [3, 1], [4, 2]])]);
}

#[test]
fn centerline_of_diagonal_merges_run() {
    let (image, size) = bitmap(&["...#", "..#.", ".#..", "#..."]);
    assert_eq!(extract_centerline(&image, &size, true), vec![(false, vec![[3, 3], [0, 0]])]);
}

#[test]
fn centerline_of_closed_loop_is_cyclic() {
    let (image, size) = bitmap(&[".##.", "#..#", "#..#", ".##."]);
    let polys = extract_centerline(&image, &size, false);
    assert_eq!(polys.len(), 1);
    assert!(polys[0].0);
    assert_eq!(polys[0].1.len(), 8);
    assert_eq!(polys[0].1[0], [1, 0]);
    let polys = extract_centerline(&image, &size, true);
    assert_eq!(polys.len(), 1);
    assert!(polys[0].0);
}

#[test]
fn centerline_stops_at_junction() {
    // a T: the pixel where the three arms meet has three links
    let (image, size) = bitmap(&["#####", "..#..", "..#.."]);
    let polys = extract_centerline(&image, &size, true);
    assert_eq!(
        polys,
        vec![
            (false, vec![[2, 2], [2, 0]]),
            (false, vec![[2, 2], [0, 2]]),
            // the two halves of a walk are joined as they are
            (false, vec![[2, 2], [3, 2], [4, 2]]),
        ]
    );
}

#[test]
fn skeleton_of_empty_and_thin() {
    let mut image = vec![false; 20];
    calculate(&mut image, &[5, 4]);
    assert_eq!(image, vec![false; 20]);
    // a line that is one pixel wide stays
    let (mut image, size) = bitmap(&[".....", "#####", "....."]);
    let before = image.clone();
    calculate(&mut image, &size);
    assert_eq!(image, before);
    let mut none: Vec<bool> = vec![];
    calculate(&mut none, &[0, 0]);
    assert!(none.is_empty());
}

#[test]
fn skeleton_thins_a_bar() {
    let (mut image, size) = bitmap(&[
        ".........",
        ".#######.",
        ".#######.",
        ".#######.",
        ".........",
    ]);
    let before = image.clone();
    calculate(&mut image, &size);
    // pixels are only removed
    for i in 0..image.len() {
        assert!(!image[i] || before[i]);
    }
    // what is left is one pixel wide: no 2x2 block is filled
    for y in 0..size[1] - 1 {
        for x in 0..size[0] - 1 {
            let block = image[x + y * size[0]] && image[x + 1 + y * size[0]]
                && image[x + (y + 1) * size[0]] && image[x + 1 + (y + 1) * size[0]];
            assert!(!block);
        }
    }
    assert!(image.iter().any(|p| *p));
    // thinning what is thin changes nothing
    let thin = image.clone();
    calculate(&mut image, &size);
    assert_eq!(image, thin);
    // and the thin line can be walked
    let polys = extract_centerline(&image, &size, true);
    assert!(!polys.is_empty());
}

fn thin(rows: &[&str]) -> Vec<bool> {
    let (mut image, size) = bitmap(rows);
    calculate(&mut image, &size);
    image
}

#[test]
fn skeleton_of_block() {
    // the pass from below takes the lower row; what is left are two ends
    assert_eq!(
        thin(&["....", ".##.", ".##.", "...."]),
        bitmap(&["....", ".##.", "....", "...."]).0
    );
}

#[test]
fn skeleton_of_bar_is_its_middle_row() {
    assert_eq!(
        thin(&[".........", ".#######.", ".#######.", ".#######.", "........."]),
        bitmap(&[".........", ".........", ".#######.", ".........", "........."]).0
    );
}

#[test]
fn skeleton_of_full_bitmap() {
    assert_eq!(
        thin(&["#####", "#####", "#####", "#####", "#####"]),
        bitmap(&[".....", ".....", ".###.", ".....", "....."]).0
    );
}

#[test]
fn skeleton_of_cross_keeps_its_arms_joined() {
    assert_eq!(
        thin(&["..##..", "..##..", "######", "######", "..##..", "..##.."]),
        bitmap(&["......", "......", "##.###", "..#...", "..#...", "......"]).0
    );
}

#[test]
fn image_format_by_path() {
    assert_eq!(format_from_filepath(&String::from("image.ppm")), Some(ImageFormat::PPM));
    assert_eq!(format_from_filepath(&String::from(".ppm")), Some(ImageFormat::PPM));
    assert_eq!(format_from_filepath(&String::from("dir.ppm/\u{e9}t\u{e9}.ppm")), Some(ImageFormat::PPM));
    assert_eq!(format_from_filepath(&String::from("image.png")), None);
    assert_eq!(format_from_filepath(&String::from("image.PPM")), None);
    assert_eq!(format_from_filepath(&String::from("ppm")), None);
    assert_eq!(format_from_filepath(&String::from("")), None);
    assert_eq!(format_from_filepath(&String::from("image.ppm ")), None);
}

#[test]
fn foreground_is_darker_than_the_middle() {
    assert!(pixel_is_foreground(&[0, 0, 0], 255));
    assert!(!pixel_is_foreground(&[255, 255, 255], 255));
    // 255 * 3 / 2 = 382.5
    assert!(pixel_is_foreground(&[127, 127, 128], 255));
    assert!(pixel_is_foreground(&[128, 127, 127], 255));
    assert!(!pixel_is_foreground(&[128, 128, 127], 255));
    // 1 * 3 / 2 = 1.5
    assert!(pixel_is_foreground(&[1, 0, 0], 1));
    assert!(!pixel_is_foreground(&[1, 1, 0], 1));
    assert!(!pixel_is_foreground(&[0, 0, 0], 0 + 1) == false);
    assert_eq!(
        image_threshold(&vec![[0, 0, 0], [255, 255, 255], [10, 200, 100], [200, 100, 90]], 255),
        vec![true, false, true, false]
    );
    assert_eq!(image_threshold(&vec![], 255), Vec::<bool>::new());
}

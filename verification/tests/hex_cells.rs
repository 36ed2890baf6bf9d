use hexagon_launcher::hex::{hex_center, hex_direction, spiral_fits, Hex};

fn coords(h: Hex) -> (isize, isize, isize) {
    (h.q(), h.r(), h.s())
}

const DIRECTIONS: [(isize, isize, isize); 6] =
    [(1, 0, -1), (1, -1, 0), (0, -1, 1), (-1, 0, 1), (-1, 1, 0), (0, 1, -1)];

#[test]
fn new_keeps_coordinates() {
    assert_eq!(coords(Hex::new(3, -5, 2)), (3, -5, 2));
}

#[test]
fn default_and_center_are_origin() {
    assert_eq!(coords(Hex::default()), (0, 0, 0));
    assert_eq!(coords(hex_center()), (0, 0, 0));
}

#[test]
fn directions_table() {
    for (d, expected) in DIRECTIONS.iter().enumerate() {
        assert_eq!(coords(hex_direction(d)), *expected);
    }
}

#[test]
fn add_is_componentwise() {
    let sum = Hex::new(1, 2, -3) + Hex::new(-4, 0, 4);
    assert_eq!(coords(sum), (-3, 2, 1));
}

#[test]
fn add_commutes_and_associates() {
    let a = Hex::new(2, -1, -1);
    let b = Hex::new(-3, 5, -2);
    let c = Hex::new(0, 7, -7);
    assert_eq!(coords(a + b), coords(b + a));
    assert_eq!(coords((a + b) + c), coords(a + (b + c)));
    assert_eq!(coords(a + hex_center()), coords(a));
}

#[test]
fn neighbor_in_each_direction() {
    let h = Hex::new(2, -3, 1);
    for (d, (dq, dr, ds)) in DIRECTIONS.iter().enumerate() {
        assert_eq!(coords(h.neighbor(d)), (2 + dq, -3 + dr, 1 + ds));
    }
}

#[test]
fn neighbor_undone_by_opposite_direction() {
    let h = Hex::new(-4, 1, 3);
    for d in 0..6 {
        assert_eq!(coords(h.neighbor(d).neighbor((d + 3) % 6)), coords(h));
    }
}

#[test]
fn scale_multiplies_each_coordinate() {
    assert_eq!(coords(Hex::new(1, -2, 1).scale(3)), (3, -6, 3));
    assert_eq!(coords(Hex::new(1, -2, 1).scale(0)), (0, 0, 0));
    assert_eq!(coords(Hex::new(1, -2, 1).scale(-1)), (-1, 2, -1));
    assert_eq!(coords(Hex::new(5, -9, 4).scale(1)), (5, -9, 4));
}

#[test]
fn spiral_zero_is_center() {
    assert_eq!(coords(Hex::spiral(0)), (0, 0, 0));
}

#[test]
fn spiral_first_ring() {
    let expected = [(-1, 1, 0), (0, 1, -1), (1, 0, -1), (1, -1, 0), (0, -1, 1), (-1, 0, 1)];
    for (k, cell) in expected.iter().enumerate() {
        assert_eq!(coords(Hex::spiral(k + 1)), *cell);
    }
}

#[test]
fn spiral_second_ring() {
    let expected = [
        (-2, 2, 0),
        (-1, 2, -1),
        (0, 2, -2),
        (1, 1, -2),
        (2, 0, -2),
        (2, -1, -1),
        (2, -2, 0),
        (1, -2, 1),
        (0, -2, 2),
        (-1, -1, 2),
        (-2, 0, 2),
        (-2, 1, 1),
    ];
    for (k, cell) in expected.iter().enumerate() {
        assert_eq!(coords(Hex::spiral(k + 7)), *cell);
    }
}

#[test]
fn spiral_ring_starts_lie_on_their_ring() {
    // ring k starts at index 1 + 3k(k - 1), k steps from the center in direction 4
    for k in 1..20isize {
        let start = (1 + 3 * k * (k - 1)) as usize;
        assert_eq!(coords(Hex::spiral(start)), (-k, k, 0));
    }
}

#[test]
fn spiral_cells_are_cube_positions_off_center() {
    for i in 0..500 {
        let (q, r, s) = coords(Hex::spiral(i));
        assert_eq!(q + r + s, 0);
        if i > 0 {
            assert_ne!((q, r, s), (0, 0, 0));
        }
    }
}

fn ring_of(i: usize) -> isize {
    let mut k = 1usize;
    while i >= 1 + 3 * k * (k + 1) {
        k += 1;
    }
    k as isize
}

fn distance((q, r, s): (isize, isize, isize)) -> isize {
    q.abs().max(r.abs()).max(s.abs())
}

#[test]
fn spiral_positions_lie_on_their_rings() {
    for i in 1..400 {
        assert_eq!(distance(coords(Hex::spiral(i))), ring_of(i));
    }
}

#[test]
fn spiral_fills_each_hexagon_once() {
    // the first 1 + 3R(R + 1) positions are exactly the cells within R steps, each once
    for radius in 0..8isize {
        let end = (1 + 3 * radius * (radius + 1)) as usize;
        let mut seen = std::collections::HashSet::new();
        for i in 0..end {
            let cell = coords(Hex::spiral(i));
            assert!(distance(cell) <= radius);
            assert!(seen.insert(cell));
        }
        for q in -radius..=radius {
            for r in -radius..=radius {
                let cell = (q, r, -q - r);
                if distance(cell) <= radius {
                    assert!(seen.contains(&cell));
                }
            }
        }
    }
}

#[test]
fn successive_ring_positions_are_neighbors() {
    for i in 1..300usize {
        if ring_of(i) == ring_of(i + 1) {
            let (a, b) = (coords(Hex::spiral(i)), coords(Hex::spiral(i + 1)));
            let step = (b.0 - a.0, b.1 - a.1, b.2 - a.2);
            assert!(DIRECTIONS.contains(&step));
        }
    }
}

#[test]
fn spiral_fits_small_positions() {
    assert!(spiral_fits(0));
    assert!(spiral_fits(1));
    assert!(spiral_fits(1000));
    assert!(spiral_fits(1_000_000));
}

#[test]
fn opposite_directions_cancel() {
    let mut total = hex_center();
    for d in 0..6 {
        assert_eq!(coords(hex_direction(d) + hex_direction((d + 3) % 6)), (0, 0, 0));
        total = total + hex_direction(d);
    }
    assert_eq!(coords(total), (0, 0, 0));
}

#[test]
fn scale_distributes() {
    let a = Hex::new(2, -5, 3);
    let b = Hex::new(-1, 4, -3);
    assert_eq!(coords(a.scale(3 + 4)), coords(a.scale(3) + a.scale(4)));
    assert_eq!(coords((a + b).scale(-2)), coords(a.scale(-2) + b.scale(-2)));
    assert_eq!(coords(a.scale(3).scale(-4)), coords(a.scale(-12)));
}

#[test]
fn rings_hold_six_k_positions() {
    // positions 1..7 make ring 1, 7..19 ring 2, 19..37 ring 3: each ring's first cell is k steps out
    assert_eq!(coords(Hex::spiral(1)), (-1, 1, 0));
    assert_eq!(coords(Hex::spiral(7)), (-2, 2, 0));
    assert_eq!(coords(Hex::spiral(19)), (-3, 3, 0));
    assert_eq!(coords(Hex::spiral(37)), (-4, 4, 0));
    assert_eq!(coords(Hex::spiral(6)), (-1, 0, 1));
    assert_eq!(coords(Hex::spiral(18)), (-2, 1, 1));
}

use vstd::prelude::*;

verus! {

/// A cell position as mathematical integers `(q, r, s)`.
pub type Cube = (int, int, int);

/// Componentwise sum of two cube positions.
pub open spec fn cube_add(a: Cube, b: Cube) -> Cube {
    (a.0 + b.0, a.1 + b.1, a.2 + b.2)
}

/// Each component multiplied by `k`.
pub open spec fn cube_scale(a: Cube, k: int) -> Cube {
    (a.0 * k, a.1 * k, a.2 * k)
}

/// The cube position of the center cell.
pub open spec fn cube_center() -> Cube {
    (0, 0, 0)
}

/// The unit step in direction `d`, for `d` from 0 to 5.
pub open spec fn cube_direction(d: int) -> Cube
    recommends
        0 <= d < 6,
{
    if d == 0 {
        (1, 0, -1)
    } else if d == 1 {
        (1, -1, 0)
    } else if d == 2 {
        (0, -1, 1)
    } else if d == 3 {
        (-1, 0, 1)
    } else if d == 4 {
        (-1, 1, 0)
    } else {
        (0, 1, -1)
    }
}

/// A valid cube position: its three coordinates sum to zero.
pub open spec fn is_cube(a: Cube) -> bool {
    a.0 + a.1 + a.2 == 0
}

/// The number of steps from the center to `a`, for a cube position.
pub open spec fn cube_distance(a: Cube) -> int {
    let q = if a.0 < 0 { -a.0 } else { a.0 };
    let r = if a.1 < 0 { -a.1 } else { a.1 };
    let s = if a.2 < 0 { -a.2 } else { a.2 };
    if q >= r && q >= s {
        q
    } else if r >= s {
        r
    } else {
        s
    }
}

/// Every component fits in an `isize`.
pub open spec fn fits_isize(a: Cube) -> bool {
    &&& isize::MIN <= a.0 <= isize::MAX
    &&& isize::MIN <= a.1 <= isize::MAX
    &&& isize::MIN <= a.2 <= isize::MAX
}

/// First index of ring `k` in the spiral: the center and rings `1..k` come before it.
pub open spec fn ring_start(k: int) -> int {
    1 + 3 * k * (k - 1)
}

/// First index after ring `k`; ring `k` holds `6 * k` cells.
pub open spec fn ring_end(k: int) -> int {
    1 + 3 * k * (k + 1)
}

/// Index `i` lies in ring `k` (rings are numbered from one; the center is index zero).
pub open spec fn in_ring(i: int, k: int) -> bool {
    &&& k >= 1
    &&& ring_start(k) <= i < ring_end(k)
}

/// The ring of a positive index.
pub open spec fn ring_of(i: int) -> int {
    choose|k: int| in_ring(i, k)
}

/// The direction from the center to the first corner of side `side` of a ring: four further
/// on than the side's own direction, counting modulo six.
pub open spec fn corner_direction(side: int) -> int {
    if side < 2 {
        side + 4
    } else {
        side - 2
    }
}

/// The cell `r` steps along side `side` of ring `k`: the side starts `k` steps from the center
/// in direction `corner_direction(side)` and runs in direction `side`.
pub open spec fn side_cell(k: int, side: int, r: int) -> Cube {
    cube_add(cube_scale(cube_direction(corner_direction(side)), k), cube_scale(cube_direction(side), r))
}

/// The cell at offset `p` of ring `k`. The ring starts `k` steps from the center in direction 4
/// and is walked one cell at a time, `k` steps in each of the directions 0 to 5 in turn, so
/// offset `p` lies `p % k` steps along side `p / k`.
pub open spec fn ring_cell(k: int, p: int) -> Cube {
    side_cell(k, p / k, p % k)
}

/// The cell that the outward spiral gives index `i`: the center for zero; otherwise the cell
/// at offset `i - ring_start(k)` of the ring `k` of `i`.
pub open spec fn spiral_cell(i: int) -> Cube {
    if i <= 0 {
        cube_center()
    } else {
        ring_cell(ring_of(i), i - ring_start(ring_of(i)))
    }
}

/// `Hex::spiral(i)` runs without overflow: the end of the ring of `i` is a `usize`.
pub open spec fn spiral_in_range(i: int) -> bool {
    i <= 0 || ring_end(ring_of(i)) <= usize::MAX
}

/// Consecutive rings follow each other: ring `k + 1` starts where ring `k` ends.
pub proof fn lemma_ring_step(k: int)
    ensures
        ring_start(k + 1) == ring_end(k),
        ring_end(k) - ring_start(k) == 6 * k,
{
    assert(1 + 3 * (k + 1) * k == 1 + 3 * k * (k + 1)) by (nonlinear_arith);
    assert(1 + 3 * k * (k + 1) - (1 + 3 * k * (k - 1)) == 6 * k) by (nonlinear_arith);
}

/// Rings are ordered: a later ring starts no earlier than an earlier one ends.
pub proof fn lemma_ring_order(j: int, k: int)
    requires
        1 <= j < k,
    ensures
        ring_end(j) <= ring_start(k),
        ring_end(j) < ring_end(k),
{
    assert(3 * j * (j + 1) <= 3 * k * (k - 1)) by (nonlinear_arith)
        requires
            1 <= j < k,
    ;
    assert(3 * k * (k - 1) < 3 * k * (k + 1)) by (nonlinear_arith)
        requires
            1 <= k,
    ;
}

/// A ring starts no earlier than its own number.
pub proof fn lemma_ring_start_bound(k: int)
    requires
        k >= 1,
    ensures
        ring_start(k) >= k,
{
    assert(1 + 3 * k * (k - 1) >= k) by (nonlinear_arith)
        requires
            k >= 1,
    ;
}

/// An index lies in at most one ring.
pub proof fn lemma_ring_unique(i: int, j: int, k: int)
    requires
        in_ring(i, j),
        in_ring(i, k),
    ensures
        j == k,
{
    if j < k {
        lemma_ring_order(j, k);
    } else if k < j {
        lemma_ring_order(k, j);
    }
}

/// Every positive index lies in some ring.
pub proof fn lemma_ring_exists(i: int)
    requires
        i >= 1,
    ensures
        in_ring(i, ring_of(i)),
    decreases i,
{
    if i == 1 {
        assert(in_ring(1, 1));
    } else {
        lemma_ring_exists(i - 1);
        let k = ring_of(i - 1);
        lemma_ring_step(k);
        if i < ring_end(k) {
            assert(in_ring(i, k));
        } else {
            lemma_ring_step(k + 1);
            assert(in_ring(i, k + 1));
        }
    }
}

/// The ring of a positive index is the one ring that holds it.
pub proof fn lemma_ring_of(i: int, k: int)
    requires
        in_ring(i, k),
    ensures
        ring_of(i) == k,
{
    lemma_ring_exists(i);
    lemma_ring_unique(i, ring_of(i), k);
}

/// Rings never go down as the index grows.
pub proof fn lemma_ring_monotone(i: int, j: int)
    requires
        1 <= i <= j,
    ensures
        ring_of(i) <= ring_of(j),
        ring_end(ring_of(i)) <= ring_end(ring_of(j)),
{
    lemma_ring_exists(i);
    lemma_ring_exists(j);
    if ring_of(j) < ring_of(i) {
        lemma_ring_order(ring_of(j), ring_of(i));
    } else if ring_of(i) < ring_of(j) {
        lemma_ring_order(ring_of(i), ring_of(j));
    }
}

/// A ring that ends within `usize` is small enough that eight times its number fits an `isize`.
proof fn lemma_ring_fits(k: int)
    requires
        k >= 1,
        ring_end(k) <= usize::MAX,
    ensures
        8 * k <= isize::MAX,
{
    assert(usize::MAX == 2 * isize::MAX + 1);
    if k >= 6 {
        assert(16 * k <= 1 + 3 * k * (k + 1)) by (nonlinear_arith)
            requires
                k >= 6,
        ;
    }
}

/// Moving `p` steps in direction `d`: one step more, no step, the bounds of each coordinate,
/// and the cube invariant.
proof fn lemma_steps(d: int, p: int)
    requires
        0 <= d < 6,
    ensures
        cube_add(cube_scale(cube_direction(d), p), cube_direction(d)) == cube_scale(cube_direction(d), p + 1),
        cube_scale(cube_direction(d), 0) == cube_center(),
        is_cube(cube_scale(cube_direction(d), p)),
        p >= 0 ==> -p <= cube_scale(cube_direction(d), p).0 <= p,
        p >= 0 ==> -p <= cube_scale(cube_direction(d), p).1 <= p,
        p >= 0 ==> -p <= cube_scale(cube_direction(d), p).2 <= p,
{
    let c = cube_direction(d);
    assert(c.0 * p + c.0 == c.0 * (p + 1)) by (nonlinear_arith);
    assert(c.1 * p + c.1 == c.1 * (p + 1)) by (nonlinear_arith);
    assert(c.2 * p + c.2 == c.2 * (p + 1)) by (nonlinear_arith);
    if d == 0 {
    } else if d == 1 {
    } else if d == 2 {
    } else if d == 3 {
    } else if d == 4 {
    } else {
    }
}

/// An offset within ring `k` splits into a side below six and a place below `k` along it.
pub proof fn lemma_side_split(k: int, p: int)
    requires
        k >= 1,
        0 <= p < 6 * k,
    ensures
        p == (p / k) * k + p % k,
        0 <= p % k < k,
        0 <= p / k < 6,
{
    vstd::arithmetic::div_mod::lemma_fundamental_div_mod(p, k);
    vstd::arithmetic::div_mod::lemma_mod_pos_bound(p, k);
    let side = p / k;
    let r = p % k;
    assert(k * side == side * k) by (nonlinear_arith);
    assert(0 <= side < 6) by (nonlinear_arith)
        requires
            p == side * k + r,
            0 <= r < k,
            0 <= p < 6 * k,
            k >= 1,
    ;
}

/// A multiple of each direction, coordinate by coordinate.
pub proof fn lemma_direction_scaled(d: int, m: int)
    requires
        0 <= d < 6,
    ensures
        d == 0 ==> cube_scale(cube_direction(d), m) == (m, 0int, -m),
        d == 1 ==> cube_scale(cube_direction(d), m) == (m, -m, 0int),
        d == 2 ==> cube_scale(cube_direction(d), m) == (0int, -m, m),
        d == 3 ==> cube_scale(cube_direction(d), m) == (-m, 0int, m),
        d == 4 ==> cube_scale(cube_direction(d), m) == (-m, m, 0int),
        d == 5 ==> cube_scale(cube_direction(d), m) == (0int, m, -m),
{
    let a = cube_scale(cube_direction(d), m);
    if d == 0 {
        assert(a.0 == m && a.1 == 0 && a.2 == -m);
    } else if d == 1 {
        assert(a.0 == m && a.1 == -m && a.2 == 0);
    } else if d == 2 {
        assert(a.0 == 0 && a.1 == -m && a.2 == m);
    } else if d == 3 {
        assert(a.0 == -m && a.1 == 0 && a.2 == m);
    } else if d == 4 {
        assert(a.0 == -m && a.1 == m && a.2 == 0);
    } else {
        assert(a.0 == 0 && a.1 == m && a.2 == -m);
    }
}

/// The cells of each side of ring `k`, coordinate by coordinate.
pub proof fn lemma_side_cell_coordinates(k: int, side: int, r: int)
    requires
        0 <= side < 6,
    ensures
        side == 0 ==> side_cell(k, side, r) == (-k + r, k, -r),
        side == 1 ==> side_cell(k, side, r) == (r, k - r, -k),
        side == 2 ==> side_cell(k, side, r) == (k, -r, -k + r),
        side == 3 ==> side_cell(k, side, r) == (k - r, -k, r),
        side == 4 ==> side_cell(k, side, r) == (-r, -k + r, k),
        side == 5 ==> side_cell(k, side, r) == (-k, r, k - r),
{
    lemma_direction_scaled(corner_direction(side), k);
    lemma_direction_scaled(side, r);
}

/// Every cell of a side of ring `k` is a cube position `k` steps from the center.
pub proof fn lemma_side_cell(k: int, side: int, r: int)
    requires
        k >= 1,
        0 <= side < 6,
        0 <= r < k,
    ensures
        is_cube(side_cell(k, side, r)),
        cube_distance(side_cell(k, side, r)) == k,
        -k <= side_cell(k, side, r).0 <= k,
        -k <= side_cell(k, side, r).1 <= k,
        -k <= side_cell(k, side, r).2 <= k,
{
    lemma_side_cell_coordinates(k, side, r);
}

/// Two places on the sides of ring `k` with the same cell are the same place.
pub proof fn lemma_side_cell_injective(k: int, s1: int, r1: int, s2: int, r2: int)
    requires
        k >= 1,
        0 <= s1 < 6,
        0 <= r1 < k,
        0 <= s2 < 6,
        0 <= r2 < k,
        side_cell(k, s1, r1) == side_cell(k, s2, r2),
    ensures
        s1 == s2,
        r1 == r2,
{
    lemma_side_cell_coordinates(k, s1, r1);
    lemma_side_cell_coordinates(k, s2, r2);
}

/// Offset zero of a ring is its first corner, `k` steps from the center in direction 4.
pub proof fn lemma_ring_cell_start(k: int)
    requires
        k >= 1,
    ensures
        ring_cell(k, 0) == cube_scale(cube_direction(4), k),
{
    vstd::arithmetic::div_mod::lemma_fundamental_div_mod_converse_div(0, k, 0, 0);
    vstd::arithmetic::div_mod::lemma_fundamental_div_mod_converse_mod(0, k, 0, 0);
    lemma_side_cell_coordinates(k, 0, 0);
    lemma_direction_scaled(4, k);
}

/// One step along the current side of ring `k` reaches the next offset of the ring.
pub proof fn lemma_ring_cell_step(k: int, p: int)
    requires
        k >= 1,
        0 <= p,
        p + 1 < 6 * k,
    ensures
        cube_add(ring_cell(k, p), cube_direction(p / k)) == ring_cell(k, p + 1),
{
    lemma_side_split(k, p);
    let side = p / k;
    let r = p % k;
    if r + 1 < k {
        assert(p + 1 == side * k + (r + 1));
        vstd::arithmetic::div_mod::lemma_fundamental_div_mod_converse_div(p + 1, k, side, r + 1);
        vstd::arithmetic::div_mod::lemma_fundamental_div_mod_converse_mod(p + 1, k, side, r + 1);
        lemma_steps(side, r);
    } else {
        assert(p + 1 == (side + 1) * k + 0) by (nonlinear_arith)
            requires
                p == side * k + r,
                r + 1 == k,
        ;
        assert(side + 1 < 6) by (nonlinear_arith)
            requires
                p + 1 == (side + 1) * k,
                p + 1 < 6 * k,
                k >= 1,
        ;
        vstd::arithmetic::div_mod::lemma_fundamental_div_mod_converse_div(p + 1, k, side + 1, 0);
        vstd::arithmetic::div_mod::lemma_fundamental_div_mod_converse_mod(p + 1, k, side + 1, 0);
        lemma_side_cell_coordinates(k, side, r);
        lemma_side_cell_coordinates(k, side + 1, 0);
    }
}

/// The cell at an offset within ring `k` is a cube position `k` steps from the center.
pub proof fn lemma_ring_cell(k: int, p: int)
    requires
        k >= 1,
        0 <= p < 6 * k,
    ensures
        is_cube(ring_cell(k, p)),
        cube_distance(ring_cell(k, p)) == k,
        -k <= ring_cell(k, p).0 <= k,
        -k <= ring_cell(k, p).1 <= k,
        -k <= ring_cell(k, p).2 <= k,
{
    lemma_side_split(k, p);
    lemma_side_cell(k, p / k, p % k);
}

/// A hexagon cell in cube coordinates.
#[derive(Clone, Copy, Debug)]
pub struct Hex {
    q: isize,
    r: isize,
    s: isize,
}

impl View for Hex {
    type V = Cube;

    closed spec fn view(&self) -> Cube {
        (self.q as int, self.r as int, self.s as int)
    }
}

impl Default for Hex {
    fn default() -> (h: Hex)
        ensures
            h@ == cube_center(),
    {
        Hex { q: 0, r: 0, s: 0 }
    }
}

impl vstd::std_specs::ops::AddSpecImpl for Hex {
    open spec fn obeys_add_spec() -> bool {
        true
    }

    open spec fn add_req(self, rhs: Hex) -> bool {
        fits_isize(cube_add(self@, rhs@))
    }

    closed spec fn add_spec(self, rhs: Hex) -> Hex {
        Hex { q: (self.q + rhs.q) as isize, r: (self.r + rhs.r) as isize, s: (self.s + rhs.s) as isize }
    }
}

impl core::ops::Add for Hex {
    type Output = Hex;

    fn add(self, rhs: Hex) -> (h: Hex)
        ensures
            h@ == cube_add(self@, rhs@),
    {
        Hex::new(self.q + rhs.q, self.r + rhs.r, self.s + rhs.s)
    }
}

impl Hex {
    /// The cell with the given cube coordinates.
    pub fn new(q: isize, r: isize, s: isize) -> (h: Self)
        ensures
            h@ == (q as int, r as int, s as int),
    {
        Hex { q, r, s }
    }

    /// The `q` coordinate.
    pub fn q(&self) -> (v: isize)
        ensures
            v == self@.0,
    {
        self.q
    }

    /// The `r` coordinate.
    pub fn r(&self) -> (v: isize)
        ensures
            v == self@.1,
    {
        self.r
    }

    /// The `s` coordinate.
    pub fn s(&self) -> (v: isize)
        ensures
            v == self@.2,
    {
        self.s
    }

    /// The adjacent cell in `direction` (an index into the six directions).
    pub fn neighbor(self, direction: usize) -> (h: Self)
        requires
            direction < 6,
            fits_isize(cube_add(self@, cube_direction(direction as int))),
        ensures
            h@ == cube_add(self@, cube_direction(direction as int)),
    {
        self + hex_direction(direction)
    }

    /// The cell at position `i` of the outward spiral, where `i == 0` is the center.
    pub fn spiral(i: usize) -> (h: Self)
        requires
            spiral_in_range(i as int),
        ensures
            h@ == spiral_cell(i as int),
            i == 0 ==> h@ == cube_center(),
            is_cube(h@),
            i > 0 ==> cube_distance(h@) == ring_of(i as int),
    {
        if i == 0 {
            return hex_center();
        }
        proof {
            lemma_ring_exists(i as int);
            lemma_ring_fits(ring_of(i as int));
        }
        let ghost last_ring = ring_of(i as int);

        // Calculate which ring this index belongs to
        let mut ring: usize = 1;
        let mut cells_before_ring: usize = 1;
        proof {
            lemma_ring_step(1);
            if last_ring > 1 {
                lemma_ring_order(1, last_ring);
            }
        }
        while i >= cells_before_ring + (ring * 6)
            invariant
                in_ring(i as int, last_ring),
                ring_end(last_ring) <= usize::MAX,
                1 <= ring <= last_ring,
                cells_before_ring == ring_start(ring as int),
                cells_before_ring + 6 * ring == ring_end(ring as int),
                ring_end(ring as int) <= usize::MAX,
                cells_before_ring <= i,
            decreases i - cells_before_ring,
        {
            proof {
                lemma_ring_step(ring as int);
                if ring < last_ring {
                    lemma_ring_order(ring as int, last_ring);
                }
            }
            cells_before_ring += ring * 6;
            ring += 1;
            proof {
                if ring > last_ring {
                    lemma_ring_order(last_ring, ring as int);
                }
                lemma_ring_step(ring as int);
                if ring < last_ring {
                    lemma_ring_order(ring as int, last_ring);
                }
            }
        }
        proof {
            lemma_ring_step(ring as int);
            lemma_ring_unique(i as int, ring as int, last_ring);
        }

        // Calculate position within the ring
        let pos_in_ring = i - cells_before_ring;

        // Start at the top of the ring
        proof {
            lemma_steps(4, ring as int);
            lemma_ring_cell_start(ring as int);
        }
        let mut hex = hex_center() + hex_direction(4).scale(ring as isize);

        // Move around the ring one step at a time, `ring` steps along each side
        for step in 0..pos_in_ring
            invariant
                1 <= ring <= last_ring,
                8 * last_ring <= isize::MAX,
                pos_in_ring < 6 * ring,
                hex@ == ring_cell(ring as int, step as int),
        {
            proof {
                lemma_side_split(ring as int, step as int);
                vstd::arithmetic::div_mod::lemma_small_mod((step / ring) as nat, 6);
                lemma_ring_cell_step(ring as int, step as int);
                lemma_ring_cell(ring as int, step + 1);
            }
            let current_side = (step / ring) % 6;
            hex = hex + hex_direction(current_side);
        }
        proof {
            lemma_ring_cell(ring as int, pos_in_ring as int);
        }
        hex
    }

    /// Every coordinate multiplied by `factor`.
    pub fn scale(self, factor: isize) -> (h: Self)
        requires
            fits_isize(cube_scale(self@, factor as int)),
        ensures
            h@ == cube_scale(self@, factor as int),
    {
        Hex::new(self.q * factor, self.r * factor, self.s * factor)
    }
}

/// The center cell.
pub fn hex_center() -> (h: Hex)
    ensures
        h@ == cube_center(),
{
    Hex { q: 0, r: 0, s: 0 }
}

/// The unit step in `direction`, for `direction` below six.
pub fn hex_direction(direction: usize) -> (h: Hex)
    requires
        direction < 6,
    ensures
        h@ == cube_direction(direction as int),
{
    match direction {
        0 => Hex { q: 1, r: 0, s: -1 },
        1 => Hex { q: 1, r: -1, s: 0 },
        2 => Hex { q: 0, r: -1, s: 1 },
        3 => Hex { q: -1, r: 0, s: 1 },
        4 => Hex { q: -1, r: 1, s: 0 },
        _ => Hex { q: 0, r: 1, s: -1 },
    }
}

/// Whether `Hex::spiral(i)` runs without overflow, that is `spiral_in_range(i)`.
pub fn spiral_fits(i: usize) -> (fits: bool)
    ensures
        fits == spiral_in_range(i as int),
{
    if i == 0 {
        return true;
    }
    proof {
        lemma_ring_exists(i as int);
        lemma_ring_start_bound(ring_of(i as int));
    }
    let ghost last_ring = ring_of(i as int);
    let mut ring: usize = 1;
    let mut cells_before_ring: usize = 1;
    loop
        invariant
            in_ring(i as int, last_ring),
            last_ring == ring_of(i as int),
            last_ring <= i,
            1 <= ring <= last_ring,
            cells_before_ring == ring_start(ring as int),
            cells_before_ring <= i,
        decreases i - cells_before_ring,
    {
        proof {
            lemma_ring_step(ring as int);
            if ring < last_ring {
                lemma_ring_order(ring as int, last_ring);
            }
        }
        let width = match ring.checked_mul(6) {
            Some(w) => w,
            None => {
                return false;
            },
        };
        let end = match cells_before_ring.checked_add(width) {
            Some(e) => e,
            None => {
                return false;
            },
        };
        if i < end {
            proof {
                lemma_ring_unique(i as int, ring as int, last_ring);
            }
            return true;
        }
        cells_before_ring = end;
        ring += 1;
        proof {
            if ring > last_ring {
                lemma_ring_order(last_ring, ring as int);
            }
        }
    }
}

} // verus!

use vstd::prelude::*;

use crate::hex::{
    Cube, Hex, cube_add, cube_scale, cube_center, cube_direction, cube_distance, is_cube,
    ring_start, ring_end, in_ring, ring_of, side_cell, spiral_cell, spiral_in_range,
    lemma_ring_exists, lemma_ring_of, lemma_ring_order, lemma_ring_step, lemma_ring_monotone,
    lemma_ring_cell, lemma_ring_cell_start, lemma_ring_cell_step, lemma_side_split,
    lemma_side_cell_coordinates, lemma_side_cell_injective,
};
use crate::launcher::{
    LauncherEntry, bytes_le, comes_before, is_display_order, is_shown,
    lemma_bytes_le_antisymmetric, lemma_bytes_le_reflexive, lemma_bytes_le_total,
    lemma_bytes_le_transitive, name_key,
};

verus! {

/// Adding cells does not depend on their order.
pub proof fn law_add_commutative(a: Hex, b: Hex)
    ensures
        cube_add(a@, b@) == cube_add(b@, a@),
{
}

/// Adding cells does not depend on how the sums are grouped.
pub proof fn law_add_associative(a: Hex, b: Hex, c: Hex)
    ensures
        cube_add(cube_add(a@, b@), c@) == cube_add(a@, cube_add(b@, c@)),
{
}

/// Adding the center leaves a cell where it is.
pub proof fn law_center_is_identity(a: Hex)
    ensures
        cube_add(a@, cube_center()) == a@,
        cube_add(cube_center(), a@) == a@,
{
}

/// A step in one direction is undone by a step in the opposite direction, three further on.
pub proof fn law_neighbor_undone_by_opposite(h: Hex, direction: usize)
    requires
        direction < 6,
    ensures
        cube_add(cube_add(h@, cube_direction(direction as int)), cube_direction(((direction + 3) % 6) as int)) == h@,
{
}

/// The six directions are opposite in pairs and sum to the center.
pub proof fn law_directions_cancel()
    ensures
        forall|d: int| 0 <= d < 6 ==> #[trigger] cube_add(cube_direction(d), cube_direction((d + 3) % 6)) == cube_center(),
        cube_add(
            cube_add(cube_add(cube_direction(0), cube_direction(1)), cube_add(cube_direction(2), cube_direction(3))),
            cube_add(cube_direction(4), cube_direction(5)),
        ) == cube_center(),
{
}

/// The center, the six directions, sums and multiples of valid cube positions are valid cube
/// positions: their coordinates sum to zero.
pub proof fn law_cube_preserved(a: Hex, b: Hex, factor: int)
    requires
        is_cube(a@),
        is_cube(b@),
    ensures
        is_cube(cube_center()),
        forall|d: int| 0 <= d < 6 ==> is_cube(#[trigger] cube_direction(d)),
        is_cube(cube_add(a@, b@)),
        is_cube(cube_scale(a@, factor)),
{
    assert(a@.0 * factor + a@.1 * factor + a@.2 * factor == (a@.0 + a@.1 + a@.2) * factor) by (nonlinear_arith);
}

/// Scaling by zero gives the center, by one the cell itself; scaling distributes over sums of
/// factors and over sums of cells, and two scalings multiply.
pub proof fn law_scale(a: Hex, b: Hex, j: int, k: int)
    ensures
        cube_scale(a@, 0) == cube_center(),
        cube_scale(a@, 1) == a@,
        cube_scale(a@, j + k) == cube_add(cube_scale(a@, j), cube_scale(a@, k)),
        cube_scale(cube_add(a@, b@), k) == cube_add(cube_scale(a@, k), cube_scale(b@, k)),
        cube_scale(cube_scale(a@, j), k) == cube_scale(a@, j * k),
{
    let (x, y, z) = a@;
    let (u, v, w) = b@;
    assert(x * (j + k) == x * j + x * k) by (nonlinear_arith);
    assert(y * (j + k) == y * j + y * k) by (nonlinear_arith);
    assert(z * (j + k) == z * j + z * k) by (nonlinear_arith);
    assert((x + u) * k == x * k + u * k) by (nonlinear_arith);
    assert((y + v) * k == y * k + v * k) by (nonlinear_arith);
    assert((z + w) * k == z * k + w * k) by (nonlinear_arith);
    assert(x * j * k == x * (j * k)) by (nonlinear_arith);
    assert(y * j * k == y * (j * k)) by (nonlinear_arith);
    assert(z * j * k == z * (j * k)) by (nonlinear_arith);
}

/// The rings split the positive indices: each index from one on lies in exactly one ring, ring
/// `k` starts where ring `k - 1` ends, and holds `6 * k` indices.
pub proof fn law_rings_partition(i: int, k: int)
    requires
        i >= 1,
        k >= 1,
    ensures
        in_ring(i, ring_of(i)),
        in_ring(i, k) <==> k == ring_of(i),
        ring_start(1) == 1,
        ring_start(k + 1) == ring_end(k),
        ring_end(k) - ring_start(k) == 6 * k,
{
    lemma_ring_exists(i);
    if in_ring(i, k) {
        lemma_ring_of(i, k);
    }
    lemma_ring_step(k);
}

/// Each position from one on lies on its own ring: a position of ring `k` is a cube position
/// exactly `k` steps from the center.
pub proof fn law_spiral_on_ring(i: int, k: int)
    requires
        in_ring(i, k),
    ensures
        is_cube(spiral_cell(i)),
        cube_distance(spiral_cell(i)) == k,
{
    lemma_ring_of(i, k);
    lemma_ring_step(k);
    lemma_ring_cell(k, i - ring_start(k));
}

/// Every cell of the spiral is a valid cube position, and position zero is the center.
pub proof fn law_spiral_is_cube(i: int)
    ensures
        is_cube(spiral_cell(i)),
        i == 0 ==> spiral_cell(i) == cube_center(),
{
    if i > 0 {
        lemma_ring_exists(i);
        law_spiral_on_ring(i, ring_of(i));
    }
}

/// The first position of each ring `k` is `k` steps from the center, in direction 4.
pub proof fn law_spiral_ring_start(k: int)
    requires
        k >= 1,
    ensures
        spiral_cell(ring_start(k)) == cube_scale(cube_direction(4), k),
        cube_distance(spiral_cell(ring_start(k))) == k,
{
    lemma_ring_step(k);
    assert(ring_start(k) >= 1) by (nonlinear_arith)
        requires
            k >= 1,
    ;
    assert(in_ring(ring_start(k), k));
    lemma_ring_of(ring_start(k), k);
    lemma_ring_cell_start(k);
    law_spiral_on_ring(ring_start(k), k);
}

/// Whether the spiral can be computed only gets harder as the position grows: a position
/// below one that can be computed can be computed too.
pub proof fn law_spiral_in_range_downward(i: int, j: int)
    requires
        0 <= i <= j,
        spiral_in_range(j),
    ensures
        spiral_in_range(i),
{
    if i >= 1 {
        lemma_ring_monotone(i, j);
    }
}

/// No position after the first is placed on the center, where the launcher's button stands.
pub proof fn law_spiral_off_center(i: int)
    requires
        i >= 1,
    ensures
        spiral_cell(i) != cube_center(),
{
    lemma_ring_exists(i);
    law_spiral_on_ring(i, ring_of(i));
}

/// Successive positions of one ring are neighbors: from offset `p` of ring `k` the walk takes
/// one step in direction `p / k`.
pub proof fn law_spiral_steps_to_next(i: int, k: int)
    requires
        in_ring(i, k),
        in_ring(i + 1, k),
    ensures
        0 <= (i - ring_start(k)) / k < 6,
        spiral_cell(i + 1) == cube_add(spiral_cell(i), cube_direction((i - ring_start(k)) / k)),
{
    lemma_ring_of(i, k);
    lemma_ring_of(i + 1, k);
    lemma_ring_step(k);
    lemma_side_split(k, i - ring_start(k));
    lemma_ring_cell_step(k, i - ring_start(k));
}

/// No cell is visited twice: different positions have different cells.
pub proof fn law_spiral_distinct(i: int, j: int)
    requires
        0 <= i < j,
    ensures
        spiral_cell(i) != spiral_cell(j),
{
    if i == 0 {
        law_spiral_off_center(j);
    } else {
        lemma_ring_exists(i);
        lemma_ring_exists(j);
        let k = ring_of(i);
        law_spiral_on_ring(i, k);
        law_spiral_on_ring(j, ring_of(j));
        if ring_of(j) == k && spiral_cell(i) == spiral_cell(j) {
            lemma_ring_step(k);
            let p = i - ring_start(k);
            let q = j - ring_start(k);
            lemma_side_split(k, p);
            lemma_side_split(k, q);
            lemma_side_cell_injective(k, p / k, p % k, q / k, q % k);
        }
    }
}

/// The first `ring_end(r)` positions stay within `r` steps of the center.
pub proof fn law_spiral_within(radius: int, i: int)
    requires
        radius >= 0,
        0 <= i < ring_end(radius),
    ensures
        is_cube(spiral_cell(i)),
        cube_distance(spiral_cell(i)) <= radius,
{
    if i > 0 {
        lemma_ring_exists(i);
        let k = ring_of(i);
        law_spiral_on_ring(i, k);
        if k > radius {
            if radius >= 1 {
                lemma_ring_order(radius, k);
                assert(ring_end(radius) <= ring_start(k));
            } else {
                assert(ring_end(0) == 1);
            }
            assert(false);
        }
        assert(cube_distance(spiral_cell(i)) == k);
    }
}

/// The first `ring_end(r)` positions reach every cell within `r` steps of the center: with
/// `law_spiral_within` and `law_spiral_distinct`, each such cell is the cell of exactly one of
/// them.
pub proof fn law_spiral_covers(radius: int, c: Cube)
    requires
        radius >= 0,
        is_cube(c),
        cube_distance(c) <= radius,
    ensures
        exists|i: int| 0 <= i < ring_end(radius) && #[trigger] spiral_cell(i) == c,
{
    let k = cube_distance(c);
    assert(ring_end(radius) >= 1) by (nonlinear_arith)
        requires
            radius >= 0,
    ;
    if k == 0 {
        assert(c == cube_center());
        assert(spiral_cell(0) == c);
    } else {
        let (side, r) = ring_place(c, k);
        let p = side * k + r;
        assert(0 <= p < 6 * k) by (nonlinear_arith)
            requires
                0 <= side < 6,
                0 <= r < k,
                p == side * k + r,
        ;
        vstd::arithmetic::div_mod::lemma_fundamental_div_mod_converse_div(p, k, side, r);
        vstd::arithmetic::div_mod::lemma_fundamental_div_mod_converse_mod(p, k, side, r);
        lemma_ring_step(k);
        let i = ring_start(k) + p;
        assert(in_ring(i, k));
        lemma_ring_of(i, k);
        assert(spiral_cell(i) == c);
        if k < radius {
            lemma_ring_order(k, radius);
        }
        assert(i < ring_end(radius));
    }
}

/// The place on ring `k` of a cube position `k` steps from the center: its side and how far
/// along that side it lies.
proof fn ring_place(c: Cube, k: int) -> (place: (int, int))
    requires
        k >= 1,
        is_cube(c),
        cube_distance(c) == k,
    ensures
        0 <= place.0 < 6,
        0 <= place.1 < k,
        side_cell(k, place.0, place.1) == c,
{
    let place = if c.1 == k && c.0 < 0 {
        (0, c.0 + k)
    } else if c.2 == -k && c.0 < k {
        (1, c.0)
    } else if c.0 == k && c.2 < 0 {
        (2, -c.1)
    } else if c.1 == -k && c.0 > 0 {
        (3, k - c.0)
    } else if c.2 == k && c.0 > -k {
        (4, -c.0)
    } else {
        (5, c.1)
    };
    lemma_side_cell_coordinates(k, place.0, place.1);
    place
}
/// Entries are ordered strictly and totally: no entry comes before itself, of two different
/// entries exactly one comes before the other, and the order is transitive.
pub proof fn law_comes_before_strict_total(entries: Seq<LauncherEntry>, i: int, j: int, k: int)
    ensures
        !comes_before(entries, i, i),
        i != j ==> (comes_before(entries, i, j) <==> !comes_before(entries, j, i)),
        comes_before(entries, i, j) && comes_before(entries, j, k) ==> comes_before(entries, i, k),
{
    let a = name_key(entries[i].name);
    let b = name_key(entries[j].name);
    let c = name_key(entries[k].name);
    lemma_bytes_le_reflexive(a);
    lemma_bytes_le_total(a, b);
    if bytes_le(a, b) && bytes_le(b, c) {
        lemma_bytes_le_transitive(a, b, c);
        if bytes_le(c, a) {
            lemma_bytes_le_transitive(b, c, a);
            lemma_bytes_le_transitive(c, a, b);
            lemma_bytes_le_antisymmetric(a, b);
            lemma_bytes_le_antisymmetric(b, c);
        }
    }
}

/// Byte strings are ordered as `String` orders its UTF-8 bytes: at the first byte where two
/// strings differ, the one with the smaller byte comes first and not the other way round; a
/// proper prefix comes before the longer string.
pub proof fn law_bytes_order(a: Seq<u8>, b: Seq<u8>, k: int)
    ensures
        0 <= k < a.len() && k < b.len() && a.take(k) == b.take(k) && a[k] < b[k]
            ==> bytes_le(a, b) && !bytes_le(b, a),
        a.len() < b.len() && b.take(a.len() as int) == a ==> bytes_le(a, b) && !bytes_le(b, a),
        bytes_le(a, a),
    decreases a.len(),
{
    lemma_bytes_le_reflexive(a);
    if 0 <= k < a.len() && k < b.len() && a.take(k) == b.take(k) && a[k] < b[k] {
        lemma_first_difference(a, b, k);
    }
    if a.len() < b.len() && b.take(a.len() as int) == a {
        lemma_proper_prefix(a, b);
    }
}

/// The smaller byte at the first difference decides the order.
proof fn lemma_first_difference(a: Seq<u8>, b: Seq<u8>, k: int)
    requires
        0 <= k < a.len(),
        k < b.len(),
        a.take(k) == b.take(k),
        a[k] < b[k],
    ensures
        bytes_le(a, b),
        !bytes_le(b, a),
    decreases k,
{
    if k > 0 {
        assert(a[0] == a.take(k)[0]);
        assert(b[0] == b.take(k)[0]);
        assert(a.drop_first().take(k - 1) =~= a.take(k).drop_first());
        assert(b.drop_first().take(k - 1) =~= b.take(k).drop_first());
        lemma_first_difference(a.drop_first(), b.drop_first(), k - 1);
    }
}

/// A proper prefix comes first.
proof fn lemma_proper_prefix(a: Seq<u8>, b: Seq<u8>)
    requires
        a.len() < b.len(),
        b.take(a.len() as int) == a,
    ensures
        bytes_le(a, b),
        !bytes_le(b, a),
    decreases a.len(),
{
    if a.len() > 0 {
        assert(a[0] == b.take(a.len() as int)[0]);
        assert(b.drop_first().take(a.drop_first().len() as int) =~= b.take(a.len() as int).drop_first());
        lemma_proper_prefix(a.drop_first(), b.drop_first());
    }
}

/// The launcher shows exactly the entries that do not ask to be hidden, each once, whatever
/// their names: a display order lists every such entry and nothing else.
pub proof fn law_display_order_shows_exactly(entries: Seq<LauncherEntry>, order: Seq<usize>, i: int)
    requires
        is_display_order(entries, order),
    ensures
        0 <= i < entries.len() && !entries[i].no_display ==> order.contains(i as usize),
        forall|k: int| 0 <= k < order.len() ==> (#[trigger] order[k]) < entries.len() && !entries[order[k] as int].no_display,
        forall|a: int, b: int| 0 <= a < b < order.len() ==> #[trigger] order[a] != #[trigger] order[b],
{
    assert forall|a: int, b: int| 0 <= a < b < order.len() implies #[trigger] order[a] != #[trigger] order[b] by {
        law_comes_before_strict_total(entries, order[a] as int, order[a] as int, order[a] as int);
    }
    assert forall|k: int| 0 <= k < order.len() implies (#[trigger] order[k]) < entries.len() && !entries[order[k] as int].no_display by {
        assert(is_shown(entries, order[k] as int));
    }
    if 0 <= i < entries.len() && !entries[i].no_display {
        assert(is_shown(entries, i));
    }
}

/// A display order follows the entries' names in the order of `String`, the full UTF-8 bytes
/// of each name, a missing name counting as the empty one: where the names first differ, the
/// smaller byte comes first; a name that is a proper prefix of another comes first; and of
/// equal names, the earlier entry comes first.
pub proof fn law_display_order_follows_names(
    entries: Seq<LauncherEntry>,
    order: Seq<usize>,
    a: int,
    b: int,
    name_a: Seq<u8>,
    name_b: Seq<u8>,
)
    requires
        is_display_order(entries, order),
        0 <= a < order.len(),
        0 <= b < order.len(),
        name_a == (match entries[order[a] as int].name {
            Some(n) => vstd::utf8::encode_utf8(n@),
            None => Seq::<u8>::empty(),
        }),
        name_b == (match entries[order[b] as int].name {
            Some(n) => vstd::utf8::encode_utf8(n@),
            None => Seq::<u8>::empty(),
        }),
    ensures
        forall|k: int|
            0 <= k < name_a.len() && k < name_b.len() && name_a.take(k) == name_b.take(k)
                && #[trigger] name_a[k] < name_b[k] ==> a < b,
        name_a.len() < name_b.len() && name_b.take(name_a.len() as int) == name_a ==> a < b,
        name_a == name_b && order[a] < order[b] ==> a < b,
{
    assert(name_key(entries[order[a] as int].name) == name_a);
    assert(name_key(entries[order[b] as int].name) == name_b);
    if b < a {
        assert(comes_before(entries, order[b] as int, order[a] as int));
    }
    assert forall|k: int|
        0 <= k < name_a.len() && k < name_b.len() && name_a.take(k) == name_b.take(k)
            && #[trigger] name_a[k] < name_b[k] implies a < b by {
        law_bytes_order(name_a, name_b, k);
        if a == b {
            assert(false);
        }
    }
    if name_a.len() < name_b.len() && name_b.take(name_a.len() as int) == name_a {
        law_bytes_order(name_a, name_b, 0);
    }
    if name_a == name_b {
        lemma_bytes_le_reflexive(name_a);
    }
}

/// There is one order in which the launcher can show its entries: two sequences that each list
/// exactly the shown entries, each coming before all that follow it, are the same.
pub proof fn law_display_order_unique(entries: Seq<LauncherEntry>, first: Seq<usize>, second: Seq<usize>)
    requires
        is_display_order(entries, first),
        is_display_order(entries, second),
    ensures
        first == second,
{
    assert forall|x: usize| first.contains(x) <==> second.contains(x) by {
        if first.contains(x) {
            let k = choose|k: int| 0 <= k < first.len() && first[k] == x;
            assert(is_shown(entries, first[k] as int));
        }
        if second.contains(x) {
            let k = choose|k: int| 0 <= k < second.len() && second[k] == x;
            assert(is_shown(entries, second[k] as int));
        }
    }
    lemma_sorted_unique(entries, first, second);
}

/// Two sequences, each in strictly increasing `comes_before` order, that hold the same
/// positions are the same.
proof fn lemma_sorted_unique(entries: Seq<LauncherEntry>, first: Seq<usize>, second: Seq<usize>)
    requires
        forall|a: int, b: int|
            0 <= a < b < first.len() ==> comes_before(entries, #[trigger] first[a] as int, #[trigger] first[b] as int),
        forall|a: int, b: int|
            0 <= a < b < second.len() ==> comes_before(entries, #[trigger] second[a] as int, #[trigger] second[b] as int),
        forall|x: usize| first.contains(x) <==> second.contains(x),
    ensures
        first == second,
    decreases first.len(),
{
    if first.len() == 0 {
        if second.len() > 0 {
            assert(second.contains(second[0]));
        }
        assert(first =~= second);
    } else {
        assert(first.contains(first[0]));
        assert(second.len() > 0);
        assert(second.contains(second[0]));
        let x = first[0];
        let y = second[0];
        if x != y {
            let i = choose|i: int| 0 <= i < first.len() && first[i] == y;
            let j = choose|j: int| 0 <= j < second.len() && second[j] == x;
            assert(comes_before(entries, x as int, y as int));
            assert(comes_before(entries, y as int, x as int));
            assert(false);
        }
        let rest1 = first.drop_first();
        let rest2 = second.drop_first();
        lemma_bytes_le_reflexive(name_key(entries[x as int].name));
        assert forall|z: usize| rest1.contains(z) <==> rest2.contains(z) by {
            if rest1.contains(z) {
                let k = choose|k: int| 0 <= k < rest1.len() && rest1[k] == z;
                assert(first[k + 1] == z);
                assert(comes_before(entries, first[0] as int, first[k + 1] as int));
                assert(z != x);
                assert(first.contains(z));
                let m = choose|m: int| 0 <= m < second.len() && second[m] == z;
                assert(m != 0);
                assert(rest2[m - 1] == z);
            }
            if rest2.contains(z) {
                let k = choose|k: int| 0 <= k < rest2.len() && rest2[k] == z;
                assert(second[k + 1] == z);
                assert(comes_before(entries, second[0] as int, second[k + 1] as int));
                assert(z != x);
                assert(second.contains(z));
                let m = choose|m: int| 0 <= m < first.len() && first[m] == z;
                assert(m != 0);
                assert(rest1[m - 1] == z);
            }
        }
        assert forall|a: int, b: int| 0 <= a < b < rest1.len() implies comes_before(entries, #[trigger] rest1[a] as int, #[trigger] rest1[b] as int) by {
            assert(rest1[a] == first[a + 1] && rest1[b] == first[b + 1]);
        }
        assert forall|a: int, b: int| 0 <= a < b < rest2.len() implies comes_before(entries, #[trigger] rest2[a] as int, #[trigger] rest2[b] as int) by {
            assert(rest2[a] == second[a + 1] && rest2[b] == second[b + 1]);
        }
        lemma_sorted_unique(entries, rest1, rest2);
        assert(first =~= seq![x] + rest1);
        assert(second =~= seq![y] + rest2);
    }
}

} // verus!

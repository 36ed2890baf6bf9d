use vstd::prelude::*;

use crate::hex::{Hex, cube_center, spiral_cell, spiral_in_range, lemma_ring_monotone};
use crate::laws::{law_display_order_shows_exactly, law_spiral_distinct, law_spiral_off_center};

verus! {

/// What the launcher reads of a parsed desktop entry: its name, if it has one, and whether
/// it asks not to be shown.
pub struct LauncherEntry {
    pub name: Option<String>,
    pub no_display: bool,
}

/// The bytes by which an entry is ordered: the UTF-8 encoding of its name, or nothing for an
/// entry without a name.
pub open spec fn name_key(name: Option<String>) -> Seq<u8> {
    match name {
        Some(n) => vstd::utf8::encode_utf8(n@),
        None => Seq::empty(),
    }
}

/// Lexicographic order on byte strings, a prefix first (the order of `String`).
pub open spec fn bytes_le(a: Seq<u8>, b: Seq<u8>) -> bool
    decreases a.len(),
{
    if a.len() == 0 {
        true
    } else if b.len() == 0 {
        false
    } else if a[0] != b[0] {
        a[0] < b[0]
    } else {
        bytes_le(a.drop_first(), b.drop_first())
    }
}

/// Entry `i` is one that the launcher shows.
pub open spec fn is_shown(entries: Seq<LauncherEntry>, i: int) -> bool {
    0 <= i < entries.len() && !entries[i].no_display
}

/// Entry `i` comes before entry `j`: by name, and among equal names by position.
pub open spec fn comes_before(entries: Seq<LauncherEntry>, i: int, j: int) -> bool {
    let a = name_key(entries[i].name);
    let b = name_key(entries[j].name);
    bytes_le(a, b) && (bytes_le(b, a) ==> i < j)
}

/// `order` lists the positions of exactly the shown entries, each once, each coming before
/// all that follow it.
pub open spec fn is_display_order(entries: Seq<LauncherEntry>, order: Seq<usize>) -> bool {
    &&& forall|k: int| 0 <= k < order.len() ==> is_shown(entries, #[trigger] order[k] as int)
    &&& forall|i: int| is_shown(entries, i) ==> order.contains(i as usize)
    &&& forall|a: int, b: int|
        0 <= a < b < order.len() ==> comes_before(entries, #[trigger] order[a] as int, #[trigger] order[b] as int)
}

/// Every byte string is ordered before itself.
pub proof fn lemma_bytes_le_reflexive(a: Seq<u8>)
    ensures
        bytes_le(a, a),
    decreases a.len(),
{
    if a.len() > 0 {
        lemma_bytes_le_reflexive(a.drop_first());
    }
}

/// Any two byte strings are ordered one way or the other.
pub proof fn lemma_bytes_le_total(a: Seq<u8>, b: Seq<u8>)
    ensures
        bytes_le(a, b) || bytes_le(b, a),
    decreases a.len(),
{
    if a.len() > 0 && b.len() > 0 && a[0] == b[0] {
        lemma_bytes_le_total(a.drop_first(), b.drop_first());
    }
}

/// The order on byte strings is transitive.
pub proof fn lemma_bytes_le_transitive(a: Seq<u8>, b: Seq<u8>, c: Seq<u8>)
    requires
        bytes_le(a, b),
        bytes_le(b, c),
    ensures
        bytes_le(a, c),
    decreases a.len(),
{
    if a.len() > 0 && b.len() > 0 && c.len() > 0 && a[0] == b[0] && b[0] == c[0] {
        lemma_bytes_le_transitive(a.drop_first(), b.drop_first(), c.drop_first());
    }
}

/// Two byte strings ordered both ways are equal.
pub proof fn lemma_bytes_le_antisymmetric(a: Seq<u8>, b: Seq<u8>)
    requires
        bytes_le(a, b),
        bytes_le(b, a),
    ensures
        a == b,
    decreases a.len(),
{
    if a.len() > 0 {
        lemma_bytes_le_antisymmetric(a.drop_first(), b.drop_first());
        assert(a =~= seq![a[0]] + a.drop_first());
        assert(b =~= seq![b[0]] + b.drop_first());
    }
}

/// The name bytes of an entry.
fn name_bytes(name: &Option<String>) -> (bytes: &[u8])
    ensures
        bytes@ == name_key(*name),
{
    match name {
        Some(n) => n.as_str().as_bytes(),
        None => {
            let empty = "";
            proof {
                reveal_strlit("");
            }
            empty.as_bytes()
        },
    }
}

/// Whether `a` comes no later than `b` in the order of `String`.
fn bytes_le_exec(a: &[u8], b: &[u8]) -> (le: bool)
    ensures
        le == bytes_le(a@, b@),
{
    let mut i: usize = 0;
    assert(a@.skip(0) =~= a@);
    assert(b@.skip(0) =~= b@);
    while i < a.len() && i < b.len()
        invariant
            i <= a@.len(),
            i <= b@.len(),
            bytes_le(a@, b@) == bytes_le(a@.skip(i as int), b@.skip(i as int)),
        decreases a@.len() - i,
    {
        if a[i] != b[i] {
            return a[i] < b[i];
        }
        assert(a@.skip(i as int).drop_first() =~= a@.skip(i + 1));
        assert(b@.skip(i as int).drop_first() =~= b@.skip(i + 1));
        i += 1;
    }
    i == a.len()
}

/// The order in which the launcher shows its entries: the positions of the entries that do
/// not ask to be hidden, sorted by name, entries with equal names in their given order.
pub fn launcher_order(entries: &Vec<LauncherEntry>) -> (order: Vec<usize>)
    ensures
        is_display_order(entries@, order@),
        forall|k: int|
            0 <= k < order@.len() ==> (#[trigger] order@[k]) < entries@.len()
                && !entries@[order@[k] as int].no_display,
        forall|i: int|
            0 <= i < entries@.len() && !entries@[i].no_display ==> order@.contains(i as usize),
{
    let mut order: Vec<usize> = Vec::new();
    let n = entries.len();
    for x in 0..n
        invariant
            n == entries@.len(),
            forall|k: int| 0 <= k < order@.len() ==> #[trigger] order@[k] < x && is_shown(entries@, order@[k] as int),
            forall|i: int| 0 <= i < x && is_shown(entries@, i) ==> order@.contains(i as usize),
            forall|a: int, b: int|
                0 <= a < b < order@.len() ==> comes_before(entries@, #[trigger] order@[a] as int, #[trigger] order@[b] as int),
    {
        if !entries[x].no_display {
            let key = name_bytes(&entries[x].name);
            let mut p: usize = 0;
            while p < order.len() && bytes_le_exec(name_bytes(&entries[order[p]].name), key)
                invariant
                    n == entries@.len(),
                    x < n,
                    key@ == name_key(entries@[x as int].name),
                    p <= order@.len(),
                    forall|k: int| 0 <= k < order@.len() ==> #[trigger] order@[k] < x && is_shown(entries@, order@[k] as int),
                    forall|q: int| 0 <= q < p ==> bytes_le(name_key(entries@[#[trigger] order@[q] as int].name), key@),
                decreases order@.len() - p,
            {
                p += 1;
            }
            let ghost old_order = order@;
            proof {
                old_order.insert_ensures(p as int, x);
                assert forall|q: int| p <= q < old_order.len() implies {
                    &&& bytes_le(key@, name_key(entries@[#[trigger] old_order[q] as int].name))
                    &&& !bytes_le(name_key(entries@[old_order[q] as int].name), key@)
                } by {
                    let kp = name_key(entries@[old_order[p as int] as int].name);
                    let kq = name_key(entries@[old_order[q] as int].name);
                    assert(!bytes_le(kp, key@));
                    if q > p {
                        assert(comes_before(entries@, old_order[p as int] as int, old_order[q] as int));
                    }
                    if bytes_le(kq, key@) {
                        lemma_bytes_le_transitive(kp, kq, key@);
                    }
                    lemma_bytes_le_total(kq, key@);
                }
            }
            order.insert(p, x);
            proof {
                let s = order@;
                assert forall|a: int, b: int| 0 <= a < b < s.len() implies comes_before(entries@, #[trigger] s[a] as int, #[trigger] s[b] as int) by {
                    if b < p {
                        assert(s[a] == old_order[a] && s[b] == old_order[b]);
                    } else if a > p {
                        assert(s[a] == old_order[a - 1] && s[b] == old_order[b - 1]);
                        assert(comes_before(entries@, old_order[a - 1] as int, old_order[b - 1] as int));
                    } else if a < p && b > p {
                        assert(s[a] == old_order[a] && s[b] == old_order[b - 1]);
                        assert(comes_before(entries@, old_order[a] as int, old_order[b - 1] as int));
                    } else if a == p {
                        assert(s[b] == old_order[b - 1]);
                    } else {
                        assert(s[a] == old_order[a]);
                    }
                }
                assert forall|i: int| 0 <= i < x + 1 && is_shown(entries@, i) implies s.contains(i as usize) by {
                    if i == x {
                        assert(s[p as int] == x);
                    } else {
                        assert(old_order.contains(i as usize));
                        let k = choose|k: int| 0 <= k < old_order.len() && old_order[k] == i as usize;
                        if k < p {
                            assert(s[k] == i as usize);
                        } else {
                            assert(s[k + 1] == i as usize);
                        }
                    }
                }
            }
        } else {
            proof {
                assert forall|i: int| 0 <= i < x + 1 && is_shown(entries@, i) implies order@.contains(i as usize) by {
                }
            }
        }
    }
    proof {
        law_display_order_shows_exactly(entries@, order@, 0);
        assert forall|i: int| 0 <= i < entries@.len() && !entries@[i].no_display implies order@.contains(i as usize) by {
            law_display_order_shows_exactly(entries@, order@, i);
        }
    }
    order
}

/// The cells of the launcher's applications: none while it is closed; while it is open,
/// application `k` (counted from zero) stands at spiral position `k + 1`, around the button
/// at the center, each on a cell of its own.
pub fn app_cells(open: bool, count: usize) -> (cells: Vec<Hex>)
    requires
        open ==> spiral_in_range(count as int),
    ensures
        !open ==> cells@.len() == 0,
        open ==> cells@.len() == count,
        forall|k: int| 0 <= k < cells@.len() ==> (#[trigger] cells@[k])@ == spiral_cell(k + 1),
        forall|k: int| 0 <= k < cells@.len() ==> (#[trigger] cells@[k])@ != cube_center(),
        forall|j: int, k: int|
            0 <= j < k < cells@.len() ==> (#[trigger] cells@[j])@ != (#[trigger] cells@[k])@,
{
    let mut cells: Vec<Hex> = Vec::new();
    if open {
        for k in 0..count
            invariant
                spiral_in_range(count as int),
                cells@.len() == k,
                forall|j: int| 0 <= j < cells@.len() ==> (#[trigger] cells@[j])@ == spiral_cell(j + 1),
        {
            proof {
                lemma_ring_monotone(k + 1, count as int);
            }
            cells.push(Hex::spiral(k + 1));
        }
    }
    proof {
        assert forall|k: int| 0 <= k < cells@.len() implies (#[trigger] cells@[k])@ != cube_center() by {
            law_spiral_off_center(k + 1);
        }
        assert forall|j: int, k: int| 0 <= j < k < cells@.len() implies (#[trigger] cells@[j])@ != (#[trigger] cells@[k])@ by {
            law_spiral_distinct(j + 1, k + 1);
        }
    }
    cells
}

} // verus!

use hexagon_launcher::hex::Hex;
use hexagon_launcher::launcher::{app_cells, launcher_order, LauncherEntry};

fn entry(name: Option<&str>, no_display: bool) -> LauncherEntry {
    LauncherEntry { name: name.map(|n| n.to_string()), no_display }
}

fn coords(h: &Hex) -> (isize, isize, isize) {
    (h.q(), h.r(), h.s())
}

#[test]
fn order_sorts_by_name() {
    let entries = vec![entry(Some("Firefox"), false), entry(Some("Blender"), false), entry(Some("Krita"), false)];
    assert_eq!(launcher_order(&entries), vec![1, 0, 2]);
}

#[test]
fn order_leaves_out_hidden_entries() {
    let entries = vec![
        entry(Some("Zed"), false),
        entry(Some("Hidden"), true),
        entry(Some("Alacritty"), false),
        entry(None, true),
    ];
    assert_eq!(launcher_order(&entries), vec![2, 0]);
}

#[test]
fn order_puts_unnamed_first() {
    let entries = vec![entry(Some("a"), false), entry(None, false), entry(Some(""), false)];
    assert_eq!(launcher_order(&entries), vec![1, 2, 0]);
}

#[test]
fn order_keeps_equal_names_in_place() {
    let entries = vec![
        entry(Some("Term"), false),
        entry(Some("Edit"), false),
        entry(Some("Term"), false),
        entry(Some("Edit"), false),
    ];
    assert_eq!(launcher_order(&entries), vec![1, 3, 0, 2]);
}

#[test]
fn order_compares_bytes() {
    // upper case before lower case, a prefix before its extensions, UTF-8 after ASCII
    let entries = vec![
        entry(Some("apple"), false),
        entry(Some("Zebra"), false),
        entry(Some("app"), false),
        entry(Some("Émile"), false),
        entry(Some("Apple"), false),
    ];
    assert_eq!(launcher_order(&entries), vec![4, 1, 2, 0, 3]);
}

#[test]
fn order_matches_string_sort() {
    let names = ["kate", "Dolphin", "okular", "Konsole", "dolphin", "", "kate", "Ark"];
    let entries: Vec<LauncherEntry> =
        names.iter().enumerate().map(|(i, n)| entry(Some(n), i % 3 == 2)).collect();
    let mut expected: Vec<usize> = (0..names.len()).filter(|i| i % 3 != 2).collect();
    expected.sort_by_key(|i| names[*i].to_string());
    assert_eq!(launcher_order(&entries), expected);
}

#[test]
fn order_of_nothing_is_empty() {
    assert_eq!(launcher_order(&Vec::new()), Vec::<usize>::new());
}

#[test]
fn closed_launcher_shows_no_cells() {
    assert!(app_cells(false, 5).is_empty());
}

#[test]
fn open_launcher_places_apps_after_center() {
    let cells = app_cells(true, 4);
    let got: Vec<_> = cells.iter().map(coords).collect();
    assert_eq!(got, vec![(-1, 1, 0), (0, 1, -1), (1, 0, -1), (1, -1, 0)]);
    for (k, cell) in cells.iter().enumerate() {
        assert_eq!(coords(cell), coords(&Hex::spiral(k + 1)));
    }
}

#[test]
fn open_launcher_gives_each_app_its_own_cell() {
    let cells: Vec<_> = app_cells(true, 40).iter().map(coords).collect();
    for (j, a) in cells.iter().enumerate() {
        assert_ne!(*a, (0, 0, 0));
        for b in &cells[j + 1..] {
            assert_ne!(a, b);
        }
    }
}

#[test]
fn open_launcher_without_apps() {
    assert!(app_cells(true, 0).is_empty());
}

#[test]
fn equal_names_never_tie() {
    // two entries of the same name are told apart by position, both ways round
    let entries = vec![entry(Some("Same"), false), entry(Some("Same"), false)];
    assert_eq!(launcher_order(&entries), vec![0, 1]);
    let reversed = vec![entry(Some("Same"), false), entry(Some("Other"), false), entry(Some("Same"), false)];
    assert_eq!(launcher_order(&reversed), vec![1, 0, 2]);
}

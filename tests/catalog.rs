use apocalypse_library::app::{update, App, Key, SortStyle};
use apocalypse_library::counter::StatefulListCounter;
use apocalypse_library::download::{join_path, last_url_segment, plan_download, rsync_url, DownloadStep};
use apocalypse_library::library::{Category, Document, DownloadType, LibraryItem};
use apocalypse_library::merge::build_library;
use apocalypse_library::text::{name_less, names_match};

fn doc(name: &str, size: u64) -> LibraryItem {
    LibraryItem::Document(Document::new(
        name.to_string(),
        format!("http://example.org/files/{name}.iso"),
        size,
        DownloadType::Http,
        true,
    ))
}

fn rsync_doc(name: &str, size: u64, rsync_usable: bool) -> LibraryItem {
    LibraryItem::Document(Document::new(
        name.to_string(),
        format!("example.org/{name}"),
        size,
        DownloadType::Rsync,
        rsync_usable,
    ))
}

fn cat(name: &str, items: Vec<LibraryItem>, single: bool) -> Category {
    Category::new(name.to_string(), items, single)
}

fn names(c: &Category) -> Vec<String> {
    c.items.iter().map(|i| i.name().to_string()).collect()
}

fn enabled(c: &Category) -> Vec<bool> {
    c.items.iter().map(|i| i.enabled()).collect()
}

#[test]
fn document_enabled_when_downloadable() {
    let d = Document::new("a".to_string(), "u".to_string(), 5, DownloadType::Http, false);
    assert!(d.enabled);
    assert!(d.can_download());
    let r = Document::new("r".to_string(), "u".to_string(), 5, DownloadType::Rsync, false);
    assert!(!r.enabled);
    assert!(!r.can_download());
    assert_eq!(r.enabled_size(), 0);
    assert_eq!(r.size(), 5);
    let e = Document::new("e".to_string(), "u".to_string(), 5, DownloadType::Either, false);
    assert!(e.can_download());
}

#[test]
fn set_enabled_is_gated_by_download() {
    let mut item = rsync_doc("r", 3, false);
    assert!(!item.set_enabled(true));
    assert!(!item.enabled());
    let mut ok = doc("a", 3);
    assert!(!ok.set_enabled(false));
    assert!(ok.set_enabled(true));
}

#[test]
fn size_is_sum_of_children() {
    let inner = cat("inner", vec![doc("a", 10), doc("b", 20)], false);
    let outer = cat("outer", vec![LibraryItem::Category(inner), doc("c", 5)], false);
    assert_eq!(outer.size(false), 35);
    let item = LibraryItem::Category(outer);
    assert_eq!(item.size(false), 35);
    assert_eq!(item.size(true), 35);
}

#[test]
fn disabled_category_counts_zero() {
    let mut inner = LibraryItem::Category(cat("inner", vec![doc("a", 10)], false));
    inner.set_enabled(false);
    let outer = cat("outer", vec![inner, doc("c", 5)], false);
    assert_eq!(outer.size(true), 5);
    assert_eq!(outer.size(false), 15);
    assert_eq!(outer.enabled_size(), 5);
}

#[test]
fn single_selection_keeps_first_downloadable() {
    let c = cat("s", vec![doc("a", 1), doc("b", 2), doc("c", 3)], true);
    assert_eq!(enabled(&c), vec![true, false, false]);
    let c2 = cat("s", vec![rsync_doc("r", 1, false), doc("b", 2), doc("c", 3)], true);
    assert_eq!(enabled(&c2), vec![false, true, false]);
}

#[test]
fn toggle_twice_restores_leaf() {
    let mut c = cat("m", vec![doc("a", 1), doc("b", 2)], false);
    c.counter.set_selected(1);
    c.toggle_selected_item();
    assert_eq!(enabled(&c), vec![true, false]);
    c.toggle_selected_item();
    assert_eq!(enabled(&c), vec![true, true]);
}

#[test]
fn single_selection_hands_over_to_first_other() {
    let mut c = cat("s", vec![doc("a", 1), doc("b", 2), doc("c", 3)], true);
    c.toggle_selected_item();
    assert_eq!(enabled(&c), vec![false, true, false]);
    c.counter.set_selected(2);
    c.toggle_selected_item();
    assert_eq!(enabled(&c), vec![false, false, true]);
}

#[test]
fn single_selection_last_downloadable_can_be_dropped() {
    let mut c = cat("s", vec![doc("a", 1), rsync_doc("r", 2, false)], true);
    c.toggle_selected_item();
    assert_eq!(enabled(&c), vec![false, false]);
}

#[test]
fn toggle_all_flips_or_leaves_single() {
    let mut c = cat("m", vec![doc("a", 1), rsync_doc("r", 2, false)], false);
    c.toggle_all_items();
    assert_eq!(enabled(&c), vec![false, false]);
    c.toggle_all_items();
    assert_eq!(enabled(&c), vec![true, false]);
    let mut s = cat("s", vec![doc("a", 1), doc("b", 2)], true);
    s.toggle_all_items();
    assert_eq!(enabled(&s), vec![true, false]);
}

#[test]
fn counter_next_cycles() {
    let mut c = StatefulListCounter::new(3);
    c.set_selected(1);
    for _ in 0..3 {
        c.next();
    }
    assert_eq!(c.selected(), 1);
    c.set_selected(0);
    c.previous();
    assert_eq!(c.selected(), 2);
    c.set_selected(9);
    assert_eq!(c.selected(), 2);
    assert_eq!(c.size(), 3);
}

#[test]
fn fresh_counter_reads_first_row() {
    let mut c = StatefulListCounter::new(4);
    assert_eq!(c.current(), 0);
    c.next();
    assert_eq!(c.selected(), 0);
    let mut d = StatefulListCounter::new(4);
    assert_eq!(d.selected(), 0);
    d.next();
    assert_eq!(d.selected(), 1);
}

#[test]
fn sort_round_trip_restores_order() {
    let mut c = cat("m", vec![doc("delta", 1), doc("alpha", 40), doc("charlie", 30), doc("bravo", 20)], false);
    c.counter.set_selected(2);
    c.sort(SortStyle::Alphabetical);
    assert_eq!(names(&c), vec!["alpha", "bravo", "charlie", "delta"]);
    assert_eq!(c.items[c.counter.current()].name(), "charlie");
    let first = names(&c);
    c.sort(SortStyle::Size);
    assert_eq!(names(&c), vec!["alpha", "charlie", "bravo", "delta"]);
    assert_eq!(c.items[c.counter.current()].name(), "charlie");
    c.sort(SortStyle::Alphabetical);
    assert_eq!(names(&c), first);
    assert_eq!(c.items[c.counter.current()].name(), "charlie");
}

#[test]
fn sort_from_first_row_keeps_position() {
    let mut c = cat("m", vec![doc("b", 1), doc("a", 2)], false);
    c.sort(SortStyle::Alphabetical);
    assert_eq!(names(&c), vec!["a", "b"]);
    assert_eq!(c.counter.current(), 0);
}

#[test]
fn sort_by_size_uses_chosen_size() {
    let mut off = doc("big", 100);
    off.set_enabled(false);
    let mut c = cat("m", vec![off, doc("small", 1), doc("mid", 50)], false);
    c.sort(SortStyle::Size);
    assert_eq!(names(&c), vec!["mid", "small", "big"]);
}

#[test]
fn merge_same_named_categories() {
    let mut root = cat("root", vec![], false);
    root.add(LibraryItem::Category(cat("Tools", vec![doc("DocA", 1)], false)));
    root.add(LibraryItem::Category(cat("tools", vec![doc("DocB", 2)], false)));
    assert_eq!(root.items.len(), 1);
    match &root.items[0] {
        LibraryItem::Category(tools) => {
            assert_eq!(tools.name(), "Tools");
            assert_eq!(names(tools), vec!["DocA", "DocB"]);
            assert_eq!(tools.counter.size(), 2);
        }
        LibraryItem::Document(_) => panic!("expected a category"),
    }
}

#[test]
fn empty_category_is_discarded() {
    let mut root = cat("root", vec![doc("a", 1)], false);
    root.add(LibraryItem::Category(cat("Empty", vec![], false)));
    assert_eq!(names(&root), vec!["a"]);
}

#[test]
fn add_to_single_selection_drops_new_item() {
    let mut s = cat("s", vec![doc("a", 1)], true);
    s.add(doc("b", 2));
    assert_eq!(enabled(&s), vec![true, false]);
    let mut empty = cat("s", vec![], true);
    empty.add(doc("x", 1));
    assert_eq!(enabled(&empty), vec![true]);
}

#[test]
fn navigator_stops_above_last_category() {
    let b = cat("B", vec![doc("D", 1)], false);
    let a = cat("A", vec![LibraryItem::Category(b)], false);
    let mut root = cat("root", vec![LibraryItem::Category(a)], false);
    assert!(root.is_selected_category());
    assert!(!root.is_selected_last());
    let (node, rest) = root.get_selected_category(2);
    assert_eq!(node.name(), "A");
    assert_eq!(rest, 1);
    let (node0, rest0) = root.get_selected_category(0);
    assert_eq!(node0.name(), "root");
    assert_eq!(rest0, 0);
}

#[test]
fn navigator_reports_overshoot_at_document() {
    let mut root = cat("root", vec![doc("d", 1)], false);
    let (node, rest) = root.get_selected_category(1);
    assert_eq!(node.name(), "root");
    assert_eq!(rest, 2);
}

#[test]
fn human_readable_sizes() {
    assert_eq!(doc("a", 1024).human_readable_size(), "1 kB");
    assert_eq!(doc("a", 1536).human_readable_size(), "1.50 kB");
    let c = cat("c", vec![doc("a", 500)], false);
    assert_eq!(c.human_readable_size(), "500 B");
}

#[test]
fn name_comparisons() {
    assert!(names_match("Tools", "tOOLS"));
    assert!(!names_match("Tools", "Tool"));
    assert!(!names_match("é", "É"));
    assert!(name_less("a", "b"));
    assert!(name_less("ab", "abc"));
    assert!(!name_less("b", "B"));
    assert!(!name_less("x", "x"));
}

#[test]
fn rsync_addresses() {
    assert_eq!(rsync_url("http://host/path"), "rsync://host/path");
    assert_eq!(rsync_url("rsync://host/path"), "rsync://host/path");
    assert_eq!(rsync_url("host/path"), "rsync://host/path");
    assert_eq!(last_url_segment("http://a/b/c.iso"), "c.iso");
    assert_eq!(last_url_segment("plain"), "plain");
    assert_eq!(last_url_segment("dir/"), "");
    assert_eq!(join_path("out", "x"), "out/x");
}

#[test]
fn download_plan_follows_choices() {
    let mut skipped = doc("skip", 1);
    skipped.set_enabled(false);
    let either = LibraryItem::Document(Document::new(
        "mirror".to_string(),
        "http://m.org/mirror".to_string(),
        9,
        DownloadType::Either,
        true,
    ));
    let sub = cat("Sub", vec![doc("a", 1), skipped, either], false);
    let root = cat("root", vec![LibraryItem::Category(sub), rsync_doc("r", 2, true)], false);
    let steps = plan_download("lib", &root, false);
    assert_eq!(steps.len(), 4);
    match &steps[0] {
        DownloadStep::CreateFolder(p) => assert_eq!(p, "lib/Sub"),
        _ => panic!("expected a folder"),
    }
    match &steps[1] {
        DownloadStep::Http { url, path } => {
            assert_eq!(url, "http://example.org/files/a.iso");
            assert_eq!(path, "lib/Sub/a.iso");
        }
        _ => panic!("expected an HTTP fetch"),
    }
    match &steps[2] {
        DownloadStep::Rsync { url, path } => {
            assert_eq!(url, "rsync://m.org/mirror");
            assert_eq!(path, "lib/Sub/mirror");
        }
        _ => panic!("expected rsync"),
    }
    match &steps[3] {
        DownloadStep::Rsync { url, path } => {
            assert_eq!(url, "rsync://example.org/r");
            assert_eq!(path, "lib/r");
        }
        _ => panic!("expected rsync"),
    }
    let http_steps = plan_download("lib", &root, true);
    match &http_steps[2] {
        DownloadStep::Http { path, .. } => assert_eq!(path, "lib/Sub/mirror"),
        _ => panic!("expected an HTTP fetch"),
    }
}

#[test]
fn build_library_merges_and_enables() {
    let items = vec![
        LibraryItem::Category(cat("Maps", vec![doc("m1", 1)], false)),
        LibraryItem::Category(cat("maps", vec![doc("m2", 2)], false)),
        LibraryItem::Category(cat("Nothing", vec![], false)),
        doc("readme", 3),
    ];
    let root = build_library("Library".to_string(), items);
    assert_eq!(root.name(), "Library");
    assert_eq!(names(&root), vec!["Maps", "readme"]);
    assert_eq!(root.size(false), 6);
    assert_eq!(root.counter.size(), 2);
    assert!(root.items.iter().all(|i| i.enabled()));
}

fn sample_app() -> App {
    let tools = cat("Tools", vec![doc("zip", 4), doc("editor", 8)], false);
    let os = cat("Systems", vec![doc("linux", 30), doc("bsd", 20)], true);
    let root = cat("root", vec![LibraryItem::Category(tools), LibraryItem::Category(os), doc("notes", 1)], false);
    App::new(root)
}

#[test]
fn app_starts_sorted_at_top() {
    let app = sample_app();
    assert_eq!(app.depth, 0);
    assert_eq!(names(&app.category), vec!["Systems", "Tools", "notes"]);
    match &app.category.items[1] {
        LibraryItem::Category(tools) => assert_eq!(names(tools), vec!["editor", "zip"]),
        LibraryItem::Document(_) => panic!("expected a category"),
    }
}

#[test]
fn app_keys_navigate_and_toggle() {
    let mut app = sample_app();
    update(&mut app, Key::Down, false);
    assert_eq!(app.category.counter.current(), 1);
    update(&mut app, Key::Right, false);
    assert_eq!(app.depth, 1);
    update(&mut app, Key::Down, false);
    update(&mut app, Key::Char(' '), false);
    match &app.category.items[1] {
        LibraryItem::Category(tools) => {
            assert_eq!(tools.counter.current(), 1);
            assert_eq!(enabled(tools), vec![true, false]);
        }
        LibraryItem::Document(_) => panic!("expected a category"),
    }
    update(&mut app, Key::Right, false);
    assert_eq!(app.depth, 1);
    update(&mut app, Key::Left, false);
    assert_eq!(app.depth, 0);
    update(&mut app, Key::End, false);
    assert_eq!(app.category.counter.current(), 2);
    update(&mut app, Key::Home, false);
    assert_eq!(app.category.counter.current(), 0);
    update(&mut app, Key::Enter, false);
    assert!(app.download);
    update(&mut app, Key::Esc, false);
    assert!(!app.download);
    update(&mut app, Key::Char('c'), false);
    assert!(!app.should_quit);
    update(&mut app, Key::Char('c'), true);
    assert!(app.should_quit);
}

#[test]
fn app_sort_style_switches() {
    let mut app = sample_app();
    update(&mut app, Key::Char('s'), false);
    assert_eq!(app.sort_style, SortStyle::Size);
    assert_eq!(names(&app.category), vec!["Systems", "Tools", "notes"]);
    match &app.category.items[0] {
        LibraryItem::Category(os) => assert_eq!(names(os), vec!["linux", "bsd"]),
        LibraryItem::Document(_) => panic!("expected a category"),
    }
    update(&mut app, Key::Tab, false);
    assert_eq!(enabled(&app.category), vec![false, false, false]);
}

#[test]
fn sort_keeps_ties_in_order() {
    let mut c = cat("m", vec![doc("x", 5), doc("b", 7), doc("a", 5), doc("y", 5)], false);
    c.sort(SortStyle::Size);
    assert_eq!(names(&c), vec!["b", "x", "a", "y"]);
    let mut d = cat("n", vec![doc("same", 1), doc("Same", 2), doc("same", 3)], false);
    d.sort(SortStyle::Alphabetical);
    let sizes: Vec<u64> = d.items.iter().map(|i| i.size(false)).collect();
    assert_eq!(sizes, vec![2, 1, 3]);
}

#[test]
fn checked_size_reports_overflow() {
    let big = cat("big", vec![doc("a", u64::MAX), doc("b", 1)], false);
    assert_eq!(big.checked_size(), None);
    let fine = cat("fine", vec![doc("a", u64::MAX - 1), doc("b", 1)], false);
    assert_eq!(fine.checked_size(), Some(u64::MAX));
}

#[test]
fn populated_needs_children_everywhere() {
    let hollow = cat("root", vec![LibraryItem::Category(cat("Empty", vec![], false))], false);
    assert!(!hollow.is_populated());
    assert!(!cat("root", vec![], false).is_populated());
    let full = cat("root", vec![LibraryItem::Category(cat("A", vec![doc("a", 1)], false))], false);
    assert!(full.is_populated());
}

#[test]
fn fix_counter_highlights_first_rows() {
    let mut c = cat("root", vec![LibraryItem::Category(cat("A", vec![doc("a", 1), doc("b", 2)], false)), doc("c", 3)], false);
    c.counter.set_selected(1);
    c.fix_counter();
    assert_eq!(c.counter.current(), 0);
    match &c.items[0] {
        LibraryItem::Category(a) => {
            assert_eq!(a.counter.size(), 2);
            assert_eq!(a.counter.current(), 0);
        }
        LibraryItem::Document(_) => panic!("expected a category"),
    }
}

#[test]
fn set_enabled_recursive_skips_single_selection_children() {
    let mut single = cat("s", vec![doc("a", 1), doc("b", 2)], true);
    single.toggle_all_items();
    let mut item = LibraryItem::Category(single);
    item.set_enabled(false);
    item.set_enabled_recursive();
    assert!(item.enabled());
    match &item {
        LibraryItem::Category(s) => assert_eq!(enabled(s), vec![true, false]),
        LibraryItem::Document(_) => panic!("expected a category"),
    }
    let mut plain = LibraryItem::Category(cat("p", vec![doc("a", 1), rsync_doc("r", 2, false)], false));
    if let LibraryItem::Category(p) = &mut plain {
        p.toggle_all_items();
    }
    plain.set_enabled_recursive();
    match &plain {
        LibraryItem::Category(p) => assert_eq!(enabled(p), vec![true, false]),
        LibraryItem::Document(_) => panic!("expected a category"),
    }
}

#[test]
fn sort_by_size_counts_dropped_category_as_zero() {
    let mut dropped = LibraryItem::Category(cat("dropped", vec![doc("file", 10)], false));
    dropped.set_enabled(false);
    let mut c = cat("m", vec![dropped, doc("five", 5)], false);
    c.sort(SortStyle::Size);
    assert_eq!(names(&c), vec!["five", "dropped"]);
}

#[test]
fn add_recomputes_the_chosen_flag() {
    let mut root = cat("root", vec![], false);
    assert!(!root.enabled);
    root.add(rsync_doc("r", 1, false));
    assert!(!root.enabled);
    root.add(doc("a", 1));
    assert!(root.enabled);
    root.add(LibraryItem::Category(cat("Empty", vec![], false)));
    assert!(root.enabled);
}

#[test]
fn merge_into_single_selection_keeps_child_flags() {
    let a = LibraryItem::Category(cat("A", vec![doc("a", 1)], false));
    let b = LibraryItem::Category(cat("B", vec![rsync_doc("r", 1, false)], false));
    let mut s = cat("s", vec![a, b], true);
    assert_eq!(enabled(&s), vec![true, false]);
    s.add(LibraryItem::Category(cat("b", vec![doc("x", 2)], false)));
    assert_eq!(enabled(&s), vec![true, false]);
    match &s.items[1] {
        LibraryItem::Category(b) => assert_eq!(names(b), vec!["r", "x"]),
        LibraryItem::Document(_) => panic!("expected a category"),
    }
    let mut plain = cat("p", vec![LibraryItem::Category(cat("B", vec![rsync_doc("r", 1, false)], false))], false);
    assert_eq!(enabled(&plain), vec![false]);
    plain.add(LibraryItem::Category(cat("B", vec![doc("x", 2)], false)));
    assert_eq!(enabled(&plain), vec![true]);
}

#[test]
fn other_keys_change_nothing() {
    let mut app = sample_app();
    update(&mut app, Key::Char('x'), false);
    update(&mut app, Key::Other, false);
    assert_eq!(app.depth, 0);
    assert!(!app.should_quit && !app.download);
    assert_eq!(enabled(&app.category), vec![true, true, true]);
}

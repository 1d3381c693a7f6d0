use rustitude::cache::ScanCache;
use rustitude::chart::{segments_for, Chart};
use rustitude::entry::{check_height, check_wf, Entry};
use rustitude::hittest::{hit_test, Hover};
use rustitude::layout::{layout, Segment, MIN_SWEEP_UNITS, TAU_UNITS};
use rustitude::materialize::materialize;
use rustitude::nav::NavStack;
use rustitude::scan::{scan_entries, FsItem};
use rustitude::worker::{ScanEvent, Worker};

fn file(p: &str, size: u64) -> FsItem {
    FsItem::File {
        path: p.to_string(),
        size,
    }
}

fn dir(p: &str, entries: Vec<FsItem>) -> FsItem {
    FsItem::Dir {
        path: p.to_string(),
        entries,
    }
}

fn leaf(p: &str, size: u64, is_dir: bool) -> Entry {
    Entry {
        path: p.to_string(),
        size,
        is_dir,
        children: Vec::new(),
    }
}

const ROOT: &str = "/scan";

fn small_tree() -> Vec<FsItem> {
    vec![
        file("/scan/A", 3_000_000),
        dir("/scan/B", vec![file("/scan/B/C", 1_000_000)]),
    ]
}

#[test]
fn scenario_full_scan_materialize_layout() {
    let mut w = Worker::new(None);
    let (total, done) = scan_entries(&mut w, &ROOT.to_string(), &small_tree(), 0);
    assert_eq!(total, 4_000_000);
    assert!(done);
    assert_eq!(w.total, 4_000_000);

    let root = materialize(&w.cache, &ROOT.to_string(), w.total, 20, 10);
    assert_eq!(root.path, "/scan");
    assert_eq!(root.size, 4_000_000);
    assert_eq!(root.children.len(), 2);
    assert_eq!(root.children[0].path, "/scan/A");
    assert_eq!(root.children[0].size, 3_000_000);
    assert!(!root.children[0].is_dir);
    assert_eq!(root.children[1].path, "/scan/B");
    assert_eq!(root.children[1].size, 1_000_000);
    assert!(root.children[1].is_dir);
    assert_eq!(root.children[1].children.len(), 1);
    assert_eq!(root.children[1].children[0].path, "/scan/B/C");

    assert!(check_wf(&root));
    let segs = layout(&root, 60, 40, 0, TAU_UNITS);
    assert_eq!(segs.len(), 3);
    // A gets three quarters of the circle, B the rest, C all of B's arc.
    assert_eq!(segs[0].path, "/scan/A");
    assert_eq!(segs[0].start_angle, 0);
    assert_eq!(segs[0].sweep_angle, 4_712_388_980);
    assert_eq!(segs[0].inner_radius, 40);
    assert_eq!(segs[0].outer_radius, 60);
    assert_eq!(segs[1].path, "/scan/B");
    assert_eq!(segs[1].start_angle, 4_712_388_980);
    assert_eq!(segs[1].sweep_angle, 1_570_796_326);
    assert_eq!(segs[2].path, "/scan/B/C");
    assert_eq!(segs[2].start_angle, 4_712_388_980);
    assert_eq!(segs[2].sweep_angle, 1_570_796_326);
    assert_eq!(segs[2].inner_radius, 60);
    assert_eq!(segs[2].outer_radius, 80);
}

#[test]
fn scenario_cancel_after_first_file() {
    let mut w = Worker::new(Some(1));
    let (total, done) = scan_entries(&mut w, &ROOT.to_string(), &small_tree(), 0);
    assert_eq!(total, 3_000_000);
    assert!(!done);
    assert_eq!(w.total, 3_000_000);
    let under_root = w.cache.get(&ROOT.to_string()).unwrap();
    assert_eq!(under_root.len(), 1);
    assert_eq!(under_root[0].path, "/scan/A");
    assert_eq!(under_root[0].size, 3_000_000);
    assert!(!under_root[0].is_dir);
    assert!(w.cache.get(&"/scan/B".to_string()).is_none());
}

#[test]
fn aggregation_sums_all_descendant_files() {
    let items = vec![
        dir(
            "/scan/d1",
            vec![
                file("/scan/d1/f1", 5),
                dir("/scan/d1/d2", vec![file("/scan/d1/d2/f2", 7)]),
            ],
        ),
        file("/scan/f3", 11),
    ];
    let mut w = Worker::new(None);
    let (total, done) = scan_entries(&mut w, &ROOT.to_string(), &items, 0);
    assert!(done);
    assert_eq!(total, 23);
    assert_eq!(w.total, 23);
    // the directory event under the root carries the exact subtree sum
    let under_root = w.cache.get(&ROOT.to_string()).unwrap();
    assert_eq!(under_root.len(), 2);
    assert_eq!(under_root[0].path, "/scan/d1");
    assert_eq!(under_root[0].size, 12);
    assert!(under_root[0].is_dir);
    assert_eq!(under_root[1].path, "/scan/f3");
    // post-order: d2's event is recorded before d1's
    let under_d1 = w.cache.get(&"/scan/d1".to_string()).unwrap();
    assert_eq!(under_d1.len(), 2);
    assert_eq!(under_d1[0].path, "/scan/d1/f1");
    assert_eq!(under_d1[1].path, "/scan/d1/d2");
    assert_eq!(under_d1[1].size, 7);
}

#[test]
fn cancellation_between_events_of_a_directory() {
    // budget 2: f1 and f2's events are recorded, d2's own event is not
    let items = vec![dir(
        "/scan/d1",
        vec![
            file("/scan/d1/f1", 5),
            dir("/scan/d1/d2", vec![file("/scan/d1/d2/f2", 7)]),
        ],
    )];
    let mut w = Worker::new(Some(2));
    let (total, done) = scan_entries(&mut w, &ROOT.to_string(), &items, 0);
    assert!(!done);
    // d1's level accumulated f1 and d2 before the cancellation was observed,
    // but the canceled recursion contributes nothing at the root level
    assert_eq!(total, 0);
    assert_eq!(w.total, 12);
    assert_eq!(w.events_seen, 2);
    assert!(w.cache.get(&ROOT.to_string()).is_none());
    let under_d1 = w.cache.get(&"/scan/d1".to_string()).unwrap();
    assert_eq!(under_d1.len(), 1);
    assert_eq!(under_d1[0].path, "/scan/d1/f1");
    let under_d2 = w.cache.get(&"/scan/d1/d2".to_string()).unwrap();
    assert_eq!(under_d2.len(), 1);
    assert_eq!(under_d2[0].path, "/scan/d1/d2/f2");
}

#[test]
fn materializer_caps_and_orders_children() {
    let mut cache = ScanCache::new();
    let parent = ROOT.to_string();
    for (name, size) in [("a", 5u64), ("b", 9), ("c", 5), ("d", 9)] {
        cache.record(
            &parent,
            rustitude::cache::ChildRec {
                path: format!("/scan/{}", name),
                size,
                is_dir: false,
            },
        );
    }
    let root = materialize(&cache, &parent, 28, 3, 10);
    // size descending, ties by discovery order, capped at three
    assert_eq!(root.children.len(), 3);
    assert_eq!(root.children[0].path, "/scan/b");
    assert_eq!(root.children[1].path, "/scan/d");
    assert_eq!(root.children[2].path, "/scan/a");
}

#[test]
fn materializer_skips_self_reference_and_missing_paths() {
    let mut cache = ScanCache::new();
    let parent = ROOT.to_string();
    cache.record(
        &parent,
        rustitude::cache::ChildRec {
            path: ROOT.to_string(),
            size: 99,
            is_dir: true,
        },
    );
    cache.record(
        &parent,
        rustitude::cache::ChildRec {
            path: "/scan/sub".to_string(),
            size: 7,
            is_dir: true,
        },
    );
    let root = materialize(&cache, &parent, 106, 20, 10);
    // the self-referential record is dropped; the unscanned directory gets no children
    assert_eq!(root.children.len(), 1);
    assert_eq!(root.children[0].path, "/scan/sub");
    assert_eq!(root.children[0].children.len(), 0);
}

#[test]
fn materializer_depth_cap() {
    let mut w = Worker::new(None);
    let items = vec![dir(
        "/scan/a",
        vec![dir(
            "/scan/a/b",
            vec![dir("/scan/a/b/c", vec![file("/scan/a/b/c/f", 1)])],
        )],
    )];
    let (_, done) = scan_entries(&mut w, &ROOT.to_string(), &items, 0);
    assert!(done);
    // max_depth 2: nodes at nesting depth 1 and 2 below the root, no deeper,
    // even though the cache holds data three levels down
    let root = materialize(&w.cache, &ROOT.to_string(), w.total, 20, 2);
    assert_eq!(root.children.len(), 1);
    let a = &root.children[0];
    assert_eq!(a.children.len(), 1);
    let b = &a.children[0];
    assert_eq!(b.children.len(), 0);
    // max_depth 1: only the root's direct children
    let shallow = materialize(&w.cache, &ROOT.to_string(), w.total, 20, 1);
    assert_eq!(shallow.children.len(), 1);
    assert_eq!(shallow.children[0].children.len(), 0);
    // max_depth 0: a bare root
    let bare = materialize(&w.cache, &ROOT.to_string(), w.total, 20, 0);
    assert_eq!(bare.children.len(), 0);
}

#[test]
fn layout_filters_thin_slices_but_keeps_positions() {
    // an unsorted tree handed straight to the layout: the thin child is
    // dropped, yet the big one still starts after the thin one's sweep
    let root = Entry {
        path: ROOT.to_string(),
        size: 1000,
        is_dir: true,
        children: vec![leaf("/scan/tiny", 1, false), leaf("/scan/big", 900, false)],
    };
    assert!(check_wf(&root));
    let tiny_sweep = (TAU_UNITS as u128 * 1 / 1000) as u64;
    assert!(tiny_sweep < MIN_SWEEP_UNITS);
    let segs = layout(&root, 60, 40, 0, TAU_UNITS);
    assert_eq!(segs.len(), 1);
    assert_eq!(segs[0].path, "/scan/big");
    assert_eq!(segs[0].start_angle, tiny_sweep);
    assert_eq!(segs[0].sweep_angle, (TAU_UNITS as u128 * 900 / 1000) as u64);
}

#[test]
fn layout_of_zero_sized_root_is_empty() {
    let root = Entry {
        path: ROOT.to_string(),
        size: 0,
        is_dir: true,
        children: Vec::new(),
    };
    let segs = layout(&root, 60, 40, 0, TAU_UNITS);
    assert!(segs.is_empty());
}

fn band_segment(path: &str, inner: u64, outer: u64, start: u64, sweep: u64) -> Segment {
    Segment {
        path: path.to_string(),
        size: 1,
        is_dir: false,
        inner_radius: inner,
        outer_radius: outer,
        start_angle: start,
        sweep_angle: sweep,
        node: Vec::new(),
    }
}

#[test]
fn hit_test_center_has_priority() {
    let segs = vec![band_segment("/scan/x", 0, 60, 0, TAU_UNITS)];
    // squared distance exactly on the center radius still hits the center
    assert!(matches!(hit_test(1600, 1, 40, &segs), Hover::Center));
    assert!(matches!(hit_test(0, 0, 40, &segs), Hover::Center));
    // just outside it, the ring takes over
    assert!(matches!(hit_test(1601, 1, 40, &segs), Hover::Segment(0)));
}

#[test]
fn hit_test_picks_one_segment_or_none() {
    let half = TAU_UNITS / 2;
    let segs = vec![
        band_segment("/scan/a", 40, 60, 0, half),
        band_segment("/scan/b", 40, 60, half, TAU_UNITS - half),
        band_segment("/scan/deep", 60, 80, 0, half),
    ];
    // inside the first band, first half of the circle
    assert!(matches!(hit_test(2500, 10, 40, &segs), Hover::Segment(0)));
    // the shared angular border belongs to the later segment
    assert!(matches!(hit_test(2500, half, 40, &segs), Hover::Segment(1)));
    // same angle, outer band
    assert!(matches!(hit_test(4900, 10, 40, &segs), Hover::Segment(2)));
    // the outer band covers only the first half of the circle
    assert!(matches!(hit_test(4900, half + 5, 40, &segs), Hover::Miss));
    // radius boundary: exactly on an inner radius is outside that segment
    assert!(matches!(hit_test(1600, 10, 30, &segs), Hover::Miss));
}

#[test]
fn navigation_stack_front_and_clear() {
    let scan_root = leaf("/scan", 10, true);
    let mut nav = NavStack::new();
    assert_eq!(nav.current_root(&scan_root).path, "/scan");
    nav.expand(leaf("/scan/a", 4, true));
    nav.expand(leaf("/scan/a/b", 2, true));
    assert_eq!(nav.current_root(&scan_root).path, "/scan/a/b");
    nav.collapse();
    assert_eq!(nav.current_root(&scan_root).path, "/scan/a");
    nav.collapse();
    assert_eq!(nav.current_root(&scan_root).path, "/scan");
    // collapsing at the scan root stays put
    nav.collapse();
    assert_eq!(nav.current_root(&scan_root).path, "/scan");
    nav.expand(leaf("/scan/a", 4, true));
    nav.clear();
    assert_eq!(nav.current_root(&scan_root).path, "/scan");
}

#[test]
fn worker_throttles_progress_by_directory_events() {
    let mut w = Worker::new(None);
    assert!(!w.should_publish());
    for i in 0..300u64 {
        let ev = ScanEvent {
            parent: ROOT.to_string(),
            path: format!("/scan/d{}", i),
            is_dir: true,
            size: 0,
        };
        assert!(w.observe(&ev));
        if i < 299 {
            assert!(!w.should_publish());
        }
    }
    assert!(w.should_publish());
    // a file event does not advance the throttle
    let ev = ScanEvent {
        parent: ROOT.to_string(),
        path: "/scan/f".to_string(),
        is_dir: false,
        size: 1,
    };
    assert!(w.observe(&ev));
    assert!(w.should_publish());
}

#[test]
fn chart_drill_down_and_hover() {
    let mut w = Worker::new(None);
    let (_, done) = scan_entries(&mut w, &ROOT.to_string(), &small_tree(), 0);
    assert!(done);
    let root = materialize(&w.cache, &ROOT.to_string(), w.total, 20, 10);

    let mut chart = Chart::new();
    assert!(!chart.accept);
    chart.refresh_segments(&root);
    assert_eq!(chart.segments.len(), 3);
    // interaction is ignored until the scan has finished
    chart.expand(leaf("/scan/elsewhere", 1, true));
    assert!(chart.nav.stack.is_empty());
    assert_eq!(chart.segments.len(), 3);
    chart.collapse(&root);
    assert_eq!(chart.segments.len(), 3);
    chart.finish_scan();
    assert!(chart.accept);

    // hover over A's wedge: radius 50, angle well inside the first quarter
    match chart.hover(2500, 10) {
        Hover::Segment(i) => assert_eq!(chart.segments[i].path, "/scan/A"),
        _ => panic!("expected a segment"),
    }
    assert!(matches!(chart.hover(100, 10), Hover::Center));

    // drill into B: its child C fills the whole circle one ring out
    let b = Entry {
        path: root.children[1].path.clone(),
        size: root.children[1].size,
        is_dir: true,
        children: vec![leaf("/scan/B/C", 1_000_000, false)],
    };
    chart.expand(b);
    assert_eq!(chart.segments.len(), 1);
    assert_eq!(chart.segments[0].path, "/scan/B/C");
    assert_eq!(chart.segments[0].sweep_angle, TAU_UNITS);

    chart.collapse(&root);
    assert_eq!(chart.segments.len(), 3);
    chart.reset();
    assert!(chart.segments.is_empty());
    assert!(!chart.accept);
}

#[test]
fn malformed_snapshot_draws_nothing() {
    // children claim more bytes than the node: not a snapshot of any scan
    let bad = Entry {
        path: ROOT.to_string(),
        size: 5,
        is_dir: true,
        children: vec![leaf("/scan/a", 4, false), leaf("/scan/b", 4, false)],
    };
    assert!(!check_wf(&bad));
    assert!(check_height(&bad, 2));
    assert!(!check_height(&bad, 1));
    assert!(segments_for(&bad).is_empty());

    let good = leaf(ROOT, 5, true);
    assert!(check_wf(&good));
    assert!(segments_for(&good).is_empty());
}

#[test]
fn canceled_scan_still_yields_well_formed_snapshot() {
    // cancellation drops a half-scanned directory's own event, so its cache
    // list never has a parent record and the snapshot stays well-formed
    let items = vec![
        file("/scan/A", 3_000_000),
        dir("/scan/B", vec![file("/scan/B/C", 1_000_000)]),
        file("/scan/D", 9),
    ];
    for budget in 0..5u64 {
        let mut w = Worker::new(Some(budget));
        scan_entries(&mut w, &ROOT.to_string(), &items, 0);
        let root = materialize(&w.cache, &ROOT.to_string(), w.total, 20, 10);
        assert!(check_wf(&root));
        let segs = segments_for(&root);
        // with at least one event recorded, A's wedge is always wide enough
        assert_eq!(segs.is_empty(), budget == 0);
    }
}

#[test]
fn cache_appends_in_discovery_order() {
    let mut cache = ScanCache::new();
    let p1 = "/scan/x".to_string();
    let p2 = "/scan/y".to_string();
    for i in 0..4u64 {
        cache.record(
            if i % 2 == 0 { &p1 } else { &p2 },
            rustitude::cache::ChildRec {
                path: format!("/scan/c{}", i),
                size: i,
                is_dir: false,
            },
        );
    }
    let under_x = cache.get(&p1).unwrap();
    assert_eq!(under_x.len(), 2);
    assert_eq!(under_x[0].path, "/scan/c0");
    assert_eq!(under_x[1].path, "/scan/c2");
    let under_y = cache.get(&p2).unwrap();
    assert_eq!(under_y[0].path, "/scan/c1");
    assert_eq!(under_y[1].path, "/scan/c3");
    assert!(cache.get(&"/scan/z".to_string()).is_none());
}

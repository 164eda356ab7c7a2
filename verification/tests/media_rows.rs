use editorcito::media_browser::{rows, Kind, Options, Proxy, Sort, Use};
use std::path::Path;

fn components(path: &str) -> Vec<String> {
    Path::new(path)
        .components()
        .map(|c| c.as_os_str().to_string_lossy().into_owned())
        .collect()
}

fn used(index: usize, path: &str, name: &str) -> Use {
    Use {
        index,
        path: path.into(),
        components: components(path),
        name: name.into(),
        kind: Kind::Video,
        duration: 10.0_f64.to_bits(),
        start: (index as f64).to_bits(),
        track: 0,
        offline: false,
        proxy: Proxy::Unlinked,
    }
}

#[test]
fn token_search_preserves_all_uses_and_full_duration() {
    let mut first = used(0, "D:/RUSHES/scene.mov", "Wide");
    first.duration = 30.0_f64.to_bits();
    let rows_found = rows(
        vec![first, used(1, "D:/RUSHES/scene.mov", "Close")],
        "close RUSHES",
        &Options::default(),
    );
    assert_eq!(rows_found.len(), 1);
    assert_eq!(rows_found[0].uses, [0, 1]);
    assert_eq!(f64::from_bits(rows_found[0].duration), 30.0);
    assert!(rows(vec![used(0, "a", "Wide")], "wide absent", &Options::default()).is_empty());
}

#[test]
fn filters_intersect_without_losing_mixed_proxy_uses() {
    let mut missing = used(0, "a", "A");
    missing.offline = true;
    missing.proxy = Proxy::Missing;
    let mut available = used(1, "a", "A");
    available.proxy = Proxy::Available;
    let options = Options {
        offline_only: true,
        proxy: Proxy::Missing,
        kind: Kind::Video,
        ..Options::default()
    };
    let found = rows(vec![missing, available, used(2, "b", "B")], "", &options);
    assert_eq!(found.len(), 1);
    assert_eq!(found[0].uses, [0, 1]);
    assert_eq!(found[0].proxies, [0, 1, 1]);
}

#[test]
fn generated_items_stay_separate_and_have_no_proxy_state() {
    let make = || {
        (0..2)
            .map(|i| {
                let mut u = used(i, "", "Title");
                u.kind = Kind::Generated;
                u
            })
            .collect::<Vec<_>>()
    };
    assert_eq!(
        rows(make(), "", &Options { kind: Kind::Generated, ..Options::default() }).len(),
        2
    );
    assert!(rows(make(), "", &Options { proxy: Proxy::Unlinked, ..Options::default() }).is_empty());
    assert!(rows(make(), "", &Options { offline_only: true, ..Options::default() }).is_empty());
}

#[test]
fn audio_filter_excludes_video() {
    let mut audio = used(1, "b.wav", "B");
    audio.kind = Kind::Audio;
    let found = rows(
        vec![used(0, "a.mov", "A"), audio],
        "",
        &Options { kind: Kind::Audio, ..Options::default() },
    );
    assert_eq!(found[0].uses, [1]);
    assert_eq!(found.len(), 1);
}

#[test]
fn sorts_are_deterministic_and_reversible() {
    for sort in [Sort::Name, Sort::Duration, Sort::Usage] {
        let found = rows(
            vec![used(1, "b", "same"), used(0, "a", "same")],
            "",
            &Options { sort, descending: true, ..Options::default() },
        );
        assert_eq!(found.iter().map(|r| r.uses[0]).collect::<Vec<_>>(), [0, 1]);
    }
    for sort in [Sort::Name, Sort::Duration, Sort::Usage] {
        let mut a = used(0, "a", "A");
        a.duration = 2.0_f64.to_bits();
        let found = rows(
            vec![a, used(1, "b", "B"), used(2, "b", "B")],
            "",
            &Options { sort, descending: true, ..Options::default() },
        );
        assert_eq!(found[0].path, "b");
    }
}

#[test]
fn navigation_wraps_in_timeline_order_with_stable_ties() {
    let mut early = used(2, "a", "A");
    early.start = 0.0_f64.to_bits();
    early.track = 1;
    let found = rows(vec![used(1, "a", "A"), early, used(0, "a", "A")], "", &Options::default());
    let row = &found[0];
    assert_eq!(row.uses, [0, 2, 1]);
    assert_eq!(row.adjacent(Some(0), false), Some(1));
    assert_eq!(row.adjacent(Some(1), true), Some(0));
    assert_eq!(row.adjacent(Some(0), true), Some(2));
    assert_eq!(row.adjacent(None, true), Some(0));
    assert_eq!(row.adjacent(Some(99), false), Some(1));
}

#[test]
fn single_use_and_empty_results_are_safe() {
    let result = rows(vec![used(4, "a", "A")], "  \t ", &Options::default());
    assert_eq!(result[0].adjacent(Some(4), true), Some(4));
    assert_eq!(result[0].adjacent(None, false), Some(4));
    assert!(rows(Vec::new(), "", &Options::default()).is_empty());
    assert!(rows(vec![used(0, "a", "A")], "", &Options { offline_only: true, ..Options::default() }).is_empty());
}

#[test]
fn negative_and_infinite_durations_do_not_grow_a_row() {
    let mut a = used(0, "a", "A");
    a.duration = (-5.0_f64).to_bits();
    let mut b = used(1, "a", "A");
    b.duration = f64::INFINITY.to_bits();
    let mut c = used(2, "a", "A");
    c.duration = f64::NAN.to_bits();
    let found = rows(vec![a, b, c], "", &Options::default());
    assert_eq!(f64::from_bits(found[0].duration), 0.0);
}

#[test]
fn names_sort_without_regard_to_case() {
    let found = rows(
        vec![used(0, "x", "beta"), used(1, "y", "Alpha"), used(2, "z", "gamma")],
        "",
        &Options { sort: Sort::Name, ..Options::default() },
    );
    assert_eq!(found.iter().map(|r| r.name.clone()).collect::<Vec<_>>(), ["Alpha", "beta", "gamma"]);
}

#[test]
fn the_order_the_uses_come_in_does_not_change_the_rows() {
    let mut late = used(3, "b", "B");
    late.start = 1.0_f64.to_bits();
    let uses = vec![used(0, "a", "A"), used(1, "b", "B"), used(2, "a", "A"), late];
    let mut reordered = uses.clone();
    reordered.reverse();
    reordered.swap(0, 2);
    let summary = |found: Vec<editorcito::media_browser::Row>| {
        found.iter().map(|r| (r.path.clone(), r.uses.clone())).collect::<Vec<_>>()
    };
    for sort in [Sort::Name, Sort::Duration, Sort::Usage] {
        let options = Options { sort, ..Options::default() };
        assert_eq!(summary(rows(uses.clone(), "", &options)), summary(rows(reordered.clone(), "", &options)));
    }
}

use editorcito::relink::FolderQueue;
use editorcito::relink::{summarize, MissingMedia, RelinkOutcome, RelinkWalk};
use std::path::Path;

const ROOT: &str = "/tmp/relink";

/// Reports the files of a walk, in the order met, to a search.
fn search(wanted: &Vec<MissingMedia>, files: &[(&str, u64)], max_files: usize) -> RelinkOutcome {
    let mut walk = RelinkWalk::new(wanted, max_files);
    for (relative, bytes) in files {
        let path = format!("{ROOT}/{relative}");
        let p = Path::new(&path);
        let components: Vec<String> = p
            .components()
            .map(|c| c.as_os_str().to_string_lossy().into_owned())
            .collect();
        let name = p.file_name().and_then(|n| n.to_str());
        if !walk.visit_file(name, path.clone(), components, *bytes) {
            break;
        }
    }
    walk.finish(wanted)
}

fn full(relative: &str) -> String {
    format!("{ROOT}/{relative}")
}

#[test]
fn a_moved_shoot_is_resolved_in_one_pass() {
    let files = [
        ("rodaje/dia 2/A001.mov", 5000),
        ("rodaje/comprimidos/A001.mov", 120),
        ("rodaje/audio/ENTREVISTA.WAV", 800),
    ];
    let wanted = vec![
        MissingMedia { key: 0, name: "A001.mov".into(), bytes: 5000 },
        MissingMedia { key: 1, name: "entrevista.wav".into(), bytes: 0 },
        MissingMedia { key: 2, name: "B009.mov".into(), bytes: 100 },
    ];
    let outcome = search(&wanted, &files, 10_000);
    assert_eq!(outcome.found.get(&0), Some(&full("rodaje/dia 2/A001.mov")));
    assert_eq!(outcome.found.get(&1), Some(&full("rodaje/audio/ENTREVISTA.WAV")));
    assert_eq!(outcome.found.get(&2), None);
    assert_eq!(outcome.missing, vec!["B009.mov".to_owned()]);
    assert_eq!(outcome.scanned, 3);
    assert!(!outcome.truncated);
    assert!(summarize(&outcome).starts_with("2 medios revinculados · 1 sin localizar: B009.mov"));
}

#[test]
fn ties_are_broken_the_same_way_every_time() {
    let files = [("A001.mov", 10), ("a/b/A001.mov", 10)];
    let wanted = |bytes| vec![MissingMedia { key: 7, name: "A001.mov".into(), bytes }];
    // Without a useful size the depth decides; with one, the match.
    assert_eq!(search(&wanted(0), &files, 10_000).found.get(&7), Some(&full("A001.mov")));
    assert_eq!(search(&wanted(999), &files, 10_000).found.get(&7), Some(&full("A001.mov")));
    let files = [("A001.mov", 10), ("a/b/A001.mov", 10), ("a/b/B002.mov", 42)];
    let wanted_deep = vec![MissingMedia { key: 8, name: "B002.mov".into(), bytes: 42 }];
    assert_eq!(search(&wanted_deep, &files, 10_000).found.get(&8), Some(&full("a/b/B002.mov")));
}

#[test]
fn nothing_to_look_for_a_missing_folder_and_a_capped_walk_are_all_safe() {
    let files = [("rodaje/A001.mov", 10)];
    assert_eq!(search(&Vec::new(), &files, 10_000), RelinkOutcome::default());

    let wanted = vec![MissingMedia { key: 0, name: "A001.mov".into(), bytes: 10 }];
    let absent = search(&wanted, &[], 10_000);
    assert!(absent.found.is_empty());
    assert_eq!(absent.missing, vec!["A001.mov".to_owned()]);
    assert!(!absent.truncated);

    let capped = search(&wanted, &files, 0);
    assert!(capped.truncated);
    assert_eq!(capped.scanned, 0);
    assert!(capped.found.is_empty());
    assert!(summarize(&capped).contains("demasiado grande"));
}

#[test]
fn the_order_of_the_walk_does_not_change_the_choice() {
    let wanted = vec![MissingMedia { key: 3, name: "clip.MOV".into(), bytes: 7 }];
    let forward = [("x/clip.mov", 7), ("clip.mov", 5), ("b/clip.mov", 7), ("a/clip.mov", 7)];
    let mut backward = forward;
    backward.reverse();
    let one = search(&wanted, &forward, 100);
    let two = search(&wanted, &backward, 100);
    assert_eq!(one.found.get(&3), Some(&full("a/clip.mov")));
    assert_eq!(one.found, two.found);
}

#[test]
fn the_summary_names_at_most_three_missing_media() {
    let outcome = RelinkOutcome {
        found: Default::default(),
        missing: vec!["a".into(), "b".into(), "c".into(), "d".into()],
        scanned: 9,
        truncated: false,
    };
    assert_eq!(summarize(&outcome), "0 medios revinculados · 4 sin localizar: a, b, c");
    let mut one = RelinkOutcome::default();
    one.found.insert(1, "x".into());
    assert_eq!(summarize(&one), "1 medio revinculado");
}

#[test]
fn the_walk_stops_at_the_cap_and_says_so() {
    let wanted = vec![MissingMedia { key: 0, name: "z.mov".into(), bytes: 0 }];
    let files = [("a.mov", 1), ("b.mov", 1), ("z.mov", 1)];
    let capped = search(&wanted, &files, 2);
    assert!(capped.truncated);
    assert_eq!(capped.scanned, 2);
    assert_eq!(capped.missing, vec!["z.mov".to_owned()]);
}

#[test]
fn folders_are_read_in_the_order_they_are_found() {
    let mut queue = FolderQueue::new();
    assert_eq!(queue.next_folder(), Some(0));
    assert!(queue.add_subfolder());
    assert!(queue.add_subfolder());
    assert_eq!(queue.next_folder(), Some(1));
    assert!(queue.add_subfolder());
    assert_eq!(queue.next_folder(), Some(2));
    assert_eq!(queue.next_folder(), Some(3));
    assert_eq!(queue.next_folder(), None);
}

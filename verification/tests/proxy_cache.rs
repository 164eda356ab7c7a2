use editorcito::proxy_cache::{proxy_file_name_of_path, proxy_matches_path, proxy_target_of_path};
use editorcito::proxy_cache::{
    eviction_order, fingerprint_hash, format_size, is_proxy, proxy_file_name, proxy_matches_source,
    proxy_target, usage, BudgetState, BudgetStep, CacheUsage, Eviction, ProxyFile, PROXY_SUFFIX,
};
use std::path::Path;

const DIR: &str = "/cache";

fn path_of(name: &str) -> String {
    format!("{DIR}/{name}")
}

/// What a scan of the folder sees: the files whose name is a proxy's.
fn scan(files: &[(&str, u64, i128)]) -> Vec<ProxyFile> {
    files
        .iter()
        .filter(|(name, _, _)| is_proxy(Some(name)))
        .map(|(name, bytes, accessed)| ProxyFile {
            path: path_of(name),
            bytes: *bytes,
            accessed: *accessed,
        })
        .collect()
}

fn seconds(s: i128) -> i128 {
    s * 1_000_000_000
}

/// Four proxies of 1000 bytes, from the oldest (0) to the newest (3), and a
/// file of the user that never counts.
fn populate() -> (Vec<(String, u64, i128)>, Vec<String>) {
    let mut files: Vec<(String, u64, i128)> = vec![("notas del montaje.mp4".to_owned(), 5, seconds(1))];
    let mut proxies = Vec::new();
    for index in 0..4 {
        let name = format!("clip{index}-{index}{PROXY_SUFFIX}");
        proxies.push(path_of(&name));
        files.push((name, 1000, seconds(1_000 + index * 60)));
    }
    (files, proxies)
}

fn listing(files: &[(String, u64, i128)]) -> Vec<ProxyFile> {
    let borrowed: Vec<(&str, u64, i128)> = files.iter().map(|(n, b, a)| (n.as_str(), *b, *a)).collect();
    scan(&borrowed)
}

/// One pass of the budget, every removal succeeding; returns the report and
/// the removed paths.
fn enforce(entries: Vec<ProxyFile>, limit: u64, in_use: &[String]) -> (Eviction, Vec<String>) {
    let mut state = BudgetState::start(&entries, limit);
    let mut removed = Vec::new();
    for entry in eviction_order(entries) {
        match state.step(in_use.contains(&entry.path)) {
            BudgetStep::Stop => break,
            BudgetStep::Keep => continue,
            BudgetStep::Remove => {
                removed.push(entry.path.clone());
                state.record_removal(entry.bytes);
            }
        }
    }
    (state.outcome(), removed)
}

#[test]
fn usage_counts_only_generated_proxies_and_splits_the_open_project() {
    let (files, proxies) = populate();
    let in_use = vec![proxies[3].clone()];
    let usage = usage(&listing(&files), &in_use);
    assert_eq!(usage.files, 4);
    assert_eq!(usage.total_bytes, 4000);
    assert_eq!(usage.in_use_bytes, 1000);
    assert_eq!(usage.evictable_bytes(), 3000);
    assert!(!is_proxy(Some("notas del montaje.mp4")));
}

#[test]
fn eviction_removes_the_least_recently_used_and_stops_once_it_fits() {
    let (files, proxies) = populate();
    let (eviction, removed) = enforce(listing(&files), 2500, &[]);
    assert_eq!(eviction.removed, 2);
    assert_eq!(eviction.freed_bytes, 2000);
    assert_eq!(eviction.remaining_bytes, 2000);
    assert!(!eviction.over_budget);
    assert_eq!(removed, vec![proxies[0].clone(), proxies[1].clone()]);
}

#[test]
fn linked_proxies_survive_and_the_shortfall_is_reported() {
    let (files, proxies) = populate();
    let in_use = proxies[..2].to_vec();
    let (eviction, removed) = enforce(listing(&files), 1500, &in_use);
    assert!(!removed.contains(&proxies[0]) && !removed.contains(&proxies[1]));
    assert_eq!(eviction.removed, 2);
    assert_eq!(eviction.remaining_bytes, 2000);
    assert!(eviction.over_budget);
}

#[test]
fn a_zero_budget_a_fitting_cache_and_a_missing_folder_leave_everything_alone() {
    let (files, _) = populate();
    assert_eq!(
        enforce(listing(&files), 0, &[]).0,
        Eviction {
            remaining_bytes: 4000,
            ..Eviction::default()
        }
    );
    let (fits, removed) = enforce(listing(&files), 4000, &[]);
    assert_eq!(fits.removed, 0);
    assert!(removed.is_empty());

    // A missing folder lists nothing.
    assert_eq!(usage(&Vec::new(), &Vec::new()), CacheUsage::default());
    assert_eq!(enforce(Vec::new(), 10, &[]).0, Eviction::default());
}

#[test]
fn refreshing_a_reused_proxy_moves_it_out_of_the_eviction_queue() {
    let (mut files, proxies) = populate();
    files[1].2 = seconds(9_999);
    let (eviction, removed) = enforce(listing(&files), 3500, &[]);
    assert_eq!(eviction.removed, 1);
    assert!(!removed.contains(&proxies[0]));
    assert!(removed.contains(&proxies[1]));
}

#[test]
fn equal_stamps_are_evicted_in_path_order() {
    let files = vec![
        ("b-proxy.mp4".to_owned(), 10, seconds(5)),
        ("a-proxy.mp4".to_owned(), 10, seconds(5)),
        ("c-proxy.mp4".to_owned(), 10, seconds(1)),
    ];
    let ordered: Vec<String> = eviction_order(listing(&files)).into_iter().map(|e| e.path).collect();
    assert_eq!(ordered, vec![path_of("c-proxy.mp4"), path_of("a-proxy.mp4"), path_of("b-proxy.mp4")]);
}

fn stem_of(path: &str) -> Option<&str> {
    Path::new(path).file_stem().and_then(|stem| stem.to_str())
}

fn name_of(path: &str) -> Option<&str> {
    Path::new(path).file_name().and_then(|name| name.to_str())
}

#[test]
fn the_proxy_name_follows_the_media_not_the_clip_that_uses_it() {
    let source = "/work/Entrevista final.MOV";
    let fingerprint = fingerprint_hash(source, 4096, 5_000);
    let target = proxy_target(stem_of(source), Some(fingerprint)).unwrap();
    assert!(target.starts_with("Entrevista final-"), "{target}");
    assert!(target.ends_with(PROXY_SUFFIX), "{target}");
    // Stable between calls: reordering clips does not reassign proxies.
    assert_eq!(proxy_target(stem_of(source), Some(fingerprint)).unwrap(), target);
    assert!(proxy_matches_source(Some(&target), stem_of(source), Some(fingerprint)));

    // Another file with the same name does not share the proxy.
    let otra = "/work/otra/Entrevista final.MOV";
    let other = fingerprint_hash(otra, 4096, 5_000);
    assert_ne!(proxy_target(stem_of(otra), Some(other)).unwrap(), target);
}

#[test]
fn replacing_the_media_invalidates_the_proxy_that_described_it() {
    let source = "/work/toma.mp4";
    let antes = proxy_target(stem_of(source), Some(fingerprint_hash(source, 4096, 5_000))).unwrap();

    // Same path, other content and other date: the former proxy no longer holds.
    let now = fingerprint_hash(source, 8192, 9_000);
    let despues = proxy_target(stem_of(source), Some(now)).unwrap();
    assert_ne!(antes, despues);
    assert!(!proxy_matches_source(Some(&antes), stem_of(source), Some(now)));
    assert!(proxy_matches_source(Some(&despues), stem_of(source), Some(now)));

    // The old per-clip name still exists, but is not taken for a current one.
    assert!(!proxy_matches_source(name_of("/work/toma-0-proxy.mp4"), stem_of(source), Some(now)));
    // A medium that is gone can neither validate nor name anything.
    assert!(proxy_target(stem_of(source), None).is_none());
    assert!(!proxy_matches_source(Some(&despues), stem_of(source), None));
}

#[test]
fn awkward_media_names_still_produce_a_usable_file_name() {
    let hash = 0x0123_4567_89ab_cdef;
    assert_eq!(
        proxy_file_name(stem_of("a:b*c?.mov"), hash),
        format!("a_b_c_-0123456789abcdef{PROXY_SUFFIX}")
    );
    let long_name = format!("{}.mov", "n".repeat(200));
    let largo = proxy_file_name(stem_of(&long_name), hash);
    assert_eq!(largo.len(), 48 + 1 + 16 + PROXY_SUFFIX.len());
    assert_eq!(
        proxy_file_name(stem_of("...mov"), hash),
        format!("clip-0123456789abcdef{PROXY_SUFFIX}")
    );
    assert_eq!(
        proxy_file_name(stem_of("Toma 3.final.mov"), hash),
        format!("Toma 3.final-0123456789abcdef{PROXY_SUFFIX}")
    );
    // Still a proxy in the eyes of the budget.
    assert!(is_proxy(name_of(&largo)));
}

#[test]
fn media_without_a_readable_stem_are_called_clip() {
    assert_eq!(proxy_file_name(None, 0), format!("clip-0000000000000000{PROXY_SUFFIX}"));
    assert_eq!(proxy_file_name(Some("  x.. "), 0xff), format!("x-00000000000000ff{PROXY_SUFFIX}"));
}

#[test]
fn only_names_with_more_than_the_suffix_are_proxies() {
    assert!(!is_proxy(Some(PROXY_SUFFIX)));
    assert!(is_proxy(Some("a-proxy.mp4")));
    assert!(!is_proxy(Some("a-proxy.mp4.part")));
    assert!(!is_proxy(None));
}

#[test]
fn the_fingerprint_is_fnv1a_over_path_size_and_time() {
    // FNV-1a of nothing but the offset basis.
    assert_eq!(fingerprint_hash("", 0, 0), {
        let mut hash: u64 = 0xcbf2_9ce4_8422_2325;
        for byte in [0u8; 16] {
            hash = (hash ^ u64::from(byte)).wrapping_mul(0x0000_0100_0000_01b3);
        }
        hash
    });
    let mut hash: u64 = 0xcbf2_9ce4_8422_2325;
    for byte in "a".bytes().chain(7u64.to_le_bytes()).chain(9u64.to_le_bytes()) {
        hash = (hash ^ u64::from(byte)).wrapping_mul(0x0000_0100_0000_01b3);
    }
    assert_eq!(fingerprint_hash("a", 7, 9), hash);
}

#[test]
fn sizes_read_in_gigabytes_only_when_they_are_large_enough() {
    assert_eq!(format_size(2_500_000_000), "2.50 GB");
    assert_eq!(format_size(37_000_000), "37 MB");
    assert_eq!(format_size(0), "0 MB");
}

#[test]
fn sizes_round_like_the_doubles_they_are() {
    assert_eq!(format_size(99_999_999), "100 MB");
    assert_eq!(format_size(100_000_000), "0.10 GB");
    assert_eq!(format_size(1_500_000), "2 MB");
    assert_eq!(format_size(2_500_000), "2 MB");
    assert_eq!(format_size(500_000), "0 MB");
    assert_eq!(format_size(2_505_000_000), "2.50 GB");
    assert_eq!(format_size(2_515_000_000), "2.52 GB");
    assert_eq!(format_size(4_095_000_000), "4.09 GB");
    assert_eq!(format_size(u64::MAX), "18446744073.71 GB");
    for bytes in [1_u64, 999, 123_456_789, 987_654_321_000, 1 << 53, (1 << 53) + 1] {
        let expected = {
            let gb = bytes as f64 / 1_000_000_000.0;
            if gb < 0.1 {
                format!("{:.0} MB", bytes as f64 / 1_000_000.0)
            } else {
                format!("{gb:.2} GB")
            }
        };
        assert_eq!(format_size(bytes), expected);
    }
}

#[test]
fn evictable_bytes_never_go_below_zero() {
    let u = CacheUsage { files: 1, total_bytes: 10, in_use_bytes: 30 };
    assert_eq!(u.evictable_bytes(), 0);
}

#[test]
fn the_proxy_name_comes_from_the_file_stem_not_the_folders() {
    let a = proxy_file_name_of_path("/medios/Entrevista.mov", 0x1f);
    let b = proxy_file_name_of_path("/copia.v2/otra carpeta/Entrevista.mov", 0x1f);
    assert_eq!(a, "Entrevista-000000000000001f-proxy.mp4");
    assert_eq!(a, b);
    let long = format!("/m/{}.mov", "x".repeat(200));
    assert_eq!(proxy_file_name_of_path(&long, 7).len(), 75);
    assert_eq!(proxy_target_of_path("/m/a.mov", None), None);
    assert_eq!(proxy_target_of_path("/m/a.mov", Some(2)), Some("a-0000000000000002-proxy.mp4".to_string()));
    assert!(proxy_matches_path(Some("a-0000000000000002-proxy.mp4"), "/otra/a.mov", Some(2)));
    assert!(!proxy_matches_path(Some("a-0000000000000003-proxy.mp4"), "/otra/a.mov", Some(2)));
    assert!(!proxy_matches_path(None, "/otra/a.mov", Some(2)));
}

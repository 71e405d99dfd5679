use find_similar_images::cache::{split_cached_and_nocached, PathMeta};
use find_similar_images::image_info::ImageInfo;
use find_similar_images::ordering::similar_groups;
use find_similar_images::render::render_groups;

fn meta(path: &str, modified: u64, file_size: u64) -> PathMeta {
    PathMeta { path: path.to_string(), modified, file_size }
}

fn entry(path: &str, modified: u64, file_size: u64, hash: u64) -> ImageInfo {
    ImageInfo { path: path.to_string(), modified, file_size, hash }
}

#[test]
fn fresh_entry_is_reused_verbatim() {
    let cache = vec![entry("a.png", 5, 10, 0xABCD)];
    let (cached, nocached) = split_cached_and_nocached(vec![meta("a.png", 5, 10)], &cache);
    assert_eq!(cached.len(), 1);
    assert_eq!(cached[0].hash, 0xABCD);
    assert_eq!(cached[0].path, "a.png");
    assert!(nocached.is_empty());
}

#[test]
fn changed_modified_forces_recompute() {
    let cache = vec![entry("a.png", 5, 10, 0xABCD)];
    let (cached, nocached) = split_cached_and_nocached(vec![meta("a.png", 6, 10)], &cache);
    assert!(cached.is_empty());
    assert_eq!(nocached.len(), 1);
    assert_eq!(nocached[0].path, "a.png");
}

#[test]
fn changed_size_forces_recompute() {
    let cache = vec![entry("a.png", 5, 10, 0xABCD)];
    let (cached, nocached) = split_cached_and_nocached(vec![meta("a.png", 5, 11)], &cache);
    assert!(cached.is_empty());
    assert_eq!(nocached.len(), 1);
}

#[test]
fn uncached_path_goes_to_recompute() {
    let cache = vec![entry("a.png", 5, 10, 0xABCD)];
    let (cached, nocached) = split_cached_and_nocached(vec![meta("b.png", 5, 10)], &cache);
    assert!(cached.is_empty());
    assert_eq!(nocached.len(), 1);
    assert_eq!(nocached[0].path, "b.png");
}

#[test]
fn split_keeps_input_order() {
    let cache = vec![entry("a.png", 1, 1, 7), entry("c.png", 3, 3, 9)];
    let paths = vec![
        meta("a.png", 1, 1),
        meta("b.png", 2, 2),
        meta("c.png", 3, 3),
        meta("d.png", 4, 4),
    ];
    let (cached, nocached) = split_cached_and_nocached(paths, &cache);
    assert_eq!(cached.len(), 2);
    assert_eq!(cached[0].path, "a.png");
    assert_eq!(cached[1].path, "c.png");
    assert_eq!(nocached.len(), 2);
    assert_eq!(nocached[0].path, "b.png");
    assert_eq!(nocached[1].path, "d.png");
}

#[test]
fn second_run_from_cache_reuses_everything() {
    // the first run's records, persisted as the cache, satisfy every path of
    // an unchanged file set: nothing is handed back for decoding, and the
    // groups computed from the cached records are identical
    let records = vec![
        entry("a.png", 100, 11, 0b000),
        entry("b.png", 300, 22, 0b001),
        entry("c.png", 200, 33, 0b011),
    ];
    let first_lines = render_groups(&records, &similar_groups(&records, 2, 16));

    let paths = vec![meta("a.png", 100, 11), meta("b.png", 300, 22), meta("c.png", 200, 33)];
    let (cached, nocached) = split_cached_and_nocached(paths, &records);
    assert!(nocached.is_empty());
    assert_eq!(cached.len(), 3);
    let second_lines = render_groups(&cached, &similar_groups(&cached, 2, 16));
    assert_eq!(first_lines, second_lines);
    assert_eq!(first_lines, vec!["\"b.png\" \"c.png\" \"a.png\"".to_string()]);
}

use find_similar_images::image_info::ImageInfo;
use find_similar_images::ordering::similar_groups;
use find_similar_images::render::{quote_path, render_groups};

fn record(path: &str, modified: u64, hash: u64) -> ImageInfo {
    ImageInfo { path: path.to_string(), modified, file_size: 1000, hash }
}

#[test]
fn transitive_chain_forms_one_group() {
    // d(a,b) = 1 and d(b,c) = 1 are edges at threshold 2; d(a,c) = 2 is not,
    // yet all three records must land in one single group
    let images = vec![
        record("a.png", 100, 0b000),
        record("b.png", 300, 0b001),
        record("c.png", 200, 0b011),
    ];
    let groups = similar_groups(&images, 2, 16);
    assert_eq!(groups.len(), 1);
    assert_eq!(groups[0], vec![1, 2, 0]);
}

#[test]
fn far_record_appears_in_no_group() {
    // d(d, _) >= 10 for every other record, far above the threshold
    let images = vec![
        record("a.png", 100, 0b000),
        record("b.png", 300, 0b001),
        record("c.png", 200, 0b011),
        record("d.png", 400, 0x3FF << 6),
    ];
    let groups = similar_groups(&images, 2, 16);
    assert_eq!(groups.len(), 1);
    assert_eq!(groups[0], vec![1, 2, 0]);
    for g in &groups {
        assert!(!g.contains(&3));
    }
}

#[test]
fn distance_equal_to_threshold_is_not_linked() {
    // the threshold is an exclusive bound: distance 2 at threshold 2 is no edge
    let images = vec![record("a.png", 100, 0b00), record("c.png", 200, 0b11)];
    assert_eq!(similar_groups(&images, 2, 16).len(), 0);
}

#[test]
fn distance_below_threshold_is_linked() {
    let images = vec![record("a.png", 100, 0b00), record("b.png", 200, 0b01)];
    let groups = similar_groups(&images, 2, 16);
    assert_eq!(groups.len(), 1);
    assert_eq!(groups[0], vec![1, 0]);
}

#[test]
fn grouping_is_a_partition() {
    // two separate pairs: every linked record appears in exactly one group
    let images = vec![
        record("a.png", 100, 0b0000_0000),
        record("b.png", 300, 0b0000_0001),
        record("c.png", 200, 0b1111_0000),
        record("d.png", 250, 0b1111_0001),
    ];
    let groups = similar_groups(&images, 2, 16);
    assert_eq!(groups.len(), 2);
    let mut seen = vec![0usize; images.len()];
    for g in &groups {
        assert!(!g.is_empty());
        for &m in g {
            seen[m] += 1;
        }
    }
    assert_eq!(seen, vec![1, 1, 1, 1]);
}

#[test]
fn groups_ordered_by_most_recent_member() {
    let images = vec![
        record("a.png", 100, 0b0000_0000),
        record("b.png", 300, 0b0000_0001),
        record("c.png", 200, 0b1111_0000),
        record("d.png", 250, 0b1111_0001),
    ];
    let groups = similar_groups(&images, 2, 16);
    // first group led by b (modified 300), second by d (modified 250)
    assert_eq!(groups, vec![vec![1, 0], vec![3, 2]]);
}

#[test]
fn members_ordered_by_modified_descending() {
    let images = vec![
        record("old.png", 10, 0),
        record("new.png", 30, 1),
        record("mid.png", 20, 2),
    ];
    let groups = similar_groups(&images, 3, 16);
    assert_eq!(groups, vec![vec![1, 2, 0]]);
}

#[test]
fn quote_path_escapes_quotes() {
    let line = quote_path(&"my \"pic\" 1.png".to_string());
    assert_eq!(line, "\"my \\\"pic\\\" 1.png\"");
}

#[test]
fn quote_path_plain() {
    assert_eq!(quote_path(&"photo.jpg".to_string()), "\"photo.jpg\"");
}

#[test]
fn rendered_lines_quote_and_join_paths() {
    let images = vec![
        record("a b.png", 100, 0b000),
        record("b.png", 300, 0b001),
        record("c\"x.png", 200, 0b011),
    ];
    let groups = similar_groups(&images, 2, 16);
    let lines = render_groups(&images, &groups);
    assert_eq!(lines.len(), 1);
    assert_eq!(lines[0], "\"b.png\" \"c\\\"x.png\" \"a b.png\"");
}

#[test]
fn no_groups_renders_no_lines() {
    let images = vec![record("a.png", 100, 0), record("b.png", 200, 0xFFFF)];
    let groups = similar_groups(&images, 2, 16);
    let lines = render_groups(&images, &groups);
    assert!(lines.is_empty());
}

#[test]
fn pipeline_is_idempotent_on_unchanged_input() {
    let images = vec![
        record("a.png", 100, 0b000),
        record("b.png", 300, 0b001),
        record("c.png", 200, 0b011),
        record("d.png", 400, 0x3FF << 6),
    ];
    let first = render_groups(&images, &similar_groups(&images, 2, 16));
    let second = render_groups(&images, &similar_groups(&images, 2, 16));
    assert_eq!(first, second);
}

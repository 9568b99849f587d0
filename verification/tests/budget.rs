use trunc_names::{calculate_max_stem_bytes, PathEntry, Sibling};

fn sibling(name: &str, secondary: Option<&str>, primary: Option<&str>) -> Sibling {
    Sibling {
        entry: PathEntry::new(b"dir".to_vec(), name.as_bytes().to_vec(), false),
        secondary_ext: secondary.map(|s| s.as_bytes().to_vec()),
        primary_ext: primary.map(|s| s.as_bytes().to_vec()),
    }
}

#[test]
fn budget_of_one_file_is_the_limit_less_its_extensions() {
    // ".txt" takes 4 bytes
    assert_eq!(calculate_max_stem_bytes(&[sibling("verylongname.txt", None, Some("txt"))], 8), 4);
    // ".tar.gz" takes 7 bytes
    assert_eq!(calculate_max_stem_bytes(&[sibling("a.tar.gz", Some("tar"), Some("gz"))], 10), 3);
    assert_eq!(calculate_max_stem_bytes(&[sibling("README", None, None)], 140), 140);
}

#[test]
fn budget_of_a_group_goes_by_the_largest_overhead() {
    let group = vec![
        sibling("document.txt", None, Some("txt")),
        sibling("document.tar.gz", Some("tar"), Some("gz")),
        sibling("document.config", None, Some("config")),
    ];
    assert_eq!(calculate_max_stem_bytes(&group, 12), 5);
    assert_eq!(calculate_max_stem_bytes(&group, 140), 133);
    assert_eq!(calculate_max_stem_bytes(&group[..1], 12), 8);
}

#[test]
fn budget_is_zero_where_extensions_reach_the_limit() {
    let group = vec![sibling("test.tar.gz", Some("tar"), Some("gz"))];
    assert_eq!(calculate_max_stem_bytes(&group, 8), 1);
    assert_eq!(calculate_max_stem_bytes(&group, 7), 0);
    assert_eq!(calculate_max_stem_bytes(&group, 6), 0);
    assert_eq!(calculate_max_stem_bytes(&group, 0), 0);
}

#[test]
fn budget_counts_the_dot_of_an_empty_extension() {
    assert_eq!(calculate_max_stem_bytes(&[sibling("file.", None, Some(""))], 10), 9);
    assert_eq!(calculate_max_stem_bytes(&[sibling("a..b", Some(""), Some("b"))], 10), 7);
}

#[test]
fn budget_counts_bytes_not_characters() {
    // "é" takes two bytes
    assert_eq!(calculate_max_stem_bytes(&[sibling("x.é", None, Some("é"))], 10), 7);
}

#[test]
fn budget_without_files_is_unbounded() {
    assert_eq!(calculate_max_stem_bytes(&[], 12), usize::MAX);
}

use trunc_names::{
    process_directories, process_files, split_rstem_ext, trunc_path, Action, CliArgs, PathEntry,
    TruncationPlan,
};

fn file(parent: &str, name: &str) -> PathEntry {
    PathEntry::new(parent.as_bytes().to_vec(), name.as_bytes().to_vec(), false)
}

fn dir(parent: &str, name: &str) -> PathEntry {
    PathEntry::new(parent.as_bytes().to_vec(), name.as_bytes().to_vec(), true)
}

fn settings(max_len: usize, sec_ext_len: usize, word_boundaries: bool) -> CliArgs {
    CliArgs {
        path: Vec::new(),
        max_len,
        dry_run: false,
        secondary_ext_len: sec_ext_len,
        word_boundaries,
    }
}

fn name_of(path: &[u8]) -> Vec<u8> {
    match path.iter().rposition(|&b| b == b'/') {
        Some(i) => path[i + 1..].to_vec(),
        None => path.to_vec(),
    }
}

fn listing() -> Vec<PathEntry> {
    vec![
        file("a", "document.txt"),
        file("a", "document.tar.gz"),
        file("a", "document.config"),
        file("a", "this is a long filename.txt"),
        file("a", "日本語のファイル名.txt"),
        file("a", "file.toolongext.txt"),
        file("a", "README"),
        file("a", ".bashrc"),
        file("b", "document.txt"),
        file("b", "holiday video.mp4"),
        file("b", "holiday video.en.srt"),
        dir("", "a"),
        dir("", "b"),
    ]
}

/// The entries as the plans leave them: each in its directory, under the
/// name of its new path.
fn after(plans: &[TruncationPlan], parent: &str, is_dir: bool) -> Vec<PathEntry> {
    plans
        .iter()
        .filter(|p| p.original_path.starts_with(format!("{}/", parent).as_bytes()))
        .map(|p| PathEntry::new(parent.as_bytes().to_vec(), name_of(&p.new_path), is_dir))
        .collect()
}

#[test]
fn planning_files_twice_changes_nothing_more() {
    for max_len in [12usize, 14, 16, 20, 140] {
        for word_boundaries in [false, true] {
            let args = settings(max_len, 6, word_boundaries);
            let plans = process_files(&args, &listing());
            assert_eq!(plans.len(), 11);
            assert!(plans.iter().all(|p| p.action != Action::SkippedOversized));
            let mut again = after(&plans, "a", false);
            again.extend(after(&plans, "b", false));
            assert_eq!(again.len(), 11);
            for plan in process_files(&args, &again) {
                assert_eq!(plan.action, Action::Unchanged);
                assert_eq!(plan.new_path, plan.original_path);
            }
        }
    }
}

#[test]
fn names_that_fit_are_left_alone() {
    // the longest name of the listing takes 31 bytes
    let args = settings(31, 6, true);
    for plan in process_files(&args, &listing()) {
        assert_eq!(plan.action, Action::Unchanged);
    }
}

#[test]
fn a_skipped_file_is_skipped_again() {
    let args = settings(6, 6, false);
    let entries = vec![file("d", "test.tar.gz")];
    let plans = process_files(&args, &entries);
    assert_eq!(plans[0].action, Action::SkippedOversized);
    let again = process_files(&args, &after(&plans, "d", false));
    assert_eq!(again[0].action, Action::SkippedOversized);
}

#[test]
fn a_skipped_file_unsettles_a_file_renamed_to_its_stem() {
    let args = settings(10, 6, false);
    let entries = vec![file("d", "abc.yyyyyyyyyyyy"), file("d", "abcdef.tar.gz")];
    let plans = process_files(&args, &entries);
    assert_eq!(plans[0].action, Action::SkippedOversized);
    assert_eq!(plans[1].action, Action::Renamed);
    assert_eq!(plans[1].new_path, b"d/abc.tar.gz".to_vec());
    let again = process_files(&args, &after(&plans, "d", false));
    assert_eq!(again[0].action, Action::SkippedOversized);
    assert_eq!(again[1].action, Action::Renamed);
    assert_eq!(again[1].new_path, b"d/.tar.gz".to_vec());
}

#[test]
fn planning_directories_twice_changes_nothing_more() {
    let entries = vec![
        dir("r", "very_long_directory"),
        dir("r", "日本語ディレクトリ"),
        dir("r", "holiday pictures 2019"),
        dir("r", "short"),
        PathEntry::new(b"r".to_vec(), b"ab\xffcd".to_vec(), true),
    ];
    for max_len in [0usize, 5, 8, 11, 12, 140] {
        let args = settings(max_len, 6, false);
        let plans = process_directories(&args, &entries);
        assert_eq!(plans.len(), 5);
        for plan in process_directories(&args, &after(&plans, "r", true)) {
            assert_eq!(plan.action, Action::Unchanged);
        }
    }
}

#[test]
fn a_directory_with_a_space_near_the_limit_is_cut_again() {
    let args = settings(12, 6, true);
    let first = trunc_path(&dir("r", "a b c d"), 12, 6, true);
    assert_eq!(first.new_path, b"r/a b c".to_vec());
    let second = process_directories(&args, &[dir("r", "a b c")]);
    assert_eq!(second[0].action, Action::Renamed);
    assert_eq!(second[0].new_path, b"r/a b".to_vec());
    let third = process_directories(&args, &[dir("r", "a b")]);
    assert_eq!(third[0].action, Action::Unchanged);
}

#[test]
fn a_directory_settles_once_no_space_is_near_the_limit() {
    let args = settings(30, 6, true);
    let first = process_directories(&args, &[dir("r", "holiday pictures from the summer of 2019")]);
    assert_eq!(first[0].new_path, b"r/holiday pictures from the".to_vec());
    let second = process_directories(&args, &after(&first, "r", true));
    assert_eq!(second[0].action, Action::Renamed);
    assert_eq!(second[0].new_path, b"r/holiday pictures from".to_vec());
    let third = process_directories(&args, &after(&second, "r", true));
    assert_eq!(third[0].action, Action::Unchanged);
    let args = settings(11, 6, true);
    let first = process_directories(&args, &[dir("r", "ab cdefghijklmnop")]);
    assert_eq!(first[0].new_path, b"r/ab".to_vec());
    let second = process_directories(&args, &after(&first, "r", true));
    assert_eq!(second[0].action, Action::Unchanged);
}

#[test]
fn primary_extensions_end_every_final_name() {
    for max_len in 0usize..32 {
        for word_boundaries in [false, true] {
            let entries = listing();
            let args = settings(max_len, 6, word_boundaries);
            for plan in process_files(&args, &entries) {
                let old = name_of(&plan.original_path);
                let new = name_of(&plan.new_path);
                if let Some(ext) = split_rstem_ext(&old, 6).2 {
                    let mut dotted = vec![b'.'];
                    dotted.extend(ext);
                    assert!(new.ends_with(&dotted));
                }
                match plan.action {
                    Action::Renamed => {
                        assert!(new.len() <= max_len);
                        assert_ne!(new, old);
                    }
                    Action::Unchanged => {
                        assert!(new.len() <= max_len);
                        assert_eq!(new, old);
                    }
                    Action::SkippedOversized => assert_eq!(new, old),
                }
            }
        }
    }
}

#[test]
fn renamed_files_have_decodable_names() {
    let entries = vec![
        file("d", "日本語のファイル名.tar.gz"),
        file("d", "🌟🌟🌟🌟.txt"),
        PathEntry::new(b"d".to_vec(), b"abcdefgh\xff\xfe.txt".to_vec(), false),
    ];
    for max_len in 0usize..24 {
        for plan in process_files(&settings(max_len, 6, false), &entries) {
            if plan.action == Action::Renamed {
                assert!(std::str::from_utf8(&name_of(&plan.new_path)).is_ok());
            }
        }
    }
}

#[test]
fn siblings_share_their_stem_unless_one_is_skipped() {
    let entries = vec![
        file("d", "holiday video.mp4"),
        file("d", "holiday video.en.srt"),
        file("d", "holiday video.description"),
    ];
    for max_len in 12usize..30 {
        let plans = process_files(&settings(max_len, 6, true), &entries);
        assert!(plans.iter().all(|p| p.action != Action::SkippedOversized));
        let stems: Vec<usize> = plans
            .iter()
            .map(|p| split_rstem_ext(&name_of(&p.new_path), 6).0.len())
            .collect();
        assert_eq!(stems[0], stems[1]);
        assert_eq!(stems[0], stems[2]);
    }
    // ".description" alone takes twelve bytes
    let plans = process_files(&settings(11, 6, true), &entries);
    assert_eq!(plans[0].new_path, b"d/.mp4".to_vec());
    assert_eq!(plans[1].new_path, b"d/.en.srt".to_vec());
    assert_eq!(plans[2].action, Action::SkippedOversized);
    assert_eq!(plans[2].new_path, b"d/holiday video.description".to_vec());
}

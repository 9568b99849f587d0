use trunc_names::{
    plan_group, plan_rename, process_directories, process_files, split_rstem_ext, trunc_path,
    Action, CliArgs, PathEntry, Sibling, SiblingGroup, TruncationPlan,
};

fn file(parent: &str, name: &str) -> PathEntry {
    PathEntry::new(parent.as_bytes().to_vec(), name.as_bytes().to_vec(), false)
}

fn dir(parent: &str, name: &str) -> PathEntry {
    PathEntry::new(parent.as_bytes().to_vec(), name.as_bytes().to_vec(), true)
}

fn test_args(max_len: usize, sec_ext_len: usize, word_boundaries: bool) -> CliArgs {
    CliArgs {
        path: vec![b"root".to_vec()],
        max_len,
        dry_run: false,
        secondary_ext_len: sec_ext_len,
        word_boundaries,
    }
}

fn plan(original: &str, new: &str, action: Action) -> TruncationPlan {
    TruncationPlan {
        original_path: original.as_bytes().to_vec(),
        new_path: new.as_bytes().to_vec(),
        action,
    }
}

fn name_of(path: &[u8]) -> Vec<u8> {
    match path.iter().rposition(|&b| b == b'/') {
        Some(i) => path[i + 1..].to_vec(),
        None => path.to_vec(),
    }
}

fn text(bytes: &[u8]) -> String {
    String::from_utf8_lossy(bytes).into_owned()
}

#[test]
fn test_primary_extension_preservation() {
    let test_cases = vec![
        ("verylongname.txt", 8, "ver.txt"),
        ("reallylongname.tar.gz", 10, "real.tar.gz"),
        ("Ë∂ÖÈï∑„ÅÑÂêçÂâç.txt", 12, "Ë∂ÖÈï∑.txt"),
    ];

    for (input, max_len, expected) in test_cases {
        let result = trunc_path(&file("tmp", input), max_len, 6, false);
        let result_str = String::from_utf8(result.new_path).unwrap();
        let result_ext = result_str.rsplit('.').next().unwrap();
        let expected_ext = expected.rsplit('.').next().unwrap();
        assert_eq!(result_ext, expected_ext, "Primary extension must be preserved");
    }
}

#[test]
fn test_rstem_group_consistency() {
    let entries = vec![
        file("tmp", "document.txt"),
        file("tmp", "document.tar.gz"),
        file("tmp", "document.config"),
    ];
    let args = test_args(12, 6, false);

    let plans = process_files(&args, &entries);

    let files: Vec<Vec<u8>> = plans.iter().map(|p| name_of(&p.new_path)).collect();
    let rstems: Vec<Vec<u8>> = files.iter().map(|f| split_rstem_ext(f, 6).0).collect();

    assert_eq!(rstems.len(), 3);
    let first_len = rstems[0].len();
    for rstem in rstems.iter().skip(1) {
        assert_eq!(rstem.len(), first_len, "All files in group must have same RStem length");
    }
}

#[test]
fn test_word_boundary_truncation() {
    let test_cases = vec![
        ("this is a long filename.txt", 15, "this is a.txt", true),
        ("no_word_boundaries_here.txt", 12, "no_word_.txt", false),
        ("respect these words.txt", 14, "respect.txt", true),
    ];

    for (input, max_len, expected, word_boundaries) in test_cases {
        let result = trunc_path(&file("tmp", input), max_len, 6, word_boundaries);
        let result_str = text(&name_of(&result.new_path));
        assert_eq!(
            result_str, expected,
            "Word boundary truncation failed for '{}' with max_len={}",
            input, max_len
        );
    }
}

#[test]
fn test_utf8_boundaries() {
    let test_cases = vec![
        ("Êó•Êú¨Ë™û.txt", 8, true),
        ("üåüstar.txt", 7, true),
        ("Œ±Œ≤Œ≥.txt", 5, true),
    ];

    for (input, max_len, should_be_valid) in test_cases {
        let result = trunc_path(&file("tmp", input), max_len, 6, false);
        assert_eq!(
            std::str::from_utf8(&result.new_path).is_ok(),
            should_be_valid,
            "Result must be valid UTF-8"
        );
    }
}

#[test]
fn test_directory_truncation() {
    let test_cases = vec![
        ("very_long_directory", 8, "very_lon"),
        ("日本語ディレクトリ", 12, "日本語デ"),
        ("spaces_in_name", 7, "spaces_"),
    ];

    for (dirname, max_len, expected) in test_cases {
        let entries = vec![dir("tmp", dirname)];
        let args = test_args(max_len, 6, false);

        let plans = process_directories(&args, &entries);
        assert_eq!(plans.len(), 1);
        assert_eq!(plans[0].action, Action::Renamed);
        assert_eq!(
            plans[0].new_path,
            format!("tmp/{}", expected).into_bytes(),
            "Directory should be truncated to '{}'",
            expected
        );
    }
}

#[test]
fn test_skip_oversized_files() {
    let filename = "test.tar.gz";
    let entries = vec![file("tmp", filename)];
    let args = test_args(6, 6, false);

    let plans = process_files(&args, &entries);

    assert_eq!(plans.len(), 1);
    assert_eq!(plans[0].action, Action::SkippedOversized, "Original file should remain unchanged");
    assert_eq!(
        text(&name_of(&plans[0].new_path)),
        filename,
        "File should be skipped when extensions exceed max_len"
    );

    let filename2 = "doc.tar.gz";
    let entries2 = vec![file("tmp", filename2)];
    let args2 = test_args(8, 6, false);

    let plans2 = process_files(&args2, &entries2);

    assert_eq!(plans2.len(), 1);
    assert_eq!(text(&name_of(&plans2[0].original_path)), filename2);
}

#[test]
fn a_long_name_is_cut_to_what_its_extension_leaves() {
    let result = trunc_path(&file("tmp", "verylongname.txt"), 8, 6, false);
    assert_eq!(result, plan("tmp/verylongname.txt", "tmp/very.txt", Action::Renamed));
}

#[test]
fn a_group_shares_one_truncated_stem() {
    let entries = vec![
        file("docs", "document.txt"),
        file("docs", "document.tar.gz"),
        file("docs", "document.config"),
    ];
    let plans = process_files(&test_args(12, 6, false), &entries);
    assert_eq!(
        plans,
        vec![
            plan("docs/document.txt", "docs/docum.txt", Action::Renamed),
            plan("docs/document.tar.gz", "docs/docum.tar.gz", Action::Renamed),
            plan("docs/document.config", "docs/docum.config", Action::Renamed),
        ]
    );
}

#[test]
fn extensions_beyond_the_limit_are_skipped() {
    let result = trunc_path(&file("tmp", "test.tar.gz"), 6, 6, false);
    assert_eq!(result, plan("tmp/test.tar.gz", "tmp/test.tar.gz", Action::SkippedOversized));
}

#[test]
fn a_stem_is_cut_down_to_one_byte_before_a_file_is_skipped() {
    let result = trunc_path(&file("tmp", "doc.tar.gz"), 8, 6, false);
    assert_eq!(result, plan("tmp/doc.tar.gz", "tmp/d.tar.gz", Action::Renamed));
    let result = trunc_path(&file("tmp", "doc.tar.gz"), 7, 6, false);
    assert_eq!(result, plan("tmp/doc.tar.gz", "tmp/.tar.gz", Action::Renamed));
    let result = trunc_path(&file("tmp", "doc.tar.gz"), 6, 6, false);
    assert_eq!(result, plan("tmp/doc.tar.gz", "tmp/doc.tar.gz", Action::SkippedOversized));
}

#[test]
fn a_cut_moves_back_to_a_word_boundary() {
    let result = trunc_path(&file("tmp", "this is a long filename.txt"), 15, 6, true);
    assert_eq!(
        result,
        plan("tmp/this is a long filename.txt", "tmp/this is a.txt", Action::Renamed)
    );
    let result = trunc_path(&file("tmp", "this is a long filename.txt"), 15, 6, false);
    assert_eq!(
        result,
        plan("tmp/this is a long filename.txt", "tmp/this is a l.txt", Action::Renamed)
    );
}

#[test]
fn a_directory_name_ends_on_a_whole_code_point() {
    // eleven bytes would end two bytes into the fourth character
    let result = trunc_path(&dir("tmp", "日本語ディレクトリ"), 11, 6, false);
    assert_eq!(result, plan("tmp/日本語ディレクトリ", "tmp/日本語", Action::Renamed));
    assert!(std::str::from_utf8(&result.new_path).is_ok());
}

#[test]
fn a_directory_has_no_extension() {
    let result = trunc_path(&dir("tmp", "archive.old"), 9, 6, false);
    assert_eq!(result, plan("tmp/archive.old", "tmp/archive.o", Action::Renamed));
    let result = trunc_path(&file("tmp", "archive.old"), 9, 6, false);
    assert_eq!(result, plan("tmp/archive.old", "tmp/archi.old", Action::Renamed));
}

#[test]
fn a_fitting_name_is_unchanged() {
    let result = trunc_path(&file("tmp", "short.txt"), 9, 6, true);
    assert_eq!(result, plan("tmp/short.txt", "tmp/short.txt", Action::Unchanged));
    let result = trunc_path(&dir("tmp", "short"), 5, 6, false);
    assert_eq!(result, plan("tmp/short", "tmp/short", Action::Unchanged));
    let result = trunc_path(&dir("", ""), 5, 6, true);
    assert_eq!(result, plan("", "", Action::Unchanged));
}

#[test]
fn a_fitting_undecodable_file_name_is_unchanged() {
    let entry = PathEntry::new(b"tmp".to_vec(), b"\xff\xfe.txt".to_vec(), false);
    let result = trunc_path(&entry, 10, 6, false);
    assert_eq!(result.action, Action::Unchanged);
    assert_eq!(result.new_path, b"tmp/\xff\xfe.txt".to_vec());
}

#[test]
fn a_long_undecodable_file_name_is_cut_as_a_whole() {
    let entry = PathEntry::new(b"tmp".to_vec(), b"abcdef\xff.txt".to_vec(), false);
    let result = trunc_path(&entry, 8, 6, false);
    assert_eq!(result.action, Action::Renamed);
    assert_eq!(result.new_path, b"tmp/abcdef".to_vec());
}

#[test]
fn a_secondary_extension_is_kept_only_where_asked_for() {
    let result = trunc_path(&file("tmp", "reallylongname.tar.gz"), 12, 6, false);
    assert_eq!(result.new_path, b"tmp/reall.tar.gz".to_vec());
    let result = trunc_path(&file("tmp", "reallylongname.tar.gz"), 12, 0, false);
    assert_eq!(result.new_path, b"tmp/reallylon.gz".to_vec());
    let result = trunc_path(&file("tmp", "reallylongname.tar.gz"), 12, 2, false);
    assert_eq!(result.new_path, b"tmp/reallylon.gz".to_vec());
}

#[test]
fn plan_rename_tells_the_three_outcomes_apart() {
    assert_eq!(
        plan_rename(b"d", b"long.txt", b"lo.txt", 6),
        plan("d/long.txt", "d/lo.txt", Action::Renamed)
    );
    assert_eq!(
        plan_rename(b"d", b"lo.txt", b"lo.txt", 6),
        plan("d/lo.txt", "d/lo.txt", Action::Unchanged)
    );
    assert_eq!(
        plan_rename(b"d", b"long.txt", b"lon.txt", 6),
        plan("d/long.txt", "d/long.txt", Action::SkippedOversized)
    );
    assert_eq!(
        plan_rename(b"", b"long.txt", b"", 6),
        plan("long.txt", "", Action::Renamed)
    );
}

#[test]
fn plan_group_gives_each_member_its_own_extensions() {
    let member = |name: &str, secondary: Option<&str>, primary: Option<&str>| Sibling {
        entry: file("d", name),
        secondary_ext: secondary.map(|s| s.as_bytes().to_vec()),
        primary_ext: primary.map(|s| s.as_bytes().to_vec()),
    };
    let group = SiblingGroup {
        parent: b"d".to_vec(),
        raw_stem: b"holiday video".to_vec(),
        members: vec![
            member("holiday video.mp4", None, Some("mp4")),
            member("holiday video.en.srt", Some("en"), Some("srt")),
            member("holiday video", None, None),
        ],
    };
    assert_eq!(
        plan_group(&group, 16, false),
        vec![
            plan("d/holiday video.mp4", "d/holiday v.mp4", Action::Renamed),
            plan("d/holiday video.en.srt", "d/holiday v.en.srt", Action::Renamed),
            plan("d/holiday video", "d/holiday v", Action::Renamed),
        ]
    );
    assert_eq!(
        plan_group(&group, 16, true),
        vec![
            plan("d/holiday video.mp4", "d/holiday.mp4", Action::Renamed),
            plan("d/holiday video.en.srt", "d/holiday.en.srt", Action::Renamed),
            plan("d/holiday video", "d/holiday", Action::Renamed),
        ]
    );
    assert_eq!(
        plan_group(&group, 20, true),
        vec![
            plan("d/holiday video.mp4", "d/holiday video.mp4", Action::Unchanged),
            plan("d/holiday video.en.srt", "d/holiday video.en.srt", Action::Unchanged),
            plan("d/holiday video", "d/holiday video", Action::Unchanged),
        ]
    );
}

#[test]
fn one_oversized_member_empties_the_stem_of_its_group() {
    let entries = vec![file("d", "abcdef.x"), file("d", "abcdef.verylongextension")];
    let plans = process_files(&test_args(8, 6, false), &entries);
    assert_eq!(
        plans,
        vec![
            plan("d/abcdef.x", "d/.x", Action::Renamed),
            plan(
                "d/abcdef.verylongextension",
                "d/abcdef.verylongextension",
                Action::SkippedOversized
            ),
        ]
    );
}

#[test]
fn files_are_planned_group_after_group() {
    let entries = vec![
        file("a", "longname_one.txt"),
        file("a", "longname_two.txt"),
        dir("a", "longname_one"),
        file("a", "longname_one.tar.gz"),
        file("b", "longname_one.txt"),
    ];
    let plans = process_files(&test_args(10, 6, false), &entries);
    assert_eq!(
        plans,
        vec![
            plan("a/longname_one.txt", "a/lon.txt", Action::Renamed),
            plan("a/longname_one.tar.gz", "a/lon.tar.gz", Action::Renamed),
            plan("a/longname_two.txt", "a/longna.txt", Action::Renamed),
            plan("b/longname_one.txt", "b/longna.txt", Action::Renamed),
        ]
    );
}

#[test]
fn files_of_different_directories_are_not_siblings() {
    let entries = vec![file("a", "document.txt"), file("b", "document.tar.gz")];
    let plans = process_files(&test_args(12, 6, false), &entries);
    assert_eq!(
        plans,
        vec![
            plan("a/document.txt", "a/document.txt", Action::Unchanged),
            plan("b/document.tar.gz", "b/docum.tar.gz", Action::Renamed),
        ]
    );
}

#[test]
fn directories_are_planned_in_their_order_and_files_passed_over() {
    let entries = vec![
        dir("root/very_long_directory", "inner_directory"),
        file("root/very_long_directory", "some_long_file.txt"),
        dir("root", "very_long_directory"),
        dir("", "root"),
    ];
    let plans = process_directories(&test_args(8, 6, false), &entries);
    assert_eq!(
        plans,
        vec![
            plan(
                "root/very_long_directory/inner_directory",
                "root/very_long_directory/inner_di",
                Action::Renamed
            ),
            plan("root/very_long_directory", "root/very_lon", Action::Renamed),
            plan("root", "root", Action::Unchanged),
        ]
    );
}

#[test]
fn directories_are_never_skipped() {
    let entries = vec![dir("d", "name.with.many.extensions"), dir("d", "日本語")];
    for max_len in 0usize..30 {
        for plan in process_directories(&test_args(max_len, 6, true), &entries) {
            assert_ne!(plan.action, Action::SkippedOversized);
            assert!(name_of(&plan.new_path).len() <= max_len || plan.action == Action::Unchanged);
        }
    }
}

#[test]
fn nothing_to_plan_gives_no_plan() {
    assert_eq!(process_files(&test_args(10, 6, false), &[]), vec![]);
    assert_eq!(process_directories(&test_args(10, 6, false), &[]), vec![]);
    assert_eq!(process_files(&test_args(10, 6, false), &[dir("a", "b")]), vec![]);
    assert_eq!(process_directories(&test_args(10, 6, false), &[file("a", "b")]), vec![]);
}

#[test]
fn default_settings() {
    let args = CliArgs::new(vec![b"some/root".to_vec()]);
    assert_eq!(args.path, vec![b"some/root".to_vec()]);
    assert_eq!(args.max_len, 140);
    assert_eq!(args.secondary_ext_len, 6);
    assert!(!args.dry_run);
    assert!(!args.word_boundaries);
}

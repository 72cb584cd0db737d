use hyperpolyglot_report::filter::{Filter, FilterError, ReportOptions};
use hyperpolyglot_report::grouping::{group_languages, is_reported_kind, select_reported, sort_by_count};
use hyperpolyglot_report::model::{FileDetection, LanguageGroup, LanguageKind};
use hyperpolyglot_report::order::compare_text;
use hyperpolyglot_report::path::{path_component_key, strip_relative_parts};
use hyperpolyglot_report::report::{append_decimal, print_file_breakdown, print_language_split, Segment, Style};
use hyperpolyglot_report::strategy::{aggregate_strategies, print_strategy_breakdown};

fn detection(strategy: &str, path: &str) -> FileDetection {
    FileDetection { strategy: strategy.to_string(), path: path.to_string() }
}

fn group(language: &str, files: Vec<FileDetection>) -> LanguageGroup {
    LanguageGroup { language: language.to_string(), files }
}

fn text(segments: &[Segment]) -> String {
    segments.iter().map(|s| s.text.as_str()).collect()
}

fn options(condensed: bool, filter: Option<&str>) -> ReportOptions {
    ReportOptions { condensed, filter: filter.map(|f| Filter::new(f).ok().unwrap()) }
}

fn sample_breakdown() -> Vec<LanguageGroup> {
    vec![
        group("Markdown", vec![detection("Extension", "README.md")]),
        group("Rust", vec![detection("Extension", "./a.rs"), detection("Extension", "./b.rs")]),
    ]
}

#[test]
fn strip_removes_one_leading_marker() {
    assert_eq!(strip_relative_parts("./a/b.rs"), "a/b.rs");
    assert_eq!(strip_relative_parts("a/b.rs"), "a/b.rs");
    assert_eq!(strip_relative_parts("../a.rs"), "../a.rs");
    assert_eq!(strip_relative_parts("././a.rs"), "./a.rs");
    assert_eq!(strip_relative_parts("."), ".");
    assert_eq!(strip_relative_parts(""), "");
}

fn sample_grouped() -> Vec<LanguageGroup> {
    // Markdown counts as markup here, Rust as programming.
    let kinds = vec![Some(LanguageKind::Markup), Some(LanguageKind::Programming)];
    sort_by_count(select_reported(sample_breakdown(), &kinds))
}

#[test]
fn end_to_end_summary_and_file_breakdown() {
    let groups = sample_grouped();
    let names: Vec<&str> = groups.iter().map(|g| g.language.as_str()).collect();
    assert_eq!(names, vec!["Rust", "Markdown"]);
    assert_eq!(print_language_split(&groups), "66.67% Rust\n33.33% Markdown\n");
    let full = print_file_breakdown(&groups, &options(false, None));
    assert_eq!(text(&full), "Rust (2)\na.rs\nb.rs\n\nMarkdown (1)\nREADME.md\n\n");
    assert_eq!(full[0].style, Style::Title);
    assert_eq!(full[1].style, Style::Plain);
    let condensed = print_file_breakdown(&groups, &options(true, None));
    assert_eq!(text(&condensed), "Rust (2)\nMarkdown (1)\n");
}

#[test]
fn filter_matching_nothing_prints_nothing() {
    let groups = sample_grouped();
    assert!(print_file_breakdown(&groups, &options(false, Some("^Nothing$"))).is_empty());
    assert!(print_strategy_breakdown(&groups, &options(false, Some("^Nothing$"))).is_empty());
}

#[test]
fn filter_matches_part_of_a_name() {
    let groups = sample_grouped();
    let out = print_file_breakdown(&groups, &options(true, Some("ust")));
    assert_eq!(text(&out), "Rust (2)\n");
}

#[test]
fn invalid_filter_is_rejected() {
    assert!(matches!(Filter::new("("), Err(FilterError::InvalidPattern)));
    assert!(Filter::new("Rust|Go").is_ok());
}

#[test]
fn data_and_prose_languages_are_dropped() {
    let groups = group_languages(vec![
        group("JSON", vec![detection("Extension", "a.json")]),
        group("Text", vec![detection("Extension", "a.txt")]),
        group("Markdown", vec![detection("Extension", "a.md")]),
        group("HTML", vec![detection("Extension", "a.html")]),
        group("Rust", vec![detection("Extension", "a.rs"), detection("Extension", "b.rs")]),
        group("NoSuchLanguage", vec![detection("Extension", "a.zz")]),
    ]);
    let names: Vec<&str> = groups.iter().map(|g| g.language.as_str()).collect();
    assert_eq!(names, vec!["Rust", "HTML"]);
}

#[test]
fn reported_kinds() {
    assert!(is_reported_kind(Some(LanguageKind::Markup)));
    assert!(is_reported_kind(Some(LanguageKind::Programming)));
    assert!(!is_reported_kind(Some(LanguageKind::Data)));
    assert!(!is_reported_kind(Some(LanguageKind::Prose)));
    assert!(!is_reported_kind(None));
}

#[test]
fn select_keeps_reported_in_order() {
    let kinds = vec![Some(LanguageKind::Data), Some(LanguageKind::Markup), None, Some(LanguageKind::Programming)];
    let out = select_reported(
        vec![group("A", vec![]), group("B", vec![]), group("C", vec![]), group("D", vec![])],
        &kinds,
    );
    let names: Vec<&str> = out.iter().map(|g| g.language.as_str()).collect();
    assert_eq!(names, vec!["B", "D"]);
}

#[test]
fn sort_by_count_breaks_ties_by_name() {
    let out = sort_by_count(vec![
        group("Go", vec![detection("Extension", "a.go")]),
        group("C", vec![detection("Extension", "a.c")]),
        group("Zig", vec![detection("Extension", "a.zig"), detection("Extension", "b.zig")]),
    ]);
    let names: Vec<&str> = out.iter().map(|g| g.language.as_str()).collect();
    assert_eq!(names, vec!["Zig", "C", "Go"]);
}

#[test]
fn percentages_sum_close_to_hundred() {
    let groups = vec![
        group("A", vec![detection("Extension", "a")]),
        group("B", vec![detection("Extension", "b")]),
        group("C", vec![detection("Extension", "c")]),
    ];
    let out = print_language_split(&groups);
    assert_eq!(out, "33.33% A\n33.33% B\n33.33% C\n");
    let sum: f64 = out.lines().map(|l| l.split('%').next().unwrap().parse::<f64>().unwrap()).sum();
    assert!((sum - 100.0).abs() <= 0.01 * 3.0);
}

#[test]
fn percentages_round_and_whole() {
    let one = vec![group("A", vec![detection("Extension", "a")])];
    assert_eq!(print_language_split(&one), "100.00% A\n");
    let mut files = Vec::new();
    for i in 0..7 {
        files.push(detection("Extension", &format!("f{}", i)));
    }
    let groups = vec![group("A", files), group("B", vec![detection("Extension", "x")])];
    assert_eq!(print_language_split(&groups), "87.50% A\n12.50% B\n");
}

#[test]
fn empty_grouping_prints_no_percentages() {
    assert_eq!(print_language_split(&vec![]), "");
    assert_eq!(print_language_split(&vec![group("A", vec![])]), "");
}

#[test]
fn decimal_digits() {
    let mut s = String::from("n=");
    append_decimal(&mut s, 0);
    assert_eq!(s, "n=0");
    let mut t = String::new();
    append_decimal(&mut t, 1234507);
    assert_eq!(t, "1234507");
}

#[test]
fn text_order_is_byte_order() {
    assert!(compare_text("Go", "Rust") < 0);
    assert!(compare_text("Rust", "Ru") > 0);
    assert_eq!(compare_text("Rust", "Rust"), 0);
    assert!(compare_text("Z", "a") < 0);
}

fn strategy_sample() -> Vec<LanguageGroup> {
    vec![
        group("Rust", vec![detection("Extension", "./z.rs"), detection("Filename", "./build.rs")]),
        group("Markdown", vec![detection("Extension", "README.md")]),
        group("Shell", vec![detection("Shebang", "./run"), detection("Extension", "./a.sh")]),
    ]
}

#[test]
fn strategy_buckets_partition_files() {
    let groups = strategy_sample();
    let buckets = aggregate_strategies(&groups);
    let names: Vec<&str> = buckets.iter().map(|b| b.strategy.as_str()).collect();
    assert_eq!(names, vec!["Extension", "Filename", "Shebang"]);
    let mut seen: Vec<String> = buckets.iter().flat_map(|b| b.entries.iter().map(|e| e.path.clone())).collect();
    seen.sort();
    let mut all: Vec<String> = groups.iter().flat_map(|g| g.files.iter().map(|f| f.path.clone())).collect();
    all.sort();
    assert_eq!(seen, all);
    let first: Vec<(&str, &str)> =
        buckets[0].entries.iter().map(|e| (e.language.as_str(), e.path.as_str())).collect();
    assert_eq!(first, vec![("Markdown", "README.md"), ("Rust", "./z.rs"), ("Shell", "./a.sh")]);
}

#[test]
fn strategy_breakdown_text() {
    let groups = strategy_sample();
    let out = print_strategy_breakdown(&groups, &options(false, Some("Ext|File")));
    assert_eq!(
        text(&out),
        "Extension (3)\nREADME.md (Markdown)\nz.rs (Rust)\na.sh (Shell)\n\nFilename (1)\nbuild.rs (Rust)\n\n"
    );
    assert_eq!(out[3].style, Style::Language);
    assert_eq!(out[3].text, " (Markdown)\n");
    let condensed = print_strategy_breakdown(&groups, &options(true, None));
    assert_eq!(text(&condensed), "Extension (3)\nFilename (1)\nShebang (1)\n");
}

#[test]
fn rerun_gives_identical_output() {
    let groups = strategy_sample();
    let mut reversed = strategy_sample();
    reversed.reverse();
    for g in reversed.iter_mut() {
        g.files.reverse();
    }
    let a = text(&print_strategy_breakdown(&groups, &options(false, None)));
    let b = text(&print_strategy_breakdown(&groups, &options(false, None)));
    let c = text(&print_strategy_breakdown(&reversed, &options(false, None)));
    assert_eq!(a, b);
    assert_eq!(a, c);
    let mut groups_reversed = strategy_sample();
    groups_reversed.reverse();
    let g1 = group_languages(strategy_sample());
    let g2 = group_languages(groups_reversed);
    assert_eq!(print_language_split(&g1), print_language_split(&g2));
    assert_eq!(
        text(&print_file_breakdown(&g1, &options(false, None))),
        text(&print_file_breakdown(&g2, &options(false, None)))
    );
}

#[test]
fn bucket_paths_follow_component_order() {
    let groups = vec![group(
        "Rust",
        vec![detection("Extension", "./src/parser.rs"), detection("Extension", "./src/parser/mod.rs")],
    )];
    let out = print_strategy_breakdown(&groups, &options(false, None));
    assert_eq!(text(&out), "Extension (2)\nsrc/parser/mod.rs (Rust)\nsrc/parser.rs (Rust)\n\n");
}

#[test]
fn component_keys_order_like_paths() {
    let paths = [
        "./src/parser.rs", "./src/parser/mod.rs", "src/a", "src-b/a", "/usr/a", ".", "..", "../a",
        "-x", "a//b", "a/./b", "a/b/", "a", "a.b", "a/b", "./a", "", "b",
    ];
    for a in paths.iter() {
        for b in paths.iter() {
            let ka = path_component_key(a);
            let kb = path_component_key(b);
            let expected: std::cmp::Ordering = std::path::Path::new(a).cmp(std::path::Path::new(b));
            assert_eq!(ka.cmp(&kb), expected, "{} vs {}", a, b);
        }
    }
}

#[test]
fn exact_half_hundredths_round_to_even() {
    let mut files = Vec::new();
    for i in 0..31 {
        files.push(detection("Extension", &format!("f{}", i)));
    }
    let groups = vec![group("A", files), group("B", vec![detection("Extension", "x")])];
    assert_eq!(print_language_split(&groups), "96.88% A\n3.12% B\n");
}

use codestats::analysis::{count_lines, file_extension, language_for_extension};
use codestats::config::{default_languages, ignored_dirs, should_skip};
use codestats::models::LanguageStats;
use codestats::utils::{left_pad, right_pad, str_eq};

#[test]
fn count_lines_counts_terminators_and_final_partial_line() {
    assert_eq!(count_lines(b""), 0);
    assert_eq!(count_lines(b"a"), 1);
    assert_eq!(count_lines(b"a\n"), 1);
    assert_eq!(count_lines(b"a\nb"), 2);
    assert_eq!(count_lines(b"a\nb\n"), 2);
    assert_eq!(count_lines(b"\n\n"), 2);
    assert_eq!(count_lines(b"one\r\ntwo\r\n"), 2);
}

#[test]
fn file_extension_takes_text_after_final_dot() {
    assert_eq!(file_extension("main.rs"), Some("rs".to_string()));
    assert_eq!(file_extension("archive.tar.gz"), Some("gz".to_string()));
    assert_eq!(file_extension("Makefile"), None);
    assert_eq!(file_extension(""), None);
    assert_eq!(file_extension("trailing."), Some(String::new()));
    assert_eq!(file_extension(".rs"), Some("rs".to_string()));
}

#[test]
fn registry_lookup_finds_first_match() {
    let languages = default_languages();
    assert_eq!(language_for_extension(&languages, "rs"), Some("Rust".to_string()));
    assert_eq!(language_for_extension(&languages, "go"), Some("Go".to_string()));
    assert_eq!(language_for_extension(&languages, "md"), None);
    assert_eq!(language_for_extension(&languages, ""), None);
}

#[test]
fn ignored_directory_table_is_complete() {
    let dirs = ignored_dirs();
    assert_eq!(dirs.len(), 17);
    for name in ["node_modules", "target", ".git", "__pycache__", "lua_modules"] {
        assert!(dirs.iter().any(|d| d == name));
    }
}

#[test]
fn skip_decision_covers_hidden_and_ignored_names() {
    assert!(should_skip("node_modules", true));
    assert!(should_skip(".git", true));
    assert!(should_skip(".anything", true));
    assert!(!should_skip(".", true));
    assert!(!should_skip("src", true));
    assert!(!should_skip("node_modules", false));
    assert!(!should_skip(".hidden.rs", false));
}

#[test]
fn percentages_of_empty_totals_are_zero() {
    let stats = LanguageStats { files: 0, lines: 0 };
    assert_eq!(stats.calculate_percentages(0, 0), (0, 0));
}

#[test]
fn percentages_round_to_nearest_tenth() {
    let stats = LanguageStats { files: 1, lines: 1 };
    assert_eq!(stats.calculate_percentages(8, 2), (125, 500));
    let all = LanguageStats { files: 3, lines: 7 };
    assert_eq!(all.calculate_percentages(3, 7), (1000, 1000));
    let third = LanguageStats { files: 1, lines: 2 };
    assert_eq!(third.calculate_percentages(3, 3), (333, 667));
}

#[test]
fn pads_fill_and_truncate() {
    assert_eq!(right_pad("ab", 5), "ab   ");
    assert_eq!(left_pad("ab", 5), "   ab");
    assert_eq!(right_pad("abcdef", 3), "abc");
    assert_eq!(left_pad("abcdef", 3), "abc");
    assert_eq!(right_pad("", 2), "  ");
    assert_eq!(left_pad("xy", 2), "xy");
}

#[test]
fn string_comparison_is_by_content() {
    assert!(str_eq("node_modules", "node_modules"));
    assert!(!str_eq("node", "node_modules"));
    assert!(!str_eq("a", "b"));
    assert!(str_eq("", ""));
}

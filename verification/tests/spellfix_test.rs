use koe::spellfix::{apply_case_pattern, levenshtein, tokenize, SpellFixConfig, SpellFixer, Token};

/// A small word list standing in for the embedded one: every word the
/// scenarios below rely on.
const WORDS: &str = "check\nyour\nsettings\nupdate\nprofile\nhello\nworld\nrun\ndeploy\ncluster\ngreat\nconfigure\nnginx\n";

fn fixer() -> SpellFixer {
    SpellFixer::new(SpellFixConfig::default(), WORDS)
}

fn fixer_with(dict: &[&str]) -> SpellFixer {
    let user_dict: Vec<String> = dict.iter().map(|s| s.to_string()).collect();
    SpellFixer::new_with_user_dict(SpellFixConfig::default(), WORDS, &user_dict)
}

#[test]
fn test_levenshtein_identical() {
    assert_eq!(levenshtein("hello", "hello", 5), 0);
}

#[test]
fn test_levenshtein_insertion() {
    assert_eq!(levenshtein("settings", "settingss", 5), 1);
}

#[test]
fn test_levenshtein_doubled_syllable() {
    assert_eq!(levenshtein("profile", "profilele", 5), 2);
}

#[test]
fn test_levenshtein_early_termination() {
    // "abc" vs "xyz" has distance 3, but max is 1 so returns > 1
    assert!(levenshtein("abc", "xyz", 1) > 1);
}

#[test]
fn test_correct_doubled_letter() {
    let (result, count) = fixer().correct_text("check your settingss");
    assert_eq!(result, "check your settings");
    assert_eq!(count, 1);
}

#[test]
fn test_correct_doubled_syllable() {
    let (result, count) = fixer().correct_text("update your profilele");
    assert_eq!(result, "update your profile");
    assert_eq!(count, 1);
}

#[test]
fn test_valid_words_unchanged() {
    let (result, count) = fixer().correct_text("hello world");
    assert_eq!(result, "hello world");
    assert_eq!(count, 0);
}

#[test]
fn test_skip_short_words() {
    let (result, count) = fixer().correct_text("I am ok");
    assert_eq!(result, "I am ok");
    assert_eq!(count, 0);
}

#[test]
fn test_mixed_chinese_english() {
    let (result, count) = fixer().correct_text("\u{6253}\u{5f00}settingss\u{9875}\u{9762}");
    assert_eq!(result, "\u{6253}\u{5f00}settings\u{9875}\u{9762}");
    assert_eq!(count, 1);
}

#[test]
fn test_preserve_case_upper() {
    assert_eq!(apply_case_pattern("HELLO", "world"), "WORLD");
}

#[test]
fn test_preserve_case_title() {
    assert_eq!(apply_case_pattern("Hello", "world"), "World");
}

#[test]
fn test_preserve_case_lower() {
    assert_eq!(apply_case_pattern("hello", "world"), "world");
}

#[test]
fn test_user_dictionary_words_preserved() {
    let fixer = fixer_with(&["kubectl", "nginx"]);
    let (result, count) = fixer.correct_text("run kubectl on nginx");
    assert_eq!(result, "run kubectl on nginx");
    assert_eq!(count, 0);
}

#[test]
fn test_hotword_match_preserves_dictionary_casing() {
    let fixer = fixer_with(&["Kubernetes", "PostgreSQL"]);
    // ASR garbles "Kubernetes" -> "kubernatis" (edit distance 2)
    let (result, count) = fixer.correct_text("deploy to kubernatis");
    assert_eq!(result, "deploy to Kubernetes");
    assert_eq!(count, 1);
}

#[test]
fn test_hotword_match_lenient_distance() {
    let user_dict = vec!["Kubernetes".to_string()];
    let config = SpellFixConfig {
        hotword_max_distance_percent: 40,
        hotword_max_distance_cap: 5,
        ..Default::default()
    };
    let fixer = SpellFixer::new_with_user_dict(config, WORDS, &user_dict);
    // "kubernetees" has distance 2 from "kubernetes" (extra 'e')
    let (result, count) = fixer.correct_text("kubernetees cluster");
    assert_eq!(result, "Kubernetes cluster");
    assert_eq!(count, 1);
}

#[test]
fn test_hotword_match_mixed_chinese_english() {
    let fixer = fixer_with(&["Kubernetes"]);
    let (result, count) = fixer.correct_text("\u{90e8}\u{7f72}\u{5230}kubernatis\u{96c6}\u{7fa4}");
    assert_eq!(result, "\u{90e8}\u{7f72}\u{5230}Kubernetes\u{96c6}\u{7fa4}");
    assert_eq!(count, 1);
}

#[test]
fn test_hotword_exact_match_no_correction() {
    let fixer = fixer_with(&["Kubernetes"]);
    // Exact match (lowercase) is a known word, kept as-is
    let (result, count) = fixer.correct_text("kubernetes is great");
    assert_eq!(result, "kubernetes is great");
    assert_eq!(count, 0);
}

#[test]
fn test_hotword_priority_over_general_wordlist() {
    let fixer = fixer_with(&["Nginx"]);
    // "nginy" is close to "nginx"
    let (result, count) = fixer.correct_text("configure nginy");
    assert_eq!(result, "configure Nginx");
    assert_eq!(count, 1);
}

// ─── Further scenarios ──────────────────────────────────────────────

#[test]
fn levenshtein_reports_exact_distance_within_bound() {
    assert_eq!(levenshtein("kitten", "sitting", 5), 3);
    assert_eq!(levenshtein("", "abc", 3), 3);
    assert_eq!(levenshtein("flaw", "lawn", 2), 2);
}

#[test]
fn levenshtein_length_gap_gives_max_plus_one() {
    assert_eq!(levenshtein("a", "abcdef", 2), 3);
}

#[test]
fn levenshtein_counts_utf8_bytes() {
    // One character of three bytes against one ASCII byte: three edits.
    assert_eq!(levenshtein("\u{4e2d}", "a", 5), 3);
}

#[test]
fn tokenize_alternates_runs() {
    let tokens = tokenize("ab\u{4e2d}1cd");
    assert_eq!(tokens.len(), 3);
    match &tokens[0] {
        Token::EnglishWord(s) => assert_eq!(s, "ab"),
        _ => panic!("expected a word"),
    }
    match &tokens[1] {
        Token::Other(s) => assert_eq!(s, "\u{4e2d}1"),
        _ => panic!("expected other text"),
    }
    match &tokens[2] {
        Token::EnglishWord(s) => assert_eq!(s, "cd"),
        _ => panic!("expected a word"),
    }
    assert!(tokenize("").is_empty());
}

#[test]
fn case_pattern_mixed_keeps_dictionary_form() {
    assert_eq!(apply_case_pattern("hELLo", "world"), "world");
    assert_eq!(apply_case_pattern("", "world"), "WORLD");
    assert_eq!(apply_case_pattern("Hello", ""), "");
}

#[test]
fn correction_keeps_title_case() {
    let (result, count) = fixer().correct_text("Settingss");
    assert_eq!(result, "Settings");
    assert_eq!(count, 1);
    let (result, count) = fixer().correct_text("SETTINGSS");
    assert_eq!(result, "SETTINGS");
    assert_eq!(count, 1);
}

#[test]
fn correction_gives_up_on_ties_between_different_words() {
    let fixer = SpellFixer::new(SpellFixConfig::default(), "cart\ncard\n");
    // "carx" is one edit from both "cart" and "card", same length.
    let (result, count) = fixer.correct_text("carx");
    assert_eq!(result, "carx");
    assert_eq!(count, 0);
}

#[test]
fn correction_prefers_shorter_candidate_on_equal_distance() {
    let fixer = SpellFixer::new(SpellFixConfig::default(), "tests\ntest\n");
    // "testt": one edit from "test" and from "tests"; the shorter wins.
    let (result, count) = fixer.correct_text("testt");
    assert_eq!(result, "test");
    assert_eq!(count, 1);
}

#[test]
fn unknown_words_without_candidate_are_kept() {
    let (result, count) = fixer().correct_text("zzzzz qqq");
    assert_eq!(result, "zzzzz qqq");
    assert_eq!(count, 0);
}

#[test]
fn word_list_lines_are_trimmed() {
    let fixer = SpellFixer::new(SpellFixConfig::default(), "  alpha \r\n\n beta\n");
    let (result, count) = fixer.correct_text("alpha beta");
    assert_eq!(result, "alpha beta");
    assert_eq!(count, 0);
}

#[test]
fn dictionary_entries_with_non_letters_are_not_hotwords() {
    let fixer = fixer_with(&["VS Code", "C++"]);
    let (result, count) = fixer.correct_text("vscode");
    assert_eq!(result, "vscode");
    assert_eq!(count, 0);
}

#[test]
fn default_config_values() {
    let c = SpellFixConfig::default();
    assert_eq!(c.min_word_length, 3);
    assert_eq!(c.max_distance_percent, 30);
    assert_eq!(c.max_distance_cap, 3);
    assert_eq!(c.hotword_max_distance_percent, 40);
    assert_eq!(c.hotword_max_distance_cap, 5);
}

#[test]
fn dictionary_entry_wins_over_equally_close_general_word() {
    let words = "configure\nnginz\n";
    // Without the dictionary the general list corrects "nginy" to "nginz".
    let plain = SpellFixer::new(SpellFixConfig::default(), words);
    assert_eq!(plain.correct_text("configure nginy"), ("configure nginz".to_string(), 1));
    // With it, the dictionary entry comes first and keeps its casing.
    let user_dict = vec!["Nginx".to_string()];
    let fixer = SpellFixer::new_with_user_dict(SpellFixConfig::default(), words, &user_dict);
    assert_eq!(fixer.correct_text("configure nginy"), ("configure Nginx".to_string(), 1));
}

#[test]
fn unbounded_caps_still_correct() {
    let config = SpellFixConfig {
        min_word_length: 3,
        max_distance_percent: 30,
        max_distance_cap: usize::MAX,
        hotword_max_distance_percent: 40,
        hotword_max_distance_cap: usize::MAX,
    };
    let fixer = SpellFixer::new(config, WORDS);
    assert_eq!(fixer.correct_text("check your settingss"), ("check your settings".to_string(), 1));
    let huge = SpellFixConfig {
        min_word_length: 3,
        max_distance_percent: usize::MAX,
        max_distance_cap: usize::MAX,
        hotword_max_distance_percent: usize::MAX,
        hotword_max_distance_cap: usize::MAX,
    };
    // Any word within reach: "hellp" is one edit from "hello", the closest.
    let fixer = SpellFixer::new(huge, WORDS);
    assert_eq!(fixer.correct_text("hellp"), ("hello".to_string(), 1));
}

#[test]
fn correcting_corrected_text_changes_nothing() {
    let fixer = fixer_with(&["Kubernetes", "Nginx"]);
    let (once, n) = fixer.correct_text("deploy kubernets 集群 and nginy, CHECKK settingss!");
    assert_eq!(once, "deploy Kubernetes 集群 and Nginx, CHECK settings!");
    assert_eq!(n, 4);
    assert_eq!(fixer.correct_text(&once), (once.clone(), 0));
}

//! Tests for tokenization, file filtering, and sampling.

use tccst::config::Config;
use tccst::error::Error;
use tccst::words::{choose_words, code_to_words, find_files, FileEntry, Sampler};

fn config(word_count: usize) -> Config {
    Config {
        project_path: "/".to_string(),
        file_extension: "rs".to_string(),
        word_count,
        strict: false,
        skip_word_on_space: false,
    }
}

#[test]
fn get_words() {
    let words = code_to_words("a b c".into());
    let expected = vec!["a".to_string(), "b".into(), "c".into()];
    assert_eq!(words, expected);

    let words = code_to_words("a //b c d".into());
    let expected = vec!["a".to_string()];
    assert_eq!(words, expected);
}

#[test]
fn choose_some_words() {
    let words = vec!["a".to_string(), "b".into(), "c".into()];
    let chosen = choose_words(words.clone(), 3);
    assert_eq!(words, chosen);
}

#[test]
fn chosen_window_is_contiguous() {
    let words = vec!["a".to_string(), "b".into(), "c".into()];
    let chosen = choose_words(words, 2);
    assert!(
        chosen == vec!["a".to_string(), "b".into()] || chosen == vec!["b".to_string(), "c".into()]
    );
}

#[test]
fn comment_only_strips_its_own_line() {
    let words = code_to_words("x//y\nz".into());
    assert_eq!(words, vec!["x".to_string(), "z".into()]);
}

#[test]
fn comment_at_line_start_drops_line() {
    let words = code_to_words("// all comment\nkeep".into());
    assert_eq!(words, vec!["keep".to_string()]);
}

#[test]
fn empty_and_blank_input_has_no_words() {
    assert_eq!(code_to_words(String::new()), Vec::<String>::new());
    assert_eq!(code_to_words("  \n\t \n".into()), Vec::<String>::new());
}

#[test]
fn unicode_whitespace_separates_tokens() {
    let words = code_to_words("a\tb\u{00a0}c".into());
    assert_eq!(words, vec!["a".to_string(), "b".into(), "c".into()]);
}

#[test]
fn multibyte_content_is_tokenized_by_character() {
    let words = code_to_words("héllo wörld // çomment".into());
    assert_eq!(words, vec!["héllo".to_string(), "wörld".into()]);
}

#[test]
fn truncation_counts_characters_not_bytes() {
    // Five characters of multibyte text: a byte-based cut would either
    // panic or split a character; a character-based one keeps "héllo".
    let s = Sampler::new(&config(1), vec!["a.rs".to_string()], 5).unwrap();
    let sample = s.accept("héllo wörld").unwrap();
    assert_eq!(sample, vec!["héllo".to_string()]);
}

#[test]
fn single_slash_is_kept() {
    let words = code_to_words("a/b / c".into());
    assert_eq!(words, vec!["a/b".to_string(), "/".into(), "c".into()]);
}

fn entry(path: &str, is_file: bool) -> FileEntry {
    FileEntry { path: path.to_string(), is_file }
}

#[test]
fn find_files_filters_by_extension() {
    let entries = vec![
        entry("src/a.rs", true),
        entry("src/b.txt", true),
        entry("dir.rs", false),
        entry("src/noext", true),
        entry("src/.gitignore", true),
        entry("src/c.tar.rs", true),
    ];
    let found = find_files(entries, "rs");
    assert_eq!(found, vec!["src/a.rs".to_string(), "src/c.tar.rs".to_string()]);
}

#[test]
fn find_files_strips_leading_dot() {
    let entries = vec![entry("a.c", true), entry("b.rs", true)];
    let found = find_files(entries, ".c");
    assert_eq!(found, vec!["a.c".to_string()]);
}

#[test]
fn find_files_empty_result_is_not_an_error() {
    let found = find_files(vec![entry("a.rs", true)], "py");
    assert_eq!(found, Vec::<String>::new());
}

#[test]
fn sampler_rejects_empty_candidates() {
    let r = Sampler::new(&config(3), Vec::new(), 100);
    assert!(matches!(r, Err(Error::NoFiles)));
}

#[test]
fn sampler_rejects_zero_word_count() {
    let r = Sampler::new(&config(0), vec!["a.rs".to_string()], 100);
    assert!(matches!(r, Err(Error::ZeroWordCount)));
}

#[test]
fn sampler_picks_each_candidate_once() {
    let mut s = Sampler::new(&config(2), vec!["a.rs".to_string(), "b.rs".into()], 100).unwrap();
    let first = s.pick().unwrap();
    let second = s.pick().unwrap();
    assert_ne!(first, second);
    assert!(s.pick().is_none());
}

#[test]
fn sampler_accepts_content_with_enough_words() {
    let s = Sampler::new(&config(2), vec!["a.rs".to_string()], 100).unwrap();
    let sample = s.accept("a b c").unwrap();
    assert_eq!(sample.len(), 2);
    assert!(
        sample == vec!["a".to_string(), "b".into()] || sample == vec!["b".to_string(), "c".into()]
    );
}

#[test]
fn sampler_rejects_content_with_too_few_words() {
    let s = Sampler::new(&config(2), vec!["a.rs".to_string()], 100).unwrap();
    assert!(s.accept("lonely").is_none());
}

#[test]
fn sampler_truncates_to_character_budget() {
    let s = Sampler::new(&config(1), vec!["a.rs".to_string()], 3).unwrap();
    let sample = s.accept("ab cd").unwrap();
    assert_eq!(sample, vec!["ab".to_string()]);
}

#[test]
fn sampling_loop_finds_the_one_sufficient_file() {
    // Two candidates; only one has enough words. Whatever order the
    // sampler tries them in, the loop must end on the sufficient one.
    let files = vec!["short.rs".to_string(), "long.rs".into()];
    let mut s = Sampler::new(&config(2), files, 100).unwrap();
    let result = loop {
        match s.pick() {
            Some(file) => {
                let content = if file == "long.rs" { "a b c" } else { "x" };
                if let Some(sample) = s.accept(content) {
                    break Ok(sample);
                }
            }
            None => break Err(Error::InsufficientWords),
        }
    };
    let sample = result.unwrap();
    assert_eq!(sample.len(), 2);
    assert!(
        sample == vec!["a".to_string(), "b".into()] || sample == vec!["b".to_string(), "c".into()]
    );
}

#[test]
fn sampling_loop_fails_when_every_file_is_short() {
    let files = vec!["a.rs".to_string(), "b.rs".into()];
    let mut s = Sampler::new(&config(3), files, 100).unwrap();
    let result: Result<Vec<String>, Error> = loop {
        match s.pick() {
            Some(_) => {
                if let Some(sample) = s.accept("too few") {
                    break Ok(sample);
                }
            }
            None => break Err(Error::InsufficientWords),
        }
    };
    assert!(matches!(result, Err(Error::InsufficientWords)));
}

#[test]
fn config_new_validates_word_count() {
    let bad = Config::new("/".to_string(), "rs".to_string(), 0, false, false);
    assert!(matches!(bad, Err(Error::ZeroWordCount)));
    let good = Config::new("/p".to_string(), "c".to_string(), 5, true, true).unwrap();
    assert_eq!(good.project_path, "/p");
    assert_eq!(good.file_extension, "c");
    assert_eq!(good.word_count, 5);
    assert!(good.strict);
    assert!(good.skip_word_on_space);
}

#[test]
fn error_messages() {
    assert_eq!(Error::NoFiles.to_string(), "No code files found");
    assert_eq!(
        Error::InsufficientWords.to_string(),
        "Not enough words to meet word count"
    );
    assert_eq!(Error::ZeroWordCount.to_string(), "Word count can not be zero");
    assert_eq!(Error::PathMissing.to_string(), "Provide a path to a Rust project");
    assert_eq!(
        Error::InvalidColor.to_string(),
        "Color needs to be a u8 or a color string."
    );
    assert_eq!(
        Error::InvalidFile.to_string(),
        "File format was incorrect (possibly binary?)"
    );
    assert!(Error::NeedsHelp.to_string().starts_with("Usage: tccst"));
    assert!(Error::Version.to_string().starts_with("Version:"));
}

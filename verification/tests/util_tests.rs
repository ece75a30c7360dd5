use tg_opencode::util::{
    context_key, fit_telegram_text, normalize_project_name, normalize_thinking, now_ms, strip_ansi,
    task_key, NameError,
};

#[test]
fn context_key_without_thread() {
    assert_eq!(context_key(42, None), "42:main");
    assert_eq!(task_key("42:main", "demo"), "42:main|demo");
}

#[test]
fn context_key_with_thread_and_negative_chat() {
    assert_eq!(context_key(-1001234, Some(7)), "-1001234:7");
    assert_eq!(context_key(i64::MIN, Some(-3)), "-9223372036854775808:-3");
}

#[test]
fn project_names_are_normalized() {
    assert_eq!(normalize_project_name("  My  App ").unwrap(), "My-App");
    assert_eq!(normalize_project_name("a/b\\c:d*e?f\"g<h>i|j").unwrap(), "a-b-c-d-e-f-g-h-i-j");
    assert_eq!(normalize_project_name("--x -- y--").unwrap(), "x-y");
    assert_eq!(normalize_project_name("main").unwrap(), "main");
}

#[test]
fn normalized_names_normalize_to_themselves() {
    for raw in ["  My  App ", "a//b", "-x-", "tab\tname\nhere", "ünï cødé"] {
        let once = normalize_project_name(raw).unwrap();
        assert_eq!(normalize_project_name(&once).unwrap(), once);
    }
}

#[test]
fn empty_project_name_is_refused() {
    let err = normalize_project_name("  / -- ").unwrap_err();
    assert_eq!(err, NameError::Empty);
    assert_eq!(err.message(), "Project name cannot be empty.");
}

#[test]
fn long_project_name_is_refused() {
    let long = "x".repeat(65);
    let err = normalize_project_name(&long).unwrap_err();
    assert_eq!(err, NameError::TooLong);
    assert_eq!(err.message(), "Project name is too long (max 64 chars).");
    assert_eq!(normalize_project_name(&"x".repeat(64)).unwrap().len(), 64);
    // 33 two-byte characters are 66 bytes.
    assert_eq!(normalize_project_name(&"é".repeat(33)).unwrap_err(), NameError::TooLong);
}

#[test]
fn thinking_values_are_trimmed() {
    assert_eq!(normalize_thinking(Some("  high ")), Some("high".to_string()));
    assert_eq!(normalize_thinking(Some("   ")), None);
    assert_eq!(normalize_thinking(None), None);
}

#[test]
fn fit_keeps_the_last_characters() {
    assert_eq!(fit_telegram_text("hello", 10), "hello");
    assert_eq!(fit_telegram_text("hello world", 5), "world");
    assert_eq!(fit_telegram_text("ééééé", 2), "éé");
    assert_eq!(fit_telegram_text("abc", 0), "");
}

#[test]
fn ansi_sequences_are_removed() {
    assert_eq!(strip_ansi("\u{1b}[31mred\u{1b}[0m text"), "red text");
    assert_eq!(strip_ansi("a\u{1b}b"), "ab");
    assert_eq!(strip_ansi("\u{1b}[12"), "");
    assert!(!strip_ansi("x\u{1b}[1;2;3Hy\u{1b}").contains('\u{1b}'));
}

#[test]
fn ansi_stripping_reads_bytes_as_latin1() {
    // Each byte of a multi-byte character becomes a character of its own.
    assert_eq!(strip_ansi("é"), "\u{c3}\u{a9}");
}

#[test]
fn now_is_after_2020() {
    assert!(now_ms() > 1_577_836_800_000);
}

#[test]
fn plain_ascii_survives_ansi_stripping() {
    let plain = "build ok: 3 files [done] 100%";
    assert_eq!(strip_ansi(plain), plain);
    assert_eq!(strip_ansi(""), "");
}

#[test]
fn ansi_stripping_twice_changes_nothing_on_ascii() {
    for raw in ["\u{1b}[1;32mok\u{1b}[0m", "a\u{1b}b\u{1b}[", "\u{1b}\u{1b}[[x]z", "plain"] {
        let once = strip_ansi(raw);
        assert_eq!(strip_ansi(&once), once);
    }
}

#[test]
fn accepted_names_are_tidy() {
    for raw in ["  My  App ", "a//b", "--x -- y--", "α β", "w\tx\ny"] {
        let name = normalize_project_name(raw).unwrap();
        assert!(!name.is_empty());
        assert!(name.len() <= 64);
        assert!(!name.contains("--"));
        assert!(!name.starts_with('-') && !name.ends_with('-'));
        assert!(!name.chars().any(|c| c.is_whitespace() || "\\/:*?\"<>|".contains(c)));
    }
}

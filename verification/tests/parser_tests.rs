use ccfolia_log_parser::error::{FieldKind, MyError, ParseError, ParseErrorKind};
use ccfolia_log_parser::log::Log;
use ccfolia_log_parser::{drop_before_start, parse_batch};

fn field(lines: &[&str]) -> Vec<String> {
    lines.iter().map(|l| l.to_string()).collect()
}

#[test]
fn validate_tab_strips_brackets_once() {
    assert_eq!(Log::validate_tab("[メイン]").unwrap(), "メイン");
    assert_eq!(Log::validate_tab("[main]").unwrap(), "main");
    // Whitespace is trimmed and embedded newlines removed before validation.
    assert_eq!(Log::validate_tab("  [雑談]\n ").unwrap(), "雑談");
    // Only one bracket pair is stripped.
    assert_eq!(Log::validate_tab("[[メイン]]").unwrap(), "[メイン]");
}

#[test]
fn validate_tab_rejects_unbracketed_text() {
    assert!(Log::validate_tab("メイン]").is_err());
    assert!(Log::validate_tab("[メイン").is_err());
    assert!(Log::validate_tab("メイン").is_err());
    assert_eq!(
        Log::validate_tab("main").unwrap_err().kind,
        ParseErrorKind::InvalidTabFormat
    );
}

#[test]
fn validate_tab_rejects_single_character_and_empty() {
    // One grapheme: the first and last cluster coincide, so it cannot be
    // bracketed on both sides.
    assert!(Log::validate_tab("[").is_err());
    assert!(Log::validate_tab("]").is_err());
    assert!(Log::validate_tab("").is_err());
    assert!(Log::validate_tab("   ").is_err());
}

#[test]
fn validate_tab_is_grapheme_aware() {
    // A combining mark after the bracket fuses with it into one grapheme
    // cluster, so the first cluster is no longer exactly `[`.
    assert!(Log::validate_tab("[\u{0301}x]").is_err());
    // An interior combining mark is kept intact.
    assert_eq!(Log::validate_tab("[e\u{0301}]").unwrap(), "e\u{0301}");
}

#[test]
fn parse_batch_of_nothing_is_empty() {
    let blocks: Vec<Vec<Vec<String>>> = Vec::new();
    assert_eq!(parse_batch(&blocks).unwrap().len(), 0);
}

#[test]
fn log_new_parses_a_block() {
    let fields = vec![
        field(&["[メイン]"]),
        field(&[" PC1 "]),
        field(&["一行目", "  二行目  ", ""]),
    ];
    let log = Log::new(&fields).unwrap();
    assert_eq!(log.tab, "メイン");
    assert_eq!(log.name, "PC1");
    assert_eq!(log.texts, vec!["一行目", "二行目", ""]);
}

#[test]
fn log_new_reports_first_failure() {
    let no_fields: Vec<Vec<String>> = vec![];
    assert_eq!(
        Log::new(&no_fields).unwrap_err().kind,
        ParseErrorKind::MissingField(FieldKind::Tab)
    );

    let two_tab_lines = vec![field(&["[a]", "[b]"]), field(&["PC1"]), field(&["x"])];
    assert_eq!(
        Log::new(&two_tab_lines).unwrap_err().kind,
        ParseErrorKind::WrongLineCount(FieldKind::Tab, 2)
    );

    let bad_tab = vec![field(&["メイン"]), field(&["PC1"]), field(&["x"])];
    assert_eq!(
        Log::new(&bad_tab).unwrap_err().kind,
        ParseErrorKind::InvalidTabFormat
    );

    let no_name = vec![field(&["[メイン]"])];
    assert_eq!(
        Log::new(&no_name).unwrap_err().kind,
        ParseErrorKind::MissingField(FieldKind::Name)
    );

    let zero_name_lines = vec![field(&["[メイン]"]), Vec::new(), field(&["x"])];
    assert_eq!(
        Log::new(&zero_name_lines).unwrap_err().kind,
        ParseErrorKind::WrongLineCount(FieldKind::Name, 0)
    );

    let no_text = vec![field(&["[メイン]"]), field(&["PC1"])];
    assert_eq!(
        Log::new(&no_text).unwrap_err().kind,
        ParseErrorKind::MissingField(FieldKind::Text)
    );
}

#[test]
fn parse_error_messages_are_deterministic() {
    let e = ParseError {
        kind: ParseErrorKind::WrongLineCount(FieldKind::Tab, 12),
    };
    assert_eq!(e.message(), "タブ名が1行ではなく12行あります");
    let e = ParseError {
        kind: ParseErrorKind::MissingField(FieldKind::Name),
    };
    assert_eq!(e.message(), "名前を格納するspanタグが見つかりません");
    let e = ParseError {
        kind: ParseErrorKind::InvalidTabFormat,
    };
    assert_eq!(e.message(), "不正なタブ名です");
    assert_eq!(
        MyError::Parse(e).message(),
        "Parse Error: 不正なタブ名です"
    );
    assert_eq!(
        MyError::Io("file missing".to_string()).message(),
        "IO Error: file missing"
    );
}

#[test]
fn parse_batch_collects_all_blocks() {
    let blocks = vec![
        vec![field(&["[メイン]"]), field(&["PC1"]), field(&["こんにちは"])],
        vec![field(&["[雑談]"]), field(&["PC2"]), field(&["やあ", "二行目"])],
    ];
    let logs = parse_batch(&blocks).unwrap();
    assert_eq!(logs.len(), 2);
    assert_eq!(logs[0].tab, "メイン");
    assert_eq!(logs[1].name, "PC2");
    assert_eq!(logs[1].texts, vec!["やあ", "二行目"]);
}

#[test]
fn parse_batch_aborts_on_first_failure() {
    let blocks = vec![
        vec![field(&["[メイン]"]), field(&["PC1"]), field(&["一つ目"])],
        vec![field(&["壊れたタブ"]), field(&["PC2"]), field(&["二つ目"])],
        vec![field(&["[a]", "[b]"]), field(&["PC3"]), field(&["三つ目"])],
    ];
    // The second block fails first; its failure wins over the third's.
    assert_eq!(
        parse_batch(&blocks).unwrap_err().kind,
        ParseErrorKind::InvalidTabFormat
    );
}

fn simple_log(name: &str, text: &str) -> Log {
    Log {
        tab: "メイン".to_string(),
        name: name.to_string(),
        texts: vec![text.to_string()],
    }
}

#[test]
fn start_marker_discards_previous_entries() {
    let logs = vec![
        simple_log("PC1", "古い発言"),
        simple_log("PC2", "これも古い"),
        simple_log("system", "---start---"),
        simple_log("PC1", "新しい発言"),
    ];
    let kept = drop_before_start(&logs);
    assert_eq!(kept.len(), 1);
    assert_eq!(kept[0].name, "PC1");
    assert_eq!(kept[0].texts, vec!["新しい発言"]);
}

#[test]
fn last_start_marker_wins() {
    let logs = vec![
        simple_log("PC1", "a"),
        simple_log("system", "---start---"),
        simple_log("PC2", "b"),
        simple_log("system", "---start---"),
        simple_log("PC3", "c"),
        simple_log("PC4", "d"),
    ];
    let kept = drop_before_start(&logs);
    assert_eq!(kept.len(), 2);
    assert_eq!(kept[0].name, "PC3");
    assert_eq!(kept[1].name, "PC4");
}

#[test]
fn start_marker_must_be_the_sole_line() {
    let logs = vec![
        simple_log("PC1", "a"),
        Log {
            tab: "メイン".to_string(),
            name: "system".to_string(),
            texts: vec!["---start---".to_string(), "おまけ".to_string()],
        },
    ];
    let kept = drop_before_start(&logs);
    assert_eq!(kept.len(), 2);
}

use ccfolia_log_parser::log::Log;
use ccfolia_log_parser::log_summary::extract_skills_for_logs;
use ccfolia_log_parser::log_summary::extract_skills_from_log_text;
use ccfolia_log_parser::log_summary::LogSummary;
use ccfolia_log_parser::log_summary::UserChoice;

fn create_test_summary(
    successes: Vec<Log>,
    failures: Vec<Log>,
    criticals: Vec<Log>,
    fumbles: Vec<Log>,
) -> LogSummary {
    LogSummary {
        successes,
        failures,
        criticals,
        fumbles,
    }
}

#[test]
fn test_extract_prefix_before_gt_simple() {
    assert_eq!(
        extract_skills_from_log_text("CCB<=51 【拳】 (1D100<=51) ＞ 85 ＞ 失敗"),
        Some("CCB<=51 【拳】 (1D100<=51)".to_string())
    );
}

#[test]
fn test_extract_prefix_no_gt() {
    assert_eq!(extract_skills_from_log_text("普通のテキスト"), None);
    assert_eq!(extract_skills_from_log_text("CCB<=51 【拳】 (1D100<=51) "), None);
}

#[test]
fn test_extract_prefix_empty_text() {
    assert_eq!(extract_skills_from_log_text(""), None);
}

#[test]
fn test_extract_prefix_gt_at_start() {
    assert_eq!(extract_skills_from_log_text("＞ 後半のみ"), Some("".to_string()));
}

#[test]
fn test_extract_prefix_with_trailing_whitespace() {
    assert_eq!(
        extract_skills_from_log_text("プレフィックスのみ   ＞ 後半"),
        Some("プレフィックスのみ".to_string())
    );
}

#[test]
fn test_extract_prefix_multiple_gt() {
    assert_eq!(
        extract_skills_from_log_text("最初の部分 ＞ 2番目の部分 ＞ 最後の部分"),
        Some("最初の部分".to_string())
    );
}

#[test]
fn test_extract_skills_empty_list() {
    let logs: Vec<Log> = Vec::new();
    let skills = extract_skills_for_logs(&logs);
    assert!(skills.len() == 0);
}

#[test]
fn test_extract_skills_no_skills_in_logs() {
    let log1 = Log {
        tab: "メイン".to_string(),
        name: "PC1".to_string(),
        // These texts do not contain '＞'
        texts: vec![
            "イオリ (いおり) : 1d10 (1D10) = 8".to_string(),
            "CCB<=80 (1D100<=80) = 50 = 成功".to_string(),
        ],
    };
    let logs = vec![log1];
    let skills = extract_skills_for_logs(&logs);
    assert!(skills.len() == 0);
}

#[test]
fn test_extract_skills_single_log_single_skill() {
    let log1 = Log {
        tab: "メイン".to_string(),
        name: "PC1".to_string(),
        texts: vec!["CCB<=25 【目星】 (1D100<=25) ＞ 10 ＞ 成功".to_string()],
    };
    let logs = vec![log1];
    let skills = extract_skills_for_logs(&logs);
    assert_eq!(skills.len(), 1);
    assert_eq!(skills.get("CCB<=25 【目星】 (1D100<=25)"), Some(1));
}

#[test]
fn test_extract_skills_multiple_logs_counting() {
    let log1 = Log {
        tab: "メイン".to_string(),
        name: "PC1".to_string(),
        texts: vec!["CCB<=60 【攻撃】 (1D100<=60) ＞ 30 ＞ 成功".to_string()],
    };
    let log2 = Log {
        tab: "メイン".to_string(),
        name: "PC1".to_string(),
        texts: vec![
            "CCB<=50 【回避】 (1D100<=50) ＞ 55 ＞ 失敗".to_string(),
            "何か【攻撃】 (1D100<=60) ＞ 5 ＞ 決定的成功".to_string(),
        ],
    };
    let log3 = Log {
        tab: "メイン".to_string(),
        name: "PC2".to_string(),
        texts: vec![
            "CCB<=70 【応急手当】 (1D100<=70) ＞ 20 ＞ 成功".to_string(),
            "そして【攻撃】 (1D100<=60) ＞ 98 ＞ 致命的失敗".to_string(),
        ],
    };
    let logs = vec![log1, log2, log3];
    let skills = extract_skills_for_logs(&logs);

    assert_eq!(skills.len(), 5);
    assert_eq!(skills.get("CCB<=60 【攻撃】 (1D100<=60)"), Some(1));
    assert_eq!(skills.get("CCB<=50 【回避】 (1D100<=50)"), Some(1));
    assert_eq!(skills.get("何か【攻撃】 (1D100<=60)"), Some(1));
    assert_eq!(skills.get("CCB<=70 【応急手当】 (1D100<=70)"), Some(1));
    assert_eq!(skills.get("そして【攻撃】 (1D100<=60)"), Some(1));
}

#[test]
fn test_extract_skills_log_with_multiple_texts_same_skill() {
    let log1 = Log {
        tab: "メイン".to_string(),
        name: "PC1".to_string(),
        texts: vec![
            "【知略】(1d100<=60) ＞ 30 ＞ 成功".to_string(),
            "【知略】(1d100<=60) ＞ 40 ＞ 成功".to_string(),
        ],
    };
    let logs = vec![log1];
    let skills = extract_skills_for_logs(&logs);
    assert_eq!(skills.len(), 1);
    assert_eq!(skills.get("【知略】(1d100<=60)"), Some(2));
}

#[test]
fn test_format_no_skills_chosen_or_present() {
    let summary = create_test_summary(vec![], vec![], vec![], vec![]);
    let output = summary.format_with_skills(None);
    let expected = "通常成功：0\n通常失敗：0\nクリティカル：0\nファンブル：0\n";
    assert_eq!(output, expected);

    let output_critical_chosen = summary.format_with_skills(Some(UserChoice::Critical as usize));
    let expected_critical =
        "通常成功：0\n通常失敗：0\nクリティカル：0\nファンブル：0\nクリティカルした技能: なし\n";
    assert_eq!(output_critical_chosen, expected_critical);
}

#[test]
fn test_format_criticals_with_skills() {
    let crit_log1 = Log {
        tab: "メイン".to_string(),
        name: "PC1".to_string(),
        texts: vec!["CCB<=5 【目星】 (1D100<=5) ＞ 3 ＞ 決定的成功".to_string()],
    };
    let crit_log2 = Log {
        tab: "メイン".to_string(),
        name: "PC1".to_string(),
        texts: vec!["部屋の隅で【聞き耳】 (1D100<=71) ＞ 1 ＞ スペシャル！".to_string()],
    };
    let crit_log3 = Log {
        tab: "メイン".to_string(),
        name: "PC2".to_string(),
        texts: vec!["CCB<=10 【目星】 (1D100<=10) ＞ 1 ＞ 決定的成功！！！！".to_string()],
    };
    let summary = create_test_summary(vec![], vec![], vec![crit_log1, crit_log2, crit_log3], vec![]);
    let output = summary.format_with_skills(Some(UserChoice::Critical as usize));

    let expected_base = "通常成功：0\n通常失敗：0\nクリティカル：3\nファンブル：0\n";
    assert!(output.starts_with(expected_base));
    assert!(output.contains("クリティカルした技能: "));
    // Order can vary, check for individual skill strings
    assert!(output.contains("CCB<=5 【目星】 (1D100<=5)（1回）"));
    assert!(output.contains("部屋の隅で【聞き耳】 (1D100<=71)（1回）"));
    assert!(output.contains("CCB<=10 【目星】 (1D100<=10)（1回）"));
    assert!(output.ends_with("\n"));
}

#[test]
fn test_format_successes_with_skills_and_no_skills_chosen() {
    let success_log1 = Log {
        tab: "メイン".to_string(),
        name: "PC1".to_string(),
        texts: vec!["1d100<=48 【SAN値チェック】 (1D100<=48) ＞ 22 ＞ 成功".to_string()],
    };
    let success_log2 = Log {
        tab: "メイン".to_string(),
        name: "PC2".to_string(),
        texts: vec!["CCB<=80 (1D100<=80) ＞ 50 ＞ 成功".to_string()],
    };
    let summary = create_test_summary(vec![success_log1, success_log2], vec![], vec![], vec![]);

    // Test with "Success" chosen
    let output_success_chosen = summary.format_with_skills(Some(UserChoice::Success as usize));
    let expected_base_success = "通常成功：2\n通常失敗：0\nクリティカル：0\nファンブル：0\n";
    assert!(output_success_chosen.starts_with(expected_base_success));
    assert!(output_success_chosen.contains("通常成功した技能: "));
    assert!(output_success_chosen.contains("1d100<=48 【SAN値チェック】 (1D100<=48)（1回）"));
    assert!(output_success_chosen.contains("CCB<=80 (1D100<=80)（1回）"));
    assert!(output_success_chosen.ends_with("\n"));

    // Test with None chosen (no specific skill list)
    let output_none_chosen = summary.format_with_skills(None);
    let expected_none = "通常成功：2\n通常失敗：0\nクリティカル：0\nファンブル：0\n";
    assert_eq!(output_none_chosen, expected_none);
}

#[test]
fn test_format_fumbles_no_skills() {
    let fumble_log = Log {
        tab: "メイン".to_string(),
        name: "PC1".to_string(),
        texts: vec!["CCB<=71 【聞き耳】 (1D100<=71) ＞ 96 ＞ 致命的失敗".to_string()],
    };
    let summary = create_test_summary(vec![], vec![], vec![], vec![fumble_log]);
    let output = summary.format_with_skills(Some(UserChoice::Fumble as usize));
    let expected_base_fumble = "通常成功：0\n通常失敗：0\nクリティカル：0\nファンブル：1\n";
    assert!(output.starts_with(expected_base_fumble));
    assert!(output.contains("ファンブルした技能: CCB<=71 【聞き耳】 (1D100<=71)（1回）"));
    assert!(output.ends_with("\n"));
}

#[test]
fn test_format_fumbles_log_without_gt() {
    let fumble_log_no_skill = Log {
        tab: "メイン".to_string(),
        name: "PC1".to_string(),
        texts: vec!["CCB<=80 (1D100<=80) = 100 = 致命的失敗".to_string()], // No '＞'
    };
    let summary = create_test_summary(vec![], vec![], vec![], vec![fumble_log_no_skill]);
    let output = summary.format_with_skills(Some(UserChoice::Fumble as usize));
    let expected =
        "通常成功：0\n通常失敗：0\nクリティカル：0\nファンブル：1\nファンブルした技能: なし\n";
    assert_eq!(output, expected);
}

#[test]
fn test_format_invalid_choice_index() {
    let summary = create_test_summary(vec![], vec![], vec![], vec![]);
    let output = summary.format_with_skills(Some(99)); // Invalid index
    let expected = "通常成功：0\n通常失敗：0\nクリティカル：0\nファンブル：0\n";
    assert_eq!(output, expected);
}

#[test]
fn test_format_chosen_skills_criticals_present() {
    let crit_log1 = Log {
        tab: "メイン".to_string(),
        name: "PC1".to_string(),
        texts: vec!["CCB<=25 【目星】 (1D100<=25) ＞ 1 ＞ 決定的成功".to_string()],
    };
    let crit_log2 = Log {
        tab: "メイン".to_string(),
        name: "PC1".to_string(),
        texts: vec!["CCB<=5 【ブラフ】 (1D100<=5) ＞ 1 ＞ スペシャル".to_string()],
    };
    let summary = create_test_summary(vec![], vec![], vec![crit_log1, crit_log2], vec![]);
    let output = summary.format_chosen_skills_only(UserChoice::Critical as usize);
    // Skills are sorted: "CCB<=25..." comes before "CCB<=5..." lexicographically
    let expected =
        "  クリティカルした技能: 《CCB<=25 【目星】 (1D100<=25)》（1回）, 《CCB<=5 【ブラフ】 (1D100<=5)》（1回）";
    assert_eq!(output, expected);
}

#[test]
fn test_format_chosen_skills_successes_none_extractable() {
    let success_log_no_gt = Log {
        tab: "メイン".to_string(),
        name: "PC1".to_string(),
        texts: vec!["CCB<=80 (1D100<=80) = 50 = 成功".to_string()], // No '＞'
    };
    let summary = create_test_summary(vec![success_log_no_gt], vec![], vec![], vec![]);
    let output = summary.format_chosen_skills_only(UserChoice::Success as usize);
    assert_eq!(output, "  成功した技能: なし");
}

#[test]
fn test_format_chosen_skills_fumbles_with_skills_sorted() {
    let fumble1 = Log {
        tab: "メイン".to_string(),
        name: "PC1".to_string(),
        texts: vec!["CCB<=71 【応急手当】 (1D100<=71) ＞ 96 ＞ 致命的失敗".to_string()],
    };
    let fumble2 = Log {
        tab: "メイン".to_string(),
        name: "PC1".to_string(),
        texts: vec!["CCB<=50 【回避】 (1D100<=50) ＞ 100 ＞ 致命的失敗".to_string()],
    };
    let fumble3 = Log {
        tab: "メイン".to_string(),
        name: "PC2".to_string(),
        texts: vec!["CCB<=50 【回避】 (1D100<=50) ＞ 99 ＞ 致命的失敗".to_string()],
    };
    let summary = create_test_summary(vec![], vec![], vec![], vec![fumble1, fumble2, fumble3]);
    let output = summary.format_chosen_skills_only(UserChoice::Fumble as usize);
    let expected =
        "  ファンブルした技能: 《CCB<=50 【回避】 (1D100<=50)》（2回）, 《CCB<=71 【応急手当】 (1D100<=71)》（1回）";
    assert_eq!(output, expected);
}

#[test]
fn test_format_chosen_skills_empty_category() {
    let summary = create_test_summary(vec![], vec![], vec![], vec![]); // No failure logs
    let output = summary.format_chosen_skills_only(UserChoice::Failure as usize);
    assert_eq!(output, "  失敗した技能: なし");
}

#[test]
fn test_format_chosen_skills_invalid_index() {
    let summary = create_test_summary(vec![], vec![], vec![], vec![]);
    let output = summary.format_chosen_skills_only(99); // Invalid index
    assert_eq!(output, "");
}

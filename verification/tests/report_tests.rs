use ccfolia_log_parser::log::Log;
use ccfolia_log_parser::log_summary::{LogSummary, UserChoice};
use ccfolia_log_parser::{get_log_summary, get_pc_summary};

fn entry(name: &str, lines: &[&str]) -> Log {
    Log {
        tab: "メイン".to_string(),
        name: name.to_string(),
        texts: lines.iter().map(|l| l.to_string()).collect(),
    }
}

#[test]
fn classification_buckets_by_keyword() {
    let logs = vec![
        entry("PC1", &["CCB<=50 ＞ 30 ＞ 成功"]),
        entry("PC1", &["CCB<=50 ＞ 90 ＞ 失敗"]),
        entry("PC1", &["CCB<=50 ＞ 2 ＞ 決定的成功"]),
        entry("PC1", &["CCB<=50 ＞ 100 ＞ 致命的失敗"]),
        entry("PC1", &["ただの雑談"]),
        entry("PC1", &["CCB<=50 ＞ 49 ＞ スペシャル"]),
    ];
    let summary = get_log_summary(&logs);
    assert_eq!(summary.successes.len(), 2); // 成功 and スペシャル
    assert_eq!(summary.failures.len(), 1);
    assert_eq!(summary.criticals.len(), 1);
    assert_eq!(summary.fumbles.len(), 1);
}

#[test]
fn compound_markers_take_precedence() {
    // 決定的成功 contains 成功, but the entry must land in criticals only.
    let logs = vec![entry("PC1", &["CCB<=50 ＞ 2 ＞ 決定的成功"])];
    let summary = get_log_summary(&logs);
    assert_eq!(summary.successes.len(), 0);
    assert_eq!(summary.criticals.len(), 1);
    // 致命的失敗 contains 失敗, but the entry must land in fumbles only.
    let logs = vec![entry("PC1", &["CCB<=50 ＞ 100 ＞ 致命的失敗"])];
    let summary = get_log_summary(&logs);
    assert_eq!(summary.failures.len(), 0);
    assert_eq!(summary.fumbles.len(), 1);
}

#[test]
fn entry_may_match_several_categories() {
    // One line succeeds, another fails: the entry appears in both buckets.
    let logs = vec![entry("PC1", &["a ＞ 成功", "b ＞ 失敗"])];
    let summary = get_log_summary(&logs);
    assert_eq!(summary.successes.len(), 1);
    assert_eq!(summary.failures.len(), 1);
}

#[test]
fn classification_is_idempotent() {
    let logs = vec![
        entry("PC1", &["x ＞ 成功"]),
        entry("PC2", &["y ＞ 失敗"]),
        entry("PC3", &["z ＞ 決定的成功"]),
        entry("PC4", &["w ＞ 致命的失敗"]),
        entry("PC5", &["雑談"]),
    ];
    let first = get_log_summary(&logs);
    let again = get_log_summary(&first.successes);
    assert_eq!(again.successes.len(), first.successes.len());
    for (a, b) in again.successes.iter().zip(first.successes.iter()) {
        assert_eq!(a.name, b.name);
        assert_eq!(a.texts, b.texts);
    }
    let again = get_log_summary(&first.fumbles);
    assert_eq!(again.fumbles.len(), first.fumbles.len());
}

#[test]
fn pc_summary_groups_by_name() {
    let logs = vec![
        entry("PC1", &["…＞…成功"]),
        entry("PC1", &["…＞…失敗"]),
        entry("PC1", &["…＞…決定的成功"]),
        entry("PC2", &["…＞…致命的失敗"]),
    ];
    let report = get_pc_summary(&logs);
    assert_eq!(report.len(), 2);
    let pc1: &LogSummary = &report.iter().find(|p| p.0 == "PC1").unwrap().1;
    assert_eq!(pc1.successes.len(), 1);
    assert_eq!(pc1.failures.len(), 1);
    assert_eq!(pc1.criticals.len(), 1);
    assert_eq!(pc1.fumbles.len(), 0);
    let pc2: &LogSummary = &report.iter().find(|p| p.0 == "PC2").unwrap().1;
    assert_eq!(pc2.fumbles.len(), 1);
}

#[test]
fn pc_summary_drops_names_with_all_buckets_empty() {
    let logs = vec![
        entry("PC1", &["x ＞ 成功"]),
        entry("narrator", &["ただの描写で、結果の言葉はない"]),
        entry("narrator", &["まだ何もない"]),
    ];
    let report = get_pc_summary(&logs);
    assert_eq!(report.len(), 1);
    assert_eq!(report[0].0, "PC1");
}

#[test]
fn sorted_skill_rendering_is_lexicographic() {
    // Token A has count 2, token B has count 1; insertion order is B first.
    let summary = LogSummary {
        successes: vec![
            entry("PC1", &["B ＞ 1 ＞ 成功"]),
            entry("PC1", &["A ＞ 2 ＞ 成功"]),
            entry("PC2", &["A ＞ 3 ＞ 成功"]),
        ],
        failures: vec![],
        criticals: vec![],
        fumbles: vec![],
    };
    let output = summary.format_chosen_skills_only(UserChoice::Success as usize);
    assert_eq!(output, "  成功した技能: 《A》（2回）, 《B》（1回）");
}

#[test]
fn print_log_lists_every_bucket() {
    let logs = vec![entry("PC1", &["x ＞ 成功", "雑談"])];
    let summary = get_log_summary(&logs);
    let text = summary.print_log();
    let expected = "----- 通常成功 -----\n\
                    tab:メイン\n\
                    name:PC1\n\
                    0:x ＞ 成功\n\
                    1:雑談\n\
                    ----- 通常失敗 -----\n\
                    ----- クリティカル -----\n\
                    ----- ファンブル -----\n";
    assert_eq!(text, expected);
}

#[test]
fn user_choice_round_trip() {
    assert_eq!(UserChoice::from_index(0), Some(UserChoice::Success));
    assert_eq!(UserChoice::from_index(1), Some(UserChoice::Failure));
    assert_eq!(UserChoice::from_index(2), Some(UserChoice::Critical));
    assert_eq!(UserChoice::from_index(3), Some(UserChoice::Fumble));
    assert_eq!(UserChoice::from_index(4), None);
    assert_eq!(UserChoice::Success.to_display_string(), "成功");
    assert_eq!(UserChoice::Failure.to_display_string(), "失敗");
    assert_eq!(UserChoice::Critical.to_display_string(), "クリティカル");
    assert_eq!(UserChoice::Fumble.to_display_string(), "ファンブル");
}

#[test]
fn counts_render_multi_digit_numbers() {
    let mut successes = Vec::new();
    let mut k: usize = 0;
    while k < 12 {
        successes.push(entry("PC1", &["x ＞ 成功"]));
        k += 1;
    }
    let summary = LogSummary {
        successes,
        failures: vec![],
        criticals: vec![],
        fumbles: vec![],
    };
    let output = summary.format_with_skills(None);
    assert_eq!(
        output,
        "通常成功：12\n通常失敗：0\nクリティカル：0\nファンブル：0\n"
    );
}

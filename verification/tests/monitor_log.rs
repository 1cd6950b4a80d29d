use arbitrage_bot::earnings_log::trim_earnings_log;
use arbitrage_bot::monitor::{max_earnings_entries, next_poll_step, summary_due, PollAction};

#[test]
fn poll_handles_only_newer_blocks() {
    assert_eq!(next_poll_step(10, Some(11)), (11, PollAction::CheckPrices));
    assert_eq!(next_poll_step(10, Some(10)), (10, PollAction::WaitForNextBlock));
    assert_eq!(next_poll_step(10, Some(9)), (10, PollAction::WaitForNextBlock));
    assert_eq!(next_poll_step(10, None), (10, PollAction::RetryAfterError));
    assert_eq!(PollAction::WaitForNextBlock.wait_millis(), 500);
    assert_eq!(PollAction::RetryAfterError.wait_millis(), 1000);
    assert_eq!(PollAction::CheckPrices.wait_millis(), 0);
}

#[test]
fn summary_every_minute() {
    assert!(!summary_due(59));
    assert!(summary_due(60));
    assert!(summary_due(3600));
    assert!(!summary_due(-5));
}

fn limit(s: Option<&str>) -> usize {
    let chars: Option<Vec<char>> = s.map(|v| v.chars().collect());
    max_earnings_entries(chars.as_deref())
}

#[test]
fn entry_limit_reads_like_std() {
    for s in ["500", "+7", "0", "abc", "", "+", "-5", " 5", "5 ", "99999999999999999999999", "18446744073709551615", "٣"] {
        let expected = s.parse::<usize>().ok().unwrap_or(1000);
        assert_eq!(limit(Some(s)), expected, "setting {:?}", s);
    }
    assert_eq!(limit(None), 1000);
    assert_eq!(limit(Some("500")), 500);
}

const SEPARATOR: &str = "═══════════════════════════════════════════════════════════";

fn entry(stamp: &str, opportunities: u32) -> String {
    format!(
        "{SEPARATOR}\nEARNINGS SUMMARY - {stamp}\n{SEPARATOR}\nOpportunities found:  {opportunities}\nTotal Net Profit:     $1.00 USDC.e\n\n"
    )
}

/// The earnings log trimmed the way the monitor always did it.
fn reference_trim(content: &str, max_entries: usize) -> Option<String> {
    if max_entries == 0 {
        return None;
    }
    let entry_count = content.matches("EARNINGS SUMMARY").count();
    if entry_count <= max_entries {
        return None;
    }
    let entries: Vec<&str> = content.split("EARNINGS SUMMARY").skip(1).collect();
    let mut new_content = String::new();
    for e in &entries[entries.len() - max_entries..] {
        new_content.push_str(SEPARATOR);
        new_content.push_str("\nEARNINGS SUMMARY");
        new_content.push_str(e);
        if !e.ends_with('\n') {
            new_content.push('\n');
        }
    }
    Some(new_content)
}

fn trim(content: &str, max_entries: usize) -> Option<String> {
    let chars: Vec<char> = content.chars().collect();
    trim_earnings_log(&chars, max_entries).map(|v| v.into_iter().collect())
}

#[test]
fn trim_keeps_last_entries() {
    let log: String = (1..=5).map(|i| entry(&format!("2024-01-0{i} 10:00:00"), i)).collect();
    let trimmed = trim(&log, 2).unwrap();
    assert_eq!(Some(trimmed.clone()), reference_trim(&log, 2));
    assert_eq!(trimmed.matches("EARNINGS SUMMARY").count(), 2);
    assert!(trimmed.contains("2024-01-04"));
    assert!(trimmed.contains("2024-01-05"));
    assert!(!trimmed.contains("2024-01-03"));
    // trimming again with the same limit changes nothing
    assert_eq!(trim(&trimmed, 2), None);
}

#[test]
fn trim_leaves_short_or_unlimited_logs() {
    let log: String = (1..=3).map(|i| entry("2024-01-01 10:00:00", i)).collect();
    assert_eq!(trim(&log, 0), None);
    assert_eq!(trim(&log, 3), None);
    assert_eq!(trim(&log, 5), None);
    assert_eq!(trim("", 1), None);
}

#[test]
fn trim_matches_reference_on_odd_logs() {
    let cases = [
        "no marker at all",
        "EARNINGS SUMMARYEARNINGS SUMMARY",
        "xEARNINGS SUMMARY a\nEARNINGS SUMMARY b",
        "EARNINGS SUMMARY\nEARNINGS SUMMARY\nEARNINGS SUMMARY",
        "EARNINGS SUMMAR EARNINGS SUMMARY tail",
    ];
    for c in cases {
        for n in 0..4 {
            assert_eq!(trim(c, n), reference_trim(c, n), "log {:?} limit {}", c, n);
        }
    }
}

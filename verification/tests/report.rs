use eratos::report::machine::{describe_cores, parse_cpu_list};
use eratos::report::text::group;
use eratos::report::ui::Ui;

#[test]
fn describe_cores_reads_plainly() {
    assert_eq!(describe_cores(4, 4, None), "4");
    assert_eq!(describe_cores(16, 8, None), "8 (16 threads)");
    assert_eq!(
        describe_cores(11, 11, Some((5, 6))),
        "11 (5 performance, 6 efficiency)"
    );
    assert_eq!(describe_cores(2, 8, None), "2 available, of 8");
    assert_eq!(describe_cores(16, 16, Some((6, 8))), "16");
}

#[test]
fn parse_cpu_list_expands_ranges() {
    assert_eq!(parse_cpu_list("0-3,8\n"), Some(vec![0, 1, 2, 3, 8]));
    assert_eq!(parse_cpu_list("5"), Some(vec![5]));
    assert_eq!(parse_cpu_list(""), None);
}

#[test]
fn group_adds_thousands_separators() {
    assert_eq!(group(0), "0");
    assert_eq!(group(999), "999");
    assert_eq!(group(1_000), "1,000");
    assert_eq!(group(1_234_567), "1,234,567");
}

#[test]
fn primes_are_listed_ten_to_a_line() {
    // no colours, no live progress bar
    let ui = Ui::detect(false, false, false, false, false);
    let out = ui.write_primes(37, &[2, 3, 5, 7, 11, 13, 17, 19, 23, 29, 31]);
    assert_eq!(
        out,
        "  11 primes up to 37\n   2   3   5   7  11  13  17  19  23  29\n  31\n\n"
    );
}

use eratos::report::paint::Paint;
use eratos::report::text::{decimal_string, padded_left, padded_right};
use eratos::report::ui::{Machine, RunOutcome};

fn plain() -> Ui {
    Ui::detect(false, false, false, false, false)
}

fn styled() -> Ui {
    Ui::detect(true, true, false, false, false)
}

#[test]
fn decimals_and_padding() {
    assert_eq!(decimal_string(0), "0");
    assert_eq!(decimal_string(90210), "90210");
    assert_eq!(decimal_string(usize::MAX), usize::MAX.to_string());
    assert_eq!(padded_left("ab", 5), "   ab");
    assert_eq!(padded_right("ab", 5), "ab   ");
    assert_eq!(padded_left("abcdef", 3), "abcdef");
    assert_eq!(padded_left("442 µs", 8), "  442 µs");
    assert_eq!(group(12_345), "12,345");
    assert_eq!(group(100_000_000), "100,000,000");
}

#[test]
fn colours_only_where_asked() {
    assert_eq!(Paint::for_stream(true, false, false, false).bold("x"), "\x1b[1mx\x1b[0m");
    assert_eq!(Paint::for_stream(true, false, false, false).red("x"), "\x1b[31mx\x1b[0m");
    assert_eq!(Paint::for_stream(true, false, false, false).cyan("x"), "\x1b[36mx\x1b[0m");
    assert_eq!(Paint::for_stream(false, false, false, false).bold("x"), "x");
    assert_eq!(Paint::for_stream(true, true, false, false).green("x"), "x");
    assert_eq!(Paint::for_stream(true, false, true, false).yellow("x"), "x");
    assert_eq!(Paint::for_stream(true, false, false, true).dim("x"), "x");
    assert!(styled().is_live());
    assert!(!plain().is_live());
    assert!(!Ui::detect(true, true, false, false, true).is_live());
}

#[test]
fn table_header_names_the_columns() {
    assert_eq!(
        plain().table_header(),
        format!(
            "  {:<21}{:>13}{:>13}{:>12}{:>11}",
            "VARIANT", "PASSES", "PASSES/S", "PASS TIME", "PRIMES"
        )
    );
    assert!(styled().table_header().starts_with("  \x1b[2mVARIANT"));
}

fn outcome(label: &str, valid: Option<bool>) -> RunOutcome {
    RunOutcome { label: label.to_string(), passes: 1234, count: 78498, valid }
}

#[test]
fn rows_mark_the_count() {
    assert_eq!(
        plain().row(&outcome("bit-storage", Some(true)), 5678, "1.23 ms"),
        format!(
            "  {:<21}{:>13}{:>13}{:>12}{:>11} {}",
            "bit-storage", "1,234", "5,678", "1.23 ms", "78,498", "✓"
        )
    );
    assert!(plain().row(&outcome("b", Some(false)), 1, "1 s").ends_with(" ✗"));
    assert!(plain().row(&outcome("b", None), 1, "1 s").ends_with(" ?"));
    assert!(styled().row(&outcome("b", Some(true)), 1, "1 s").ends_with(" \x1b[32m✓\x1b[0m"));
}

#[test]
fn summary_scores_the_best_run() {
    let runs = [outcome("bit-storage", Some(true)), outcome("byte-storage", None)];
    assert_eq!(
        plain().summary(&runs, Some(0), 100, 25),
        vec![
            "".to_string(),
            "  Score  100 passes/s  (bit-storage · 25 per thread)".to_string(),
            "  ? prime counts are only checked when the limit is a power of 10".to_string(),
            "".to_string(),
        ]
    );
    let same = [outcome("bit-storage", Some(false)), outcome("bit-storage", Some(true))];
    assert_eq!(
        plain().summary(&same, Some(1), 12345, 3086),
        vec![
            "".to_string(),
            "  Score  12,345 passes/s  (3,086 per thread)".to_string(),
            "  ✗ some runs counted the wrong number of primes".to_string(),
            "".to_string(),
        ]
    );
}

#[test]
fn summary_of_no_runs_is_empty() {
    assert_eq!(plain().summary(&[], None, 0, 0), Vec::<String>::new());
}

#[test]
fn progress_bar_fills_from_the_left() {
    assert_eq!(
        plain().progress("bit-storage", 3, "0.5", 5),
        format!("\r  {:<21}{}{}  0.5 / 5 s", "bit-storage", "━".repeat(3), "─".repeat(27))
    );
    assert!(styled().progress("b", 30, "5.0", 5).contains("\x1b[2m\x1b[0m"));
}

#[test]
fn header_describes_machine_and_run() {
    let machine = Machine {
        cpu: "Test CPU".to_string(),
        logical: 16,
        physical: 8,
        core_types: None,
    };
    let field = |name: &str, value: &str| format!("  {:<8}  {}", name, value);
    assert_eq!(
        plain().header(&machine, 16, true, 1_000_000, 5, 2, false),
        vec![
            "".to_string(),
            "  Eratos  prime sieve benchmark".to_string(),
            "".to_string(),
            field("CPU", "Test CPU"),
            field("Cores", "8 (16 threads)"),
            field("Threads", "16, one per CPU thread"),
            field("Sieve", "primes up to 1,000,000"),
            field("Duration", "5 s per run"),
            field("Runs", "2 per variant"),
            "".to_string(),
        ]
    );
    let lines = plain().header(&machine, 3, false, 10, 1, 1, true);
    assert_eq!(lines[5], field("Threads", "3"));
    assert_eq!(
        lines[8],
        field("Build", "debug, so expect far lower numbers than with --release")
    );
    assert_eq!(lines.len(), 10);
}

#[test]
fn cpu_lists_read_as_linux_writes_them() {
    assert_eq!(parse_cpu_list(" 2 "), Some(vec![2]));
    assert_eq!(parse_cpu_list("3-1"), Some(vec![]));
    assert_eq!(parse_cpu_list("0-2,7-8\n"), Some(vec![0, 1, 2, 7, 8]));
    assert_eq!(parse_cpu_list("+1-+2"), Some(vec![1, 2]));
    assert_eq!(parse_cpu_list("1,"), None);
    assert_eq!(parse_cpu_list("1-2-3"), None);
    assert_eq!(parse_cpu_list("a"), None);
    assert_eq!(parse_cpu_list("\t\n"), None);
}

#[test]
fn an_empty_list_of_primes() {
    assert_eq!(plain().write_primes(1, &[]), "  0 primes up to 1\n\n");
    let many: Vec<usize> = (1..=12).map(|n| n * 100_003).collect();
    let text = plain().write_primes(2_000_000, &many);
    // columns of nine: seven digits and two spaces, eight to a line
    assert!(text.starts_with("  12 primes up to 2,000,000\n   100003   200006"));
    assert_eq!(text.lines().nth(1).unwrap().len(), 8 * 9);
}

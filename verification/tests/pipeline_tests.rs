use pass_age::gitargs::{blame_args, default_pattern, search_pattern};
use pass_age::pipeline::{process_records, render_record, retain_records, reverse_records, sort_records};
use pass_age::record::{AgeRecord, ModFilter, SortBy};
use pass_age::since::parse_since;

fn rec(path: &str, elapsed: i64, has_history: bool) -> AgeRecord {
    AgeRecord::new(path.as_bytes().to_vec(), elapsed, has_history)
}

fn human(secs: i64) -> String {
    chrono_humanize::HumanTime::from(chrono::Duration::seconds(secs))
        .to_text_en(chrono_humanize::Accuracy::Rough, chrono_humanize::Tense::Past)
}

fn paths(v: &[AgeRecord]) -> Vec<String> {
    v.iter().map(|r| String::from_utf8(r.path.clone()).unwrap()).collect()
}

#[test]
fn sort_by_name_orders_lexicographically() {
    let mut v = vec![rec("b", 1, true), rec("a/x", 2, true), rec("a", 3, false)];
    sort_records(&mut v, SortBy::Name);
    assert_eq!(paths(&v), vec!["a", "a/x", "b"]);
}

#[test]
fn sort_by_age_orders_ascending() {
    let mut v = vec![rec("a", 30, true), rec("b", 10, true), rec("c", 20, true)];
    sort_records(&mut v, SortBy::LastModified);
    assert_eq!(paths(&v), vec!["b", "c", "a"]);
}

#[test]
fn sort_by_age_keeps_discovery_order_on_ties() {
    let mut v = vec![rec("z", 10, true), rec("m", 10, true), rec("a", 10, true), rec("b", 5, true)];
    sort_records(&mut v, SortBy::LastModified);
    assert_eq!(paths(&v), vec!["b", "z", "m", "a"]);
}

#[test]
fn reverse_inverts_order() {
    let mut v = vec![rec("a", 1, true), rec("b", 2, true), rec("c", 3, true)];
    reverse_records(&mut v);
    assert_eq!(paths(&v), vec!["c", "b", "a"]);
}

#[test]
fn sort_name_then_reverse_is_descending() {
    let mut v = vec![rec("b", 1, true), rec("c", 2, true), rec("a", 3, false)];
    sort_records(&mut v, SortBy::Name);
    reverse_records(&mut v);
    assert_eq!(paths(&v), vec!["c", "b", "a"]);
}

#[test]
fn threshold_boundary_only_unmodified() {
    let d = 100;
    let mut v = vec![rec("at", d, true), rec("above", d + 1, true), rec("below", d - 1, true)];
    retain_records(&mut v, ModFilter::OnlyUnmodified, Some(d));
    assert_eq!(paths(&v), vec!["above"]);
}

#[test]
fn threshold_boundary_only_modified() {
    let d = 100;
    let mut v = vec![rec("at", d, true), rec("above", d + 1, true), rec("below", d - 1, true)];
    retain_records(&mut v, ModFilter::OnlyModified, Some(d));
    assert_eq!(paths(&v), vec!["below"]);
}

#[test]
fn no_threshold_keeps_everything() {
    let mut v = vec![rec("a", 1, true), rec("b", 1000, true)];
    retain_records(&mut v, ModFilter::OnlyUnmodified, None);
    assert_eq!(v.len(), 2);
}

#[test]
fn threshold_without_selection_keeps_everything() {
    let mut v = vec![rec("a", 1, true), rec("b", 1000, true)];
    retain_records(&mut v, ModFilter::NoFilter, Some(500));
    assert_eq!(v.len(), 2);
}

#[test]
fn render_modified_record() {
    let r = rec("web/a", 4000, true);
    let line = render_record(&r, ModFilter::NoFilter).unwrap();
    assert_eq!(
        String::from_utf8(line).unwrap(),
        format!("web/a last modified {}", human(4000))
    );
}

#[test]
fn render_added_record() {
    let r = rec("web/b", 4000, false);
    let line = render_record(&r, ModFilter::NoFilter).unwrap();
    assert_eq!(
        String::from_utf8(line).unwrap(),
        format!(
            "web/b hasn't been modified, since it was added to the store, {}",
            human(4000)
        )
    );
}

#[test]
fn render_suppresses_history_under_only_unmodified() {
    assert!(render_record(&rec("a", 10, true), ModFilter::OnlyUnmodified).is_none());
    assert!(render_record(&rec("a", 10, false), ModFilter::OnlyUnmodified).is_some());
}

#[test]
fn render_suppresses_added_under_only_modified() {
    assert!(render_record(&rec("a", 10, false), ModFilter::OnlyModified).is_none());
    assert!(render_record(&rec("a", 10, true), ModFilter::OnlyModified).is_some());
}

#[test]
fn end_to_end_sort_by_name_no_filter() {
    let day = 86400;
    let a = rec("A", 400 * day, true);
    let b = rec("B", 10 * day, false);
    let out = process_records(vec![b, a], SortBy::Name, false, ModFilter::NoFilter, None);
    let lines: Vec<String> = out.into_iter().map(|l| String::from_utf8(l).unwrap()).collect();
    assert_eq!(lines.len(), 2);
    assert_eq!(lines[0], format!("A last modified {}", human(400 * day)));
    assert!(lines[0].contains("year"));
    assert_eq!(
        lines[1],
        format!(
            "B hasn't been modified, since it was added to the store, {}",
            human(10 * day)
        )
    );
}

#[test]
fn end_to_end_only_unmodified_since_thirty_days() {
    let day = 86400;
    let a = rec("A", 400 * day, true);
    let b = rec("B", 10 * day, false);
    let since = parse_since("30days").unwrap();
    assert_eq!(since, 30 * day);

    // Retention: only A (400 days > 30 days) survives; B fails the
    // "only unmodified" threshold.
    let mut v = vec![rec("B", 10 * day, false), rec("A", 400 * day, true)];
    sort_records(&mut v, SortBy::Name);
    retain_records(&mut v, ModFilter::OnlyUnmodified, Some(since));
    assert_eq!(paths(&v), vec!["A"]);

    // Rendering: with the "only unmodified" selection active, a record with
    // history produces no line, so the surviving A is suppressed at the
    // render stage and the run prints nothing.
    let out = process_records(
        vec![b, a],
        SortBy::Name,
        false,
        ModFilter::OnlyUnmodified,
        Some(since),
    );
    assert_eq!(out.len(), 0);
}

#[test]
fn parse_since_accepts_day_counts() {
    assert_eq!(parse_since("365days"), Some(31536000));
    assert_eq!(parse_since("1h"), Some(3600));
}

#[test]
fn parse_since_rejects_invalid_text() {
    assert_eq!(parse_since("soon"), None);
    assert_eq!(parse_since(""), None);
}

#[test]
fn blame_args_lists_options_in_order() {
    let revs = vec!["abc".to_string(), "def".to_string()];
    let files = vec![".git-blame-ignore-revs".to_string()];
    let args = blame_args(&revs, &files, &"web/a.gpg".to_string());
    assert_eq!(
        args,
        vec![
            "blame",
            "-pL",
            ",1",
            "--ignore-rev",
            "abc",
            "--ignore-rev",
            "def",
            "--ignore-revs-file",
            ".git-blame-ignore-revs",
            "--",
            "web/a.gpg",
        ]
        .into_iter()
        .map(String::from)
        .collect::<Vec<String>>()
    );
}

#[test]
fn blame_args_without_options() {
    let args = blame_args(&vec![], &vec![], &"f.gpg".to_string());
    assert_eq!(args, vec!["blame", "-pL", ",1", "--", "f.gpg"].into_iter().map(String::from).collect::<Vec<String>>());
}

#[test]
fn search_patterns_for_targets() {
    assert_eq!(default_pattern(), "**/*.gpg");
    assert_eq!(search_pattern(&"Financial".to_string(), true), "Financial/**/*.gpg");
    assert_eq!(search_pattern(&"web/site".to_string(), false), "web/site.gpg");
}

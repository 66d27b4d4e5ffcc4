use lotto_scout::page::{extract_page, record_from_lines, ResultLine};

fn line(label: Option<&str>, value: Option<&str>) -> ResultLine {
    ResultLine { label: label.map(|s| s.to_string()), value: value.map(|s| s.to_string()) }
}

fn entry(date: Option<&str>, lines: &[(&str, &str)]) -> String {
    let mut s = String::from("<article class=\"archive--lotto\">");
    if let Some(d) = date {
        s.push_str(&format!("<time class=\"archive--lotto__date\" datetime=\"{}\">x</time>", d));
    }
    s.push_str("<ul class=\"archive--lotto__result-list\">");
    for (label, value) in lines {
        s.push_str(&format!(
            "<li><em class=\"archive--lotto__result-txt\">{}</em><strong class=\"archive--lotto__result-number\">{}</strong></li>",
            label, value
        ));
    }
    s.push_str("</ul></article>");
    s
}

fn document(body: &str) -> String {
    format!("<!DOCTYPE html><html><head><title>t</title></head><body>{}</body></html>", body)
}

#[test]
fn complete_entries_become_records() {
    let body = format!(
        "{}{}{}<a class=\"pagination__item--next\" href=\"/lotto/archive/page/2/\">next</a>",
        entry(Some("2024-01-16"), &[("รางวัลที่ 1", " 123456 "), ("เลขท้าย 2 ตัว", "78")]),
        entry(Some("2024-01-01"), &[("รางวัลที่ 1", "654321")]),
        entry(None, &[("เลขท้าย 2 ตัว", "09"), ("รางวัลที่ 1", "000001")]),
    );
    let page = extract_page(&document(&body));
    assert_eq!(page.records.len(), 2);
    assert_eq!(page.records[0].draw_date, "2024-01-16");
    assert_eq!(page.records[0].first_prize, "123456");
    assert_eq!(page.records[0].last_2_digits, "78");
    assert_eq!(page.records[1].draw_date, "Unknown");
    assert_eq!(page.records[1].first_prize, "000001");
    assert_eq!(page.records[1].last_2_digits, "09");
    assert_eq!(page.next.as_deref(), Some("/lotto/archive/page/2/"));
}

#[test]
fn page_without_next_control_ends_the_archive() {
    let body = entry(Some("d"), &[("รางวัลที่ 1", "1"), ("เลขท้าย 2 ตัว", "2")]);
    let page = extract_page(&document(&body));
    assert_eq!(page.records.len(), 1);
    assert!(page.next.is_none());
}

#[test]
fn empty_page_has_nothing() {
    let page = extract_page("");
    assert!(page.records.is_empty());
    assert!(page.next.is_none());
}

#[test]
fn labels_match_by_phrase() {
    let lines = vec![
        line(Some("ผลรางวัลที่ 1 งวดนี้"), Some("111111")),
        line(Some("รางวัลเลขท้าย 2 ตัว"), Some(" 22 ")),
    ];
    let r = record_from_lines(Some("d".to_string()), &lines).unwrap();
    assert_eq!(r.first_prize, "111111");
    assert_eq!(r.last_2_digits, "22");
    assert_eq!(r.draw_date, "d");
}

#[test]
fn first_of_duplicate_labels_is_kept() {
    let lines = vec![
        line(Some("รางวัลที่ 1"), Some("111111")),
        line(Some("รางวัลที่ 1"), Some("999999")),
        line(Some("เลขท้าย 2 ตัว"), Some("22")),
        line(Some("เลขท้าย 2 ตัว"), Some("33")),
    ];
    let r = record_from_lines(None, &lines).unwrap();
    assert_eq!(r.first_prize, "111111");
    assert_eq!(r.last_2_digits, "22");
    assert_eq!(r.draw_date, "Unknown");
}

#[test]
fn lines_missing_a_part_are_skipped() {
    let lines = vec![
        line(Some("รางวัลที่ 1"), None),
        line(None, Some("555555")),
        line(Some("อื่น ๆ"), Some("444444")),
        line(Some("รางวัลที่ 1"), Some("123456")),
        line(Some("เลขท้าย 2 ตัว"), Some("12")),
    ];
    let r = record_from_lines(None, &lines).unwrap();
    assert_eq!(r.first_prize, "123456");
}

#[test]
fn incomplete_entry_gives_no_record() {
    let only_first = vec![line(Some("รางวัลที่ 1"), Some("1"))];
    assert!(record_from_lines(None, &only_first).is_none());
    let only_last = vec![line(Some("เลขท้าย 2 ตัว"), Some("1"))];
    assert!(record_from_lines(Some("d".to_string()), &only_last).is_none());
    assert!(record_from_lines(None, &Vec::new()).is_none());
}

#[test]
fn label_naming_both_counts_as_first_prize() {
    let lines = vec![line(Some("รางวัลที่ 1 และ เลขท้าย 2 ตัว"), Some("1"))];
    assert!(record_from_lines(None, &lines).is_none());
}

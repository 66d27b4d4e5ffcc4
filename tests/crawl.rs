use lotto_scout::crawl::{Crawl, StartError, TaskStatus, START_URL};
use lotto_scout::page::{LottoRecord, Page};

fn record(date: &str, first: &str, last: &str) -> LottoRecord {
    LottoRecord {
        draw_date: date.to_string(),
        first_prize: first.to_string(),
        last_2_digits: last.to_string(),
    }
}

fn page(records: Vec<LottoRecord>, next: Option<&str>) -> Page {
    Page { records, next: next.map(|s| s.to_string()) }
}

fn firsts(status: &TaskStatus) -> Vec<String> {
    status.results.iter().map(|r| r.first_prize.clone()).collect()
}

/// Runs a crawl that meets `outcomes` in turn, and returns the URLs it fetched.
fn run(status: &mut TaskStatus, outcomes: Vec<Result<Page, String>>) -> Vec<String> {
    let mut crawl = Crawl::begin();
    let mut fetched = Vec::new();
    let mut outcomes = outcomes.into_iter();
    while let Some(url) = crawl.next_page(status) {
        fetched.push(url.clone());
        let outcome = outcomes.next().expect("no outcome left for a fetched page");
        crawl.page_done(status, &url, outcome);
    }
    crawl.finish(status);
    fetched
}

#[test]
fn new_status_is_idle_and_empty() {
    let s = TaskStatus::new();
    assert!(!s.is_running);
    assert!(s.lotto_type.is_none());
    assert!(s.progress.is_empty());
    assert!(s.results.is_empty());
}

#[test]
fn start_marks_running_and_resets() {
    let mut s = TaskStatus::new();
    s.results.push(record("d", "1", "2"));
    s.progress.push("old".to_string());
    assert_eq!(s.start("thai"), Ok(()));
    assert!(s.is_running);
    assert_eq!(s.lotto_type.as_deref(), Some("thai"));
    assert_eq!(s.progress, vec!["🚀 Starting scraper for Thai Lottery...".to_string()]);
    assert!(s.results.is_empty());
}

#[test]
fn start_while_running_conflicts_without_change() {
    let mut s = TaskStatus::new();
    s.start("thai").unwrap();
    s.progress.push("📄 Scraping page: x".to_string());
    s.results.push(record("d", "1", "2"));
    assert_eq!(s.start("thai"), Err(StartError::AlreadyRunning));
    assert_eq!(s.start("other"), Err(StartError::AlreadyRunning));
    assert!(s.is_running);
    assert_eq!(s.progress.len(), 2);
    assert_eq!(s.results.len(), 1);
}

#[test]
fn unsupported_category_is_refused() {
    let mut s = TaskStatus::new();
    assert_eq!(s.start("lao"), Err(StartError::UnsupportedCategory));
    assert_eq!(s.start("Thai"), Err(StartError::UnsupportedCategory));
    assert_eq!(s.start(""), Err(StartError::UnsupportedCategory));
    assert!(!s.is_running);
    assert!(s.progress.is_empty());
    assert!(s.lotto_type.is_none());
}

#[test]
fn clean_two_page_run_progress() {
    let mut s = TaskStatus::new();
    s.start("thai").unwrap();
    let fetched = run(
        &mut s,
        vec![
            Ok(page(vec![record("a", "111111", "11")], Some("https://example.org/p2"))),
            Ok(page(vec![record("b", "222222", "22")], None)),
        ],
    );
    assert_eq!(fetched, vec![START_URL.to_string(), "https://example.org/p2".to_string()]);
    assert_eq!(
        s.progress,
        vec![
            "🚀 Starting scraper for Thai Lottery...".to_string(),
            format!("📄 Scraping page: {}", START_URL),
            "📄 Scraping page: https://example.org/p2".to_string(),
            "✅ Thai Lottery scraping complete.".to_string(),
        ]
    );
    assert!(!s.progress.iter().any(|e| e.contains("Error")));
    assert!(!s.is_running);
}

#[test]
fn clean_run_publishes_every_page() {
    let mut s = TaskStatus::new();
    s.start("thai").unwrap();
    run(
        &mut s,
        vec![
            Ok(page(vec![record("a", "1", "01"), record("b", "2", "02")], Some("p2"))),
            Ok(page(vec![], Some("p3"))),
            Ok(page(vec![record("c", "3", "03")], None)),
        ],
    );
    assert_eq!(s.results.len(), 3);
    assert_eq!(firsts(&s), vec!["1", "2", "3"]);
    assert!(!s.is_running);
}

#[test]
fn failed_page_keeps_earlier_records() {
    let mut s = TaskStatus::new();
    s.start("thai").unwrap();
    let fetched = run(
        &mut s,
        vec![
            Ok(page(vec![record("a", "1", "01")], Some("p2"))),
            Ok(page(vec![record("b", "2", "02")], Some("p3"))),
            Err("Request failed with status: 503".to_string()),
        ],
    );
    assert_eq!(fetched.len(), 3);
    assert_eq!(firsts(&s), vec!["1", "2"]);
    assert_eq!(
        s.progress[s.progress.len() - 2],
        "⚠️ Error scraping page p3: Request failed with status: 503"
    );
    assert_eq!(s.progress.last().unwrap(), "✅ Thai Lottery scraping complete.");
    assert!(!s.is_running);
}

#[test]
fn failed_first_page_publishes_nothing() {
    let mut s = TaskStatus::new();
    s.start("thai").unwrap();
    run(&mut s, vec![Err("offline".to_string())]);
    assert!(s.results.is_empty());
    assert_eq!(s.progress.len(), 4);
    assert!(!s.is_running);
    assert_eq!(s.start("thai"), Ok(()));
}

#[test]
fn results_stay_empty_until_the_run_ends() {
    let mut s = TaskStatus::new();
    s.start("thai").unwrap();
    let mut crawl = Crawl::begin();
    let url = crawl.next_page(&mut s).unwrap();
    crawl.page_done(&mut s, &url, Ok(page(vec![record("a", "1", "01")], None)));
    assert!(s.results.is_empty());
    assert!(crawl.next_page(&mut s).is_none());
    crawl.finish(&mut s);
    assert_eq!(s.results.len(), 1);
}

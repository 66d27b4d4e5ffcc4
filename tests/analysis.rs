use lotto_scout::analysis::{analyze, AnalysisError, AnalysisReport};
use lotto_scout::numeric::is_number;

fn strings(items: &[&str]) -> Vec<String> {
    items.iter().map(|s| s.to_string()).collect()
}

fn sample() -> Vec<String> {
    strings(&["123", "123", "123", "456", "456", "789", "111", "222", "333", "444"])
}

fn report(items: &[&str]) -> AnalysisReport {
    match analyze(&strings(items)) {
        Ok(r) => r,
        Err(e) => panic!("analysis refused: {:?}", e),
    }
}

#[test]
fn sample_history_predicts_its_mode() {
    let r = analyze(&sample()).unwrap();
    assert_eq!(r.dataset_size, 10);
    assert_eq!(r.prediction, "123");
    assert_eq!(r.most_frequent[0].value, "123");
    assert_eq!(r.most_frequent[0].count, 3);
    assert_eq!(r.confidence_hundredths, 6200);
    assert_eq!(r.confidence, "62.00%");
}

#[test]
fn sample_history_ranks_by_count_then_first_appearance() {
    let r = analyze(&sample()).unwrap();
    let ranked: Vec<(String, usize)> =
        r.most_frequent.iter().map(|v| (v.value.clone(), v.count)).collect();
    let want: Vec<(String, usize)> = vec![
        ("123".to_string(), 3),
        ("456".to_string(), 2),
        ("789".to_string(), 1),
        ("111".to_string(), 1),
        ("222".to_string(), 1),
        ("333".to_string(), 1),
        ("444".to_string(), 1),
    ];
    assert_eq!(ranked, want);
    assert_eq!(r.alternatives, strings(&["456", "789", "111", "222"]));
}

#[test]
fn sample_history_positions() {
    let r = analyze(&sample()).unwrap();
    assert_eq!(r.positions.len(), 3);
    let got: Vec<(usize, String, usize)> =
        r.positions.iter().map(|p| (p.position, p.digit.clone(), p.count)).collect();
    assert_eq!(
        got,
        vec![
            (1, "1".to_string(), 4),
            (2, "2".to_string(), 4),
            (3, "3".to_string(), 4),
        ]
    );
}

#[test]
fn fewer_than_ten_draws_are_insufficient() {
    for n in 0..10 {
        let items: Vec<String> = (0..n).map(|i| format!("{}", i)).collect();
        assert_eq!(analyze(&items).err(), Some(AnalysisError::InsufficientData));
    }
}

#[test]
fn empty_history_is_insufficient() {
    assert_eq!(analyze(&Vec::new()).err(), Some(AnalysisError::InsufficientData));
}

#[test]
fn ten_numeric_draws_are_analysed() {
    let r = report(&["01", "02", "03", "04", "05", "06", "07", "08", "09", "10"]);
    assert_eq!(r.dataset_size, 10);
    assert_eq!(r.prediction, "01");
}

#[test]
fn too_few_numeric_draws_are_refused() {
    let items = strings(&["a", "b", "c", "d", "e", "f", "1", "2", "3", "4"]);
    assert_eq!(analyze(&items).err(), Some(AnalysisError::NonNumericData));
    let items = strings(&["a", "b", "c", "d", "e", "1", "2", "3", "4", "5"]);
    assert!(analyze(&items).is_ok());
}

#[test]
fn analysis_is_repeatable() {
    let items = strings(&["9", "8", "8", "7", "7", "6", "x", "5", "4", "3", "8"]);
    let a = analyze(&items).unwrap();
    let b = analyze(&items).unwrap();
    assert_eq!(a.prediction, b.prediction);
    assert_eq!(a.alternatives, b.alternatives);
    assert_eq!(a.confidence, b.confidence);
    let fa: Vec<(String, usize)> = a.most_frequent.iter().map(|v| (v.value.clone(), v.count)).collect();
    let fb: Vec<(String, usize)> = b.most_frequent.iter().map(|v| (v.value.clone(), v.count)).collect();
    assert_eq!(fa, fb);
    let pa: Vec<(usize, String, usize)> = a.positions.iter().map(|p| (p.position, p.digit.clone(), p.count)).collect();
    let pb: Vec<(usize, String, usize)> = b.positions.iter().map(|p| (p.position, p.digit.clone(), p.count)).collect();
    assert_eq!(pa, pb);
}

#[test]
fn ranking_lists_at_most_ten_values() {
    let items: Vec<String> = (0..12).map(|i| format!("{:02}", i)).collect();
    let r = analyze(&items).unwrap();
    assert_eq!(r.most_frequent.len(), 10);
    assert_eq!(r.most_frequent[9].value, "09");
    assert_eq!(r.alternatives, strings(&["01", "02", "03", "04"]));
}

#[test]
fn single_value_history_has_no_alternatives() {
    let r = report(&["7"; 10]);
    assert_eq!(r.prediction, "7");
    assert!(r.alternatives.is_empty());
    assert_eq!(r.most_frequent.len(), 1);
    assert_eq!(r.most_frequent[0].count, 10);
}

#[test]
fn leading_zeros_are_kept() {
    let r = report(&["007", "007", "7", "7.0", "070", "007", "1", "2", "3", "4"]);
    assert_eq!(r.prediction, "007");
    assert_eq!(r.most_frequent[0].count, 3);
}

#[test]
fn confidence_grows_and_saturates() {
    let hundred: Vec<String> = (0..100).map(|i| format!("{}", i)).collect();
    let r = analyze(&hundred).unwrap();
    assert_eq!(r.confidence_hundredths, 8000);
    assert_eq!(r.confidence, "80.00%");
    let many: Vec<String> = (0..400).map(|i| format!("{}", i)).collect();
    let r = analyze(&many).unwrap();
    assert_eq!(r.confidence_hundredths, 9500);
    assert_eq!(r.confidence, "95.00%");
    let some: Vec<String> = (0..33).map(|i| format!("{}", i)).collect();
    let r = analyze(&some).unwrap();
    assert_eq!(r.confidence, "66.60%");
}

#[test]
fn positions_cover_the_longest_draw() {
    let r = report(&["1", "12", "123", "1", "1", "1", "1", "1", "1", "1"]);
    assert_eq!(r.positions.len(), 3);
    assert_eq!((r.positions[0].digit.as_str(), r.positions[0].count), ("1", 10));
    assert_eq!((r.positions[1].digit.as_str(), r.positions[1].count), ("2", 2));
    assert_eq!((r.positions[2].digit.as_str(), r.positions[2].count), ("3", 1));
}

#[test]
fn position_ties_go_to_first_seen() {
    let r = report(&["19", "28", "19", "28", "5", "5", "5", "5", "6", "6"]);
    assert_eq!((r.positions[0].digit.as_str(), r.positions[0].count), ("5", 4));
    assert_eq!((r.positions[1].digit.as_str(), r.positions[1].count), ("9", 2));
}

#[test]
fn number_grammar() {
    for t in ["0", "123", "-7", "+7", "1.", ".5", "1.5", "1e5", "1E-5", "2.5e+10", "inf", "-Infinity", "NaN", "+nan", "007"] {
        assert!(is_number(t), "{} should read as a number", t);
    }
    for t in ["", ".", "e5", "1e", "1e+", "1.2.3", " 1", "1 ", "--1", "1_000", "abc", "infinit", "0x10", "+"] {
        assert!(!is_number(t), "{} should not read as a number", t);
    }
}

#[test]
fn number_grammar_agrees_with_float_parsing() {
    for t in ["0", "12.5", "-3e2", ".e1", "1.e1", "inf", "INF", "nan", "x1", "1e1e1", "+-1", "", "٣"] {
        assert_eq!(is_number(t), t.parse::<f64>().is_ok(), "{}", t);
    }
}

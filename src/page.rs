//! Archive pages: the records of one page and the link to the next one.
use vstd::prelude::*;
use crate::text::{contains_text, occurs_in, texts_of, trim_text, trimmed};

verus! {

/// One archived draw, as texts: draw date, first prize, last two digits.
pub type RecordModel = (Seq<char>, Seq<char>, Seq<char>);

/// One archived draw.
pub struct LottoRecord {
    pub draw_date: String,
    pub first_prize: String,
    pub last_2_digits: String,
}

impl View for LottoRecord {
    type V = RecordModel;

    open spec fn view(&self) -> RecordModel {
        (self.draw_date@, self.first_prize@, self.last_2_digits@)
    }
}

/// The records of a list of draws.
pub open spec fn records_model(v: Seq<LottoRecord>) -> Seq<RecordModel> {
    v.map_values(|r: LottoRecord| r@)
}

/// What one archive page holds, as mathematical values.
pub struct PageModel {
    pub records: Seq<RecordModel>,
    pub next: Option<Seq<char>>,
}

/// What one archive page holds: its complete records and the link to the next page.
pub struct Page {
    pub records: Vec<LottoRecord>,
    pub next: Option<String>,
}

/// The text of an optional string.
pub open spec fn opt_text(o: Option<String>) -> Option<Seq<char>> {
    match o {
        Some(s) => Some(s@),
        None => None,
    }
}

impl View for Page {
    type V = PageModel;

    open spec fn view(&self) -> PageModel {
        PageModel { records: records_model(self.records@), next: opt_text(self.next) }
    }
}

/// The elements that hold one archived draw each.
pub const ENTRY_SELECTOR: &'static str = "article.archive--lotto";

/// The date marker of an archived draw.
pub const DATE_SELECTOR: &'static str = "time.archive--lotto__date";

/// The attribute of the date marker that holds the date.
pub const DATE_ATTRIBUTE: &'static str = "datetime";

/// The labelled result lines of an archived draw.
pub const LINE_SELECTOR: &'static str = "ul.archive--lotto__result-list li";

/// The label of a result line.
pub const LABEL_SELECTOR: &'static str = "em.archive--lotto__result-txt";

/// The value of a result line.
pub const VALUE_SELECTOR: &'static str = "strong.archive--lotto__result-number";

/// The control that leads to the next archive page.
pub const NEXT_SELECTOR: &'static str = "a.pagination__item--next";

/// The attribute of the next-page control that holds its target.
pub const NEXT_ATTRIBUTE: &'static str = "href";

/// The phrase of the first-prize label.
pub const FIRST_PRIZE_PHRASE: &'static str = "รางวัลที่ 1";

/// The phrase of the last-two-digits label.
pub const LAST_TWO_PHRASE: &'static str = "เลขท้าย 2 ตัว";

/// The date of a draw whose entry has no date marker.
pub const UNKNOWN_DATE: &'static str = "Unknown";

/// The outer markup of each element of the document `markup` that `selector`
/// matches, in document order; empty when the selector is not accepted.
pub uninterp spec fn matches_of(markup: Seq<char>, selector: Seq<char>) -> Seq<Seq<char>>;

/// The text of the first element of the document `markup` that `selector` matches;
/// `None` when none does or the selector is not accepted.
pub uninterp spec fn first_text_of(markup: Seq<char>, selector: Seq<char>) -> Option<Seq<char>>;

/// The value of attribute `attr` of the first element of the document `markup` that
/// `selector` matches; `None` when none does, it lacks the attribute, or the selector
/// is not accepted.
pub uninterp spec fn first_attr_of(markup: Seq<char>, selector: Seq<char>, attr: Seq<char>) -> Option<
    Seq<char>,
>;

/// Relies on scraper's `Selector::parse`, `Html::parse_document`, `Html::select` and
/// `ElementRef::html`: the outer markup of the matching elements, in document order.
#[verifier::external_body]
fn select_all(markup: &str, selector: &str) -> (r: Vec<String>)
    ensures
        texts_of(r@) == matches_of(markup@, selector@),
{
    let Ok(sel) = scraper::Selector::parse(selector) else {
        return Vec::new();
    };
    let doc = scraper::Html::parse_document(markup);
    doc.select(&sel).map(|e| e.html()).collect()
}

/// Relies on scraper's `Selector::parse`, `Html::parse_document`, `Html::select` and
/// `ElementRef::text`: the text of the first matching element.
#[verifier::external_body]
fn select_first_text(markup: &str, selector: &str) -> (r: Option<String>)
    ensures
        opt_text(r) == first_text_of(markup@, selector@),
{
    let Ok(sel) = scraper::Selector::parse(selector) else {
        return None;
    };
    let doc = scraper::Html::parse_document(markup);
    doc.select(&sel).next().map(|e| e.text().collect::<String>())
}

/// Relies on scraper's `Selector::parse`, `Html::parse_document`, `Html::select` and
/// `ElementRef::attr`: an attribute of the first matching element.
#[verifier::external_body]
fn select_first_attr(markup: &str, selector: &str, attr: &str) -> (r: Option<String>)
    ensures
        opt_text(r) == first_attr_of(markup@, selector@, attr@),
{
    let Ok(sel) = scraper::Selector::parse(selector) else {
        return None;
    };
    let doc = scraper::Html::parse_document(markup);
    doc.select(&sel).next().and_then(|e| e.attr(attr)).map(|a| a.to_string())
}

/// A result line: its label and its value, each when present.
pub type LineModel = (Option<Seq<char>>, Option<Seq<char>>);

/// A labelled result line of an archived draw.
pub struct ResultLine {
    pub label: Option<String>,
    pub value: Option<String>,
}

impl View for ResultLine {
    type V = LineModel;

    open spec fn view(&self) -> LineModel {
        (opt_text(self.label), opt_text(self.value))
    }
}

/// The lines of a list of result lines.
pub open spec fn lines_model(v: Seq<ResultLine>) -> Seq<LineModel> {
    v.map_values(|l: ResultLine| l@)
}

/// A line with both label and value whose label names the first prize.
pub open spec fn is_first_prize_line(l: LineModel) -> bool {
    l.0 is Some && l.1 is Some && occurs_in(FIRST_PRIZE_PHRASE@, l.0->Some_0)
}

/// A line with both label and value whose label names the last two digits and not
/// the first prize.
pub open spec fn is_last_two_line(l: LineModel) -> bool {
    l.0 is Some && l.1 is Some && !occurs_in(FIRST_PRIZE_PHRASE@, l.0->Some_0) && occurs_in(
        LAST_TWO_PHRASE@,
        l.0->Some_0,
    )
}

/// The value of the first line that names the first prize (`first`) or the last
/// two digits (`!first`).
pub open spec fn first_value(lines: Seq<LineModel>, first: bool) -> Option<Seq<char>>
    decreases lines.len(),
{
    if lines.len() == 0 {
        None
    } else if (first && is_first_prize_line(lines[0])) || (!first && is_last_two_line(lines[0])) {
        lines[0].1
    } else {
        first_value(lines.drop_first(), first)
    }
}

/// The record of an archived draw with date marker `date` and result lines `lines`:
/// present only when both a first-prize line and a last-two-digits line are found.
pub open spec fn record_from(date: Option<Seq<char>>, lines: Seq<LineModel>) -> Option<RecordModel> {
    let fp = first_value(lines, true);
    let l2 = first_value(lines, false);
    if fp is Some && l2 is Some {
        Some(
            (
                match date {
                    Some(d) => d,
                    None => UNKNOWN_DATE@,
                },
                trimmed(fp->Some_0),
                trimmed(l2->Some_0),
            ),
        )
    } else {
        None
    }
}

fn find_value(lines: &Vec<ResultLine>, first: bool) -> (r: Option<String>)
    ensures
        opt_text(r) == first_value(lines_model(lines@), first),
{
    let ghost m = lines_model(lines@);
    assert(m.skip(0) =~= m);
    let mut i: usize = 0;
    while i < lines.len()
        invariant
            i <= lines@.len(),
            m == lines_model(lines@),
            first_value(m, first) == first_value(m.skip(i as int), first),
        decreases lines@.len() - i,
    {
        assert(m.skip(i as int).drop_first() =~= m.skip(i + 1));
        assert(m.skip(i as int)[0] == lines@[i as int]@);
        let line = &lines[i];
        match (&line.label, &line.value) {
            (Some(label), Some(value)) => {
                let names_first = contains_text(label.as_str(), FIRST_PRIZE_PHRASE);
                if first && names_first {
                    return Some(value.clone());
                }
                if !first && !names_first && contains_text(label.as_str(), LAST_TWO_PHRASE) {
                    return Some(value.clone());
                }
            },
            _ => {},
        }
        i = i + 1;
    }
    assert(m.skip(i as int) =~= Seq::<LineModel>::empty());
    None
}

/// The record of an archived draw from its date marker and its result lines: the
/// first line whose label names the first prize and the first that names the last
/// two digits give the trimmed values; `None` when either is missing.
pub fn record_from_lines(date: Option<String>, lines: &Vec<ResultLine>) -> (r: Option<LottoRecord>)
    ensures
        match r {
            Some(rec) => record_from(opt_text(date), lines_model(lines@)) == Some(rec@),
            None => record_from(opt_text(date), lines_model(lines@)) is None,
        },
{
    let fp = find_value(lines, true);
    let l2 = find_value(lines, false);
    match (fp, l2) {
        (Some(f), Some(l)) => {
            let draw_date = match date {
                Some(d) => d,
                None => String::from_str(UNKNOWN_DATE),
            };
            Some(
                LottoRecord {
                    draw_date,
                    first_prize: trim_text(f.as_str()),
                    last_2_digits: trim_text(l.as_str()),
                },
            )
        },
        _ => None,
    }
}

/// The result line held in the markup `li`.
pub open spec fn line_of(li: Seq<char>) -> LineModel {
    (first_text_of(li, LABEL_SELECTOR@), first_text_of(li, VALUE_SELECTOR@))
}

/// The record of the archive entry held in the markup `entry`, if it is complete.
pub open spec fn entry_record(entry: Seq<char>) -> Option<RecordModel> {
    record_from(
        first_attr_of(entry, DATE_SELECTOR@, DATE_ATTRIBUTE@),
        matches_of(entry, LINE_SELECTOR@).map_values(|li: Seq<char>| line_of(li)),
    )
}

/// The records of the complete entries among `entries`, in order.
pub open spec fn complete_records(entries: Seq<Seq<char>>) -> Seq<RecordModel>
    decreases entries.len(),
{
    if entries.len() == 0 {
        Seq::empty()
    } else {
        let rest = complete_records(entries.drop_last());
        match entry_record(entries.last()) {
            Some(r) => rest.push(r),
            None => rest,
        }
    }
}

/// What the archive page `markup` holds.
pub open spec fn page_of(markup: Seq<char>) -> PageModel {
    PageModel {
        records: complete_records(matches_of(markup, ENTRY_SELECTOR@)),
        next: first_attr_of(markup, NEXT_SELECTOR@, NEXT_ATTRIBUTE@),
    }
}

/// Reads the result lines of the archive entry held in `entry`.
fn entry_lines(entry: &str) -> (r: Vec<ResultLine>)
    ensures
        lines_model(r@) == matches_of(entry@, LINE_SELECTOR@).map_values(|li: Seq<char>| line_of(li)),
{
    let items = select_all(entry, LINE_SELECTOR);
    let ghost want = matches_of(entry@, LINE_SELECTOR@).map_values(|li: Seq<char>| line_of(li));
    let mut lines: Vec<ResultLine> = Vec::new();
    let mut i: usize = 0;
    while i < items.len()
        invariant
            i <= items@.len(),
            texts_of(items@) == matches_of(entry@, LINE_SELECTOR@),
            want == matches_of(entry@, LINE_SELECTOR@).map_values(|li: Seq<char>| line_of(li)),
            lines_model(lines@) == want.take(i as int),
        decreases items@.len() - i,
    {
        let li = items[i].as_str();
        assert(texts_of(items@)[i as int] == li@);
        let line = ResultLine {
            label: select_first_text(li, LABEL_SELECTOR),
            value: select_first_text(li, VALUE_SELECTOR),
        };
        assert(want[i as int] == line_of(li@));
        assert(line@ == line_of(li@));
        let ghost before = lines_model(lines@);
        lines.push(line);
        assert(lines_model(lines@) =~= before.push(line@));
        assert(want.take(i + 1) =~= want.take(i as int).push(want[i as int]));
        i = i + 1;
    }
    assert(want.take(items@.len() as int) =~= want);
    lines
}

/// Reads one archive page: the records of its complete entries, in page order, and
/// the target of its next-page control, if it has one.
pub fn extract_page(markup: &str) -> (r: Page)
    ensures
        r@ == page_of(markup@),
{
    let entries = select_all(markup, ENTRY_SELECTOR);
    let ghost es = matches_of(markup@, ENTRY_SELECTOR@);
    let mut records: Vec<LottoRecord> = Vec::new();
    let mut i: usize = 0;
    while i < entries.len()
        invariant
            i <= entries@.len(),
            texts_of(entries@) == es,
            es == matches_of(markup@, ENTRY_SELECTOR@),
            records_model(records@) == complete_records(es.take(i as int)),
        decreases entries@.len() - i,
    {
        let entry = entries[i].as_str();
        assert(es[i as int] == entry@);
        assert(es.take(i + 1).drop_last() =~= es.take(i as int));
        let date = select_first_attr(entry, DATE_SELECTOR, DATE_ATTRIBUTE);
        let lines = entry_lines(entry);
        let ghost before = records_model(records@);
        match record_from_lines(date, &lines) {
            Some(rec) => {
                records.push(rec);
                assert(records_model(records@) =~= before.push(rec@));
            },
            None => {},
        }
        i = i + 1;
    }
    assert(es.take(entries@.len() as int) =~= es);
    let next = select_first_attr(markup, NEXT_SELECTOR, NEXT_ATTRIBUTE);
    Page { records, next }
}

/// The entry held in the markup `entry` has both a first-prize line and a
/// last-two-digits line.
pub open spec fn is_complete_entry(entry: Seq<char>) -> bool {
    let lines = matches_of(entry, LINE_SELECTOR@).map_values(|li: Seq<char>| line_of(li));
    first_value(lines, true) is Some && first_value(lines, false) is Some
}

/// How many of `entries` are complete.
pub open spec fn complete_count(entries: Seq<Seq<char>>) -> nat
    decreases entries.len(),
{
    if entries.len() == 0 {
        0
    } else {
        complete_count(entries.drop_last()) + if is_complete_entry(entries.last()) {
            1nat
        } else {
            0nat
        }
    }
}

proof fn lemma_complete_records_len(entries: Seq<Seq<char>>)
    ensures
        complete_records(entries).len() == complete_count(entries),
    decreases entries.len(),
{
    if entries.len() > 0 {
        lemma_complete_records_len(entries.drop_last());
    }
}

/// A page gives one record for each entry that has both a first-prize line and a
/// last-two-digits line, and none for an entry that lacks either.
pub proof fn lemma_page_record_count(markup: Seq<char>)
    ensures
        page_of(markup).records.len() == complete_count(matches_of(markup, ENTRY_SELECTOR@)),
{
    lemma_complete_records_len(matches_of(markup, ENTRY_SELECTOR@));
}

} // verus!

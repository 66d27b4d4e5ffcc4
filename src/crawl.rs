//! The crawl of the draw archive: a single-flight run over its pages, with a progress
//! log and a result set that is published when the run ends.
use vstd::prelude::*;
use crate::page::{opt_text, records_model, LottoRecord, Page, PageModel, RecordModel};
use crate::text::{same_text, texts_of};

verus! {

/// Where a run starts.
pub const START_URL: &'static str = "https://news.sanook.com/lotto/archive/";

/// The one category of draws that a run can be started for.
pub const SUPPORTED_CATEGORY: &'static str = "thai";

/// The entry that opens the progress log of a run.
pub open spec fn start_entry() -> Seq<char> {
    "🚀 Starting scraper for Thai Lottery..."@
}

/// The entry logged before a page is fetched.
pub open spec fn fetching_entry(url: Seq<char>) -> Seq<char> {
    "📄 Scraping page: "@ + url
}

/// The entry logged when a page could not be fetched or read.
pub open spec fn error_entry(url: Seq<char>, error: Seq<char>) -> Seq<char> {
    "⚠️ Error scraping page "@ + url + ": "@ + error
}

/// The entry that closes the progress log of a run.
pub open spec fn done_entry() -> Seq<char> {
    "✅ Thai Lottery scraping complete."@
}

/// The shared crawl state, as mathematical values.
pub struct StatusModel {
    pub is_running: bool,
    pub lotto_type: Option<Seq<char>>,
    pub progress: Seq<Seq<char>>,
    pub results: Seq<RecordModel>,
}

/// The crawl state that status readers see: whether a run is active, the category it
/// was started for, its progress log and the records of the last finished run.
pub struct TaskStatus {
    pub is_running: bool,
    pub lotto_type: Option<String>,
    pub progress: Vec<String>,
    pub results: Vec<LottoRecord>,
}

impl View for TaskStatus {
    type V = StatusModel;

    open spec fn view(&self) -> StatusModel {
        StatusModel {
            is_running: self.is_running,
            lotto_type: opt_text(self.lotto_type),
            progress: texts_of(self.progress@),
            results: records_model(self.results@),
        }
    }
}

/// Why a run was not started.
#[derive(Clone, Copy, Debug, PartialEq, Eq, Structural)]
pub enum StartError {
    /// A run is already active.
    AlreadyRunning,
    /// Runs are only made for the supported category.
    UnsupportedCategory,
}

/// The state right after a run for `category` has started.
pub open spec fn started(st: StatusModel, category: Seq<char>) -> StatusModel {
    StatusModel {
        is_running: true,
        lotto_type: Some(category),
        progress: seq![start_entry()],
        results: Seq::empty(),
    }
}

/// What starting a run for `category` does to the state `st`.
pub open spec fn start_outcome(st: StatusModel, category: Seq<char>) -> (Result<(), StartError>, StatusModel) {
    if st.is_running {
        (Err(StartError::AlreadyRunning), st)
    } else if category != SUPPORTED_CATEGORY@ {
        (Err(StartError::UnsupportedCategory), st)
    } else {
        (Ok(()), started(st, category))
    }
}

/// `st` with `entry` appended to its progress log.
pub open spec fn logged(st: StatusModel, entry: Seq<char>) -> StatusModel {
    StatusModel { progress: st.progress.push(entry), ..st }
}

fn log_entry(status: &mut TaskStatus, entry: String)
    ensures
        final(status)@ == logged(old(status)@, entry@),
{
    status.progress.push(entry);
    assert(texts_of(status.progress@) =~= texts_of(old(status).progress@).push(entry@));
}

impl TaskStatus {
    /// The state of a process in which no run has happened yet.
    pub fn new() -> (r: TaskStatus)
        ensures
            r@ == (StatusModel {
                is_running: false,
                lotto_type: None,
                progress: Seq::empty(),
                results: Seq::empty(),
            }),
    {
        let r = TaskStatus { is_running: false, lotto_type: None, progress: Vec::new(), results: Vec::new() };
        assert(texts_of(r.progress@) =~= Seq::empty());
        assert(records_model(r.results@) =~= Seq::empty());
        r
    }

    /// Starts a run for `category`: refused while a run is active, and for any
    /// category but the supported one; otherwise the results are cleared and the
    /// progress log holds the start entry alone.
    pub fn start(&mut self, category: &str) -> (r: Result<(), StartError>)
        ensures
            (r, final(self)@) == start_outcome(old(self)@, category@),
    {
        if self.is_running {
            return Err(StartError::AlreadyRunning);
        }
        if !same_text(category, SUPPORTED_CATEGORY) {
            return Err(StartError::UnsupportedCategory);
        }
        self.is_running = true;
        self.lotto_type = Some(String::from_str(category));
        let mut progress: Vec<String> = Vec::new();
        progress.push(String::from_str("🚀 Starting scraper for Thai Lottery..."));
        self.progress = progress;
        self.results.clear();
        assert(texts_of(self.progress@) =~= seq![start_entry()]);
        assert(records_model(self.results@) =~= Seq::empty());
        Ok(())
    }
}

/// A run in progress, as mathematical values.
pub struct CrawlModel {
    pub collected: Seq<RecordModel>,
    pub current: Option<Seq<char>>,
}

/// A run in progress: the records collected so far and the page to fetch next.
pub struct Crawl {
    collected: Vec<LottoRecord>,
    current: Option<String>,
}

impl View for Crawl {
    type V = CrawlModel;

    closed spec fn view(&self) -> CrawlModel {
        CrawlModel { collected: records_model(self.collected@), current: opt_text(self.current) }
    }
}

/// A run that has not fetched anything yet.
pub open spec fn begun() -> CrawlModel {
    CrawlModel { collected: Seq::empty(), current: Some(START_URL@) }
}

/// What a page fetched from `url`, or the error met there, does to a run and the state.
pub open spec fn after_page(
    c: CrawlModel,
    st: StatusModel,
    url: Seq<char>,
    outcome: Result<PageModel, Seq<char>>,
) -> (CrawlModel, StatusModel) {
    match outcome {
        Ok(p) => (CrawlModel { collected: c.collected + p.records, current: p.next }, st),
        Err(e) => (CrawlModel { current: None, ..c }, logged(st, error_entry(url, e))),
    }
}

/// The state after a run ends: its records are published and the run flag cleared.
pub open spec fn finished(c: CrawlModel, st: StatusModel) -> StatusModel {
    StatusModel {
        is_running: false,
        progress: st.progress.push(done_entry()),
        results: c.collected,
        ..st
    }
}

impl Crawl {
    /// A run that starts at the archive's first page.
    pub fn begin() -> (c: Crawl)
        ensures
            c@ == begun(),
    {
        let c = Crawl { collected: Vec::new(), current: Some(String::from_str(START_URL)) };
        assert(records_model(c.collected@) =~= Seq::empty());
        c
    }

    /// The page to fetch next, logged in the progress log; `None` once the run is over.
    pub fn next_page(&self, status: &mut TaskStatus) -> (r: Option<String>)
        ensures
            opt_text(r) == self@.current,
            final(status)@ == match self@.current {
                Some(u) => logged(old(status)@, fetching_entry(u)),
                None => old(status)@,
            },
    {
        match &self.current {
            Some(u) => {
                let mut entry = String::from_str("📄 Scraping page: ");
                entry.append(u.as_str());
                log_entry(status, entry);
                Some(u.clone())
            },
            None => None,
        }
    }

    /// Takes in what came of fetching and reading the page at `url`: its records are
    /// kept and its link followed, or the error is logged and the run stops.
    pub fn page_done(&mut self, status: &mut TaskStatus, url: &str, outcome: Result<Page, String>)
        ensures
            (final(self)@, final(status)@) == after_page(
                old(self)@,
                old(status)@,
                url@,
                match outcome {
                    Ok(p) => Ok(p@),
                    Err(e) => Err(e@),
                },
            ),
    {
        match outcome {
            Ok(page) => {
                let ghost before = records_model(self.collected@);
                let Page { records, next } = page;
                let mut records = records;
                let ghost added = records_model(records@);
                self.collected.append(&mut records);
                assert(records_model(self.collected@) =~= before + added);
                self.current = next;
            },
            Err(e) => {
                let mut entry = String::from_str("⚠️ Error scraping page ");
                entry.append(url);
                entry.append(": ");
                entry.append(e.as_str());
                log_entry(status, entry);
                self.current = None;
            },
        }
    }

    /// Ends the run: publishes the collected records, logs the end and clears the run flag.
    pub fn finish(self, status: &mut TaskStatus)
        ensures
            final(status)@ == finished(self@, old(status)@),
    {
        status.results = self.collected;
        log_entry(status, String::from_str("✅ Thai Lottery scraping complete."));
        status.is_running = false;
    }
}

/// What fetching one page gave: the page, or the error met.
pub type PageOutcome = Result<PageModel, Seq<char>>;

/// The records that one page outcome contributes.
pub open spec fn page_records(o: PageOutcome) -> Seq<RecordModel> {
    match o {
        Ok(p) => p.records,
        Err(_) => Seq::empty(),
    }
}

/// The records of page outcomes, page after page.
pub open spec fn all_records(os: Seq<PageOutcome>) -> Seq<RecordModel>
    decreases os.len(),
{
    if os.len() == 0 {
        Seq::empty()
    } else {
        page_records(os[0]) + all_records(os.drop_first())
    }
}

/// The sum of the numbers of records that page outcomes contribute.
pub open spec fn total_records(os: Seq<PageOutcome>) -> nat
    decreases os.len(),
{
    if os.len() == 0 {
        0
    } else {
        page_records(os[0]).len() + total_records(os.drop_first())
    }
}

/// A run and the state after it has logged, fetched and taken in pages with the
/// outcomes `os` in turn, until no page is left or no outcome is.
pub open spec fn run_from(c: CrawlModel, st: StatusModel, os: Seq<PageOutcome>) -> (CrawlModel, StatusModel)
    decreases os.len(),
{
    match c.current {
        None => (c, st),
        Some(u) => if os.len() == 0 {
            (c, st)
        } else {
            let r = after_page(c, logged(st, fetching_entry(u)), u, os[0]);
            run_from(r.0, r.1, os.drop_first())
        },
    }
}

/// The state after a run for the supported category was started from `st`, met
/// the page outcomes `os` in turn, and ended.
pub open spec fn completed_run(st: StatusModel, os: Seq<PageOutcome>) -> StatusModel {
    let r = run_from(begun(), started(st, SUPPORTED_CATEGORY@), os);
    finished(r.0, r.1)
}

/// The first `n` outcomes are pages that link to a next page.
pub open spec fn links_onward(os: Seq<PageOutcome>, n: int) -> bool {
    forall|i: int| 0 <= i < n ==> (#[trigger] os[i] is Ok) && os[i]->Ok_0.next is Some
}

/// Starting a run while one is active is refused as a conflict and changes nothing.
pub proof fn lemma_start_while_running(st: StatusModel, category: Seq<char>)
    requires
        st.is_running,
    ensures
        start_outcome(st, category) == (Err::<(), StartError>(StartError::AlreadyRunning), st),
{
}

proof fn lemma_total_records(os: Seq<PageOutcome>)
    ensures
        all_records(os).len() == total_records(os),
    decreases os.len(),
{
    if os.len() > 0 {
        lemma_total_records(os.drop_first());
    }
}

proof fn lemma_clean_pages(c: CrawlModel, st: StatusModel, os: Seq<PageOutcome>)
    requires
        c.current is Some,
        os.len() >= 1,
        links_onward(os, os.len() - 1),
        os.last() is Ok,
        os.last()->Ok_0.next is None,
    ensures
        run_from(c, st, os).0.collected == c.collected + all_records(os),
    decreases os.len(),
{
    let u = c.current->Some_0;
    let r = after_page(c, logged(st, fetching_entry(u)), u, os[0]);
    assert(os[0] is Ok);
    let rest = os.drop_first();
    if os.len() == 1 {
        assert(all_records(rest) == Seq::<RecordModel>::empty());
        assert(r.0.collected + all_records(rest) =~= r.0.collected);
    } else {
        assert(links_onward(os, os.len() - 1));
        assert(os[0]->Ok_0.next is Some);
        assert forall|i: int| 0 <= i < rest.len() - 1 implies (#[trigger] rest[i] is Ok)
            && rest[i]->Ok_0.next is Some by {
            assert(rest[i] == os[i + 1]);
        }
        assert(rest.last() == os.last());
        lemma_clean_pages(r.0, r.1, rest);
    }
    assert(c.collected + all_records(os) =~= c.collected + page_records(os[0]) + all_records(rest));
}

/// A run whose every page is read, each linking to the next until the last,
/// publishes the records of all pages in page order, as many as the pages hold
/// together.
pub proof fn lemma_clean_run_results(st: StatusModel, os: Seq<PageOutcome>)
    requires
        os.len() >= 1,
        links_onward(os, os.len() - 1),
        os.last() is Ok,
        os.last()->Ok_0.next is None,
    ensures
        completed_run(st, os).results == all_records(os),
        completed_run(st, os).results.len() == total_records(os),
{
    lemma_clean_pages(begun(), started(st, SUPPORTED_CATEGORY@), os);
    assert(Seq::<RecordModel>::empty() + all_records(os) =~= all_records(os));
    lemma_total_records(os);
}

proof fn lemma_failed_pages(c: CrawlModel, st: StatusModel, os: Seq<PageOutcome>, k: int)
    requires
        c.current is Some,
        0 <= k < os.len(),
        links_onward(os, k),
        os[k] is Err,
    ensures
        run_from(c, st, os).0.collected == c.collected + all_records(os.take(k)),
    decreases k,
{
    let u = c.current->Some_0;
    let r = after_page(c, logged(st, fetching_entry(u)), u, os[0]);
    let rest = os.drop_first();
    assert(run_from(c, st, os) == run_from(r.0, r.1, rest));
    if k == 0 {
        assert(r.0.current is None);
        assert(run_from(r.0, r.1, rest) == r);
        assert(os.take(0) =~= Seq::<PageOutcome>::empty());
        assert(c.collected + all_records(os.take(0)) =~= c.collected);
    } else {
        assert(os[0] is Ok && os[0]->Ok_0.next is Some);
        assert forall|i: int| 0 <= i < k - 1 implies (#[trigger] rest[i] is Ok)
            && rest[i]->Ok_0.next is Some by {
            assert(rest[i] == os[i + 1]);
        }
        assert(rest[k - 1] == os[k]);
        lemma_failed_pages(r.0, r.1, rest, k - 1);
        assert(os.take(k).drop_first() =~= rest.take(k - 1));
        assert(os.take(k)[0] == os[0]);
        assert(c.collected + all_records(os.take(k)) =~= c.collected + page_records(os[0])
            + all_records(rest.take(k - 1)));
    }
}

/// A run that fails on a page still publishes the records of the pages before it,
/// in page order.
pub proof fn lemma_failed_run_results(st: StatusModel, os: Seq<PageOutcome>, k: int)
    requires
        0 <= k < os.len(),
        links_onward(os, k),
        os[k] is Err,
    ensures
        completed_run(st, os).results == all_records(os.take(k)),
{
    lemma_failed_pages(begun(), started(st, SUPPORTED_CATEGORY@), os, k);
    assert(Seq::<RecordModel>::empty() + all_records(os.take(k)) =~= all_records(os.take(k)));
}

/// The progress log of a run over two pages, the second without a link onward,
/// holds the start entry, one entry for each page fetched, and the end entry.
pub proof fn lemma_two_page_progress(st: StatusModel, first: PageModel, second: PageModel)
    requires
        first.next is Some,
        second.next is None,
    ensures
        completed_run(st, seq![Ok(first), Ok(second)]).progress == seq![
            start_entry(),
            fetching_entry(START_URL@),
            fetching_entry(first.next->Some_0),
            done_entry(),
        ],
{
    let os: Seq<PageOutcome> = seq![Ok(first), Ok(second)];
    let s0 = started(st, SUPPORTED_CATEGORY@);
    let c0 = begun();
    let r1 = after_page(c0, logged(s0, fetching_entry(START_URL@)), START_URL@, os[0]);
    let u2 = first.next->Some_0;
    let r2 = after_page(r1.0, logged(r1.1, fetching_entry(u2)), u2, os.drop_first()[0]);
    assert(os.drop_first().drop_first() =~= Seq::<PageOutcome>::empty());
    assert(run_from(r2.0, r2.1, os.drop_first().drop_first()) == r2);
    assert(run_from(r1.0, r1.1, os.drop_first()) == r2);
    assert(run_from(c0, s0, os) == r2);
    assert(finished(r2.0, r2.1).progress =~= seq![
        start_entry(),
        fetching_entry(START_URL@),
        fetching_entry(u2),
        done_entry(),
    ]);
}

} // verus!

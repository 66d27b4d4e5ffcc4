//! Frequency analysis of a history of draw numbers.
use vstd::prelude::*;
use crate::numeric::{is_number, is_number_text};
use crate::text::{append_decimal, decimal, digit_char, push_char, texts_of};

verus! {

/// How many times `v` occurs in `s`.
pub open spec fn count_of(s: Seq<Seq<char>>, v: Seq<char>) -> nat
    decreases s.len(),
{
    if s.len() == 0 {
        0
    } else {
        count_of(s.drop_last(), v) + if s.last() == v {
            1nat
        } else {
            0nat
        }
    }
}

/// The distinct values of `s`, in the order of their first occurrence.
pub open spec fn distinct_in_order(s: Seq<Seq<char>>) -> Seq<Seq<char>>
    decreases s.len(),
{
    if s.len() == 0 {
        Seq::empty()
    } else {
        let d = distinct_in_order(s.drop_last());
        if d.contains(s.last()) {
            d
        } else {
            d.push(s.last())
        }
    }
}

/// The count of each distinct value of `s`, in the order of `distinct_in_order(s)`.
pub open spec fn tally_counts(s: Seq<Seq<char>>) -> Seq<nat> {
    distinct_in_order(s).map_values(|v: Seq<char>| count_of(s, v))
}

proof fn lemma_take_step(s: Seq<Seq<char>>, i: int)
    requires
        0 <= i < s.len(),
    ensures
        s.take(i + 1).drop_last() == s.take(i),
        s.take(i + 1).last() == s[i],
        s.take(i + 1).len() == i + 1,
{
    assert(s.take(i + 1).drop_last() =~= s.take(i));
}

proof fn lemma_count_absent(s: Seq<Seq<char>>, v: Seq<char>)
    requires
        !distinct_in_order(s).contains(v),
    ensures
        count_of(s, v) == 0,
    decreases s.len(),
{
    if s.len() > 0 {
        let d = distinct_in_order(s.drop_last());
        if d.contains(s.last()) {
            lemma_count_absent(s.drop_last(), v);
        } else {
            assert(d.push(s.last()).last() == s.last());
            if d.contains(v) {
                let k = choose|k: int| 0 <= k < d.len() && d[k] == v;
                assert(d.push(s.last())[k] == v);
            }
            lemma_count_absent(s.drop_last(), v);
        }
    }
}

proof fn lemma_distinct_unique(s: Seq<Seq<char>>)
    ensures
        distinct_in_order(s).no_duplicates(),
    decreases s.len(),
{
    if s.len() > 0 {
        lemma_distinct_unique(s.drop_last());
    }
}

fn find_text(d: &Vec<String>, t: &String) -> (r: Option<usize>)
    ensures
        match r {
            Some(k) => k < d@.len() && d@[k as int]@ == t@,
            None => !texts_of(d@).contains(t@),
        },
{
    let mut k: usize = 0;
    while k < d.len()
        invariant
            k <= d@.len(),
            forall|j: int| 0 <= j < k ==> d@[j]@ != t@,
        decreases d@.len() - k,
    {
        if d[k] == *t {
            return Some(k);
        }
        k = k + 1;
    }
    proof {
        if texts_of(d@).contains(t@) {
            let j = choose|j: int| 0 <= j < texts_of(d@).len() && texts_of(d@)[j] == t@;
            assert(d@[j]@ == t@);
        }
    }
    None
}

/// The distinct values of `v` in the order of their first occurrence, each with how
/// many times it occurs.
pub fn tally(v: &Vec<String>) -> (r: (Vec<String>, Vec<usize>))
    ensures
        texts_of(r.0@) == distinct_in_order(texts_of(v@)),
        r.1@.len() == r.0@.len(),
        forall|k: int| 0 <= k < r.1@.len() ==> r.1@[k] as nat == tally_counts(texts_of(v@))[k],
{
    let ghost s = texts_of(v@);
    let mut d: Vec<String> = Vec::new();
    let mut c: Vec<usize> = Vec::new();
    let mut i: usize = 0;
    while i < v.len()
        invariant
            i <= v@.len(),
            s == texts_of(v@),
            texts_of(d@) == distinct_in_order(s.take(i as int)),
            c@.len() == d@.len(),
            forall|k: int| 0 <= k < c@.len() ==> c@[k] as nat == count_of(s.take(i as int), d@[k]@),
            forall|k: int| 0 <= k < c@.len() ==> c@[k] <= i,
        decreases v@.len() - i,
    {
        proof {
            lemma_take_step(s, i as int);
        }
        let ghost prev = s.take(i as int);
        let ghost next = s.take(i + 1);
        assert(s[i as int] == v@[i as int]@);
        match find_text(&d, &v[i]) {
            Some(k) => {
                assert(texts_of(d@)[k as int] == v@[i as int]@);
                assert(distinct_in_order(prev).contains(next.last()));
                let x = c[k];
                c.set(k, x + 1);
                assert forall|j: int| 0 <= j < c@.len() implies c@[j] as nat == count_of(next, d@[j]@) by {
                    lemma_distinct_unique(prev);
                    if j != k {
                        assert(texts_of(d@)[j] != texts_of(d@)[k as int]);
                    }
                }
            },
            None => {
                proof {
                    lemma_count_absent(prev, s[i as int]);
                }
                let ghost old_d = d@;
                d.push(v[i].clone());
                c.push(1);
                assert(texts_of(d@) =~= texts_of(old_d).push(s[i as int]));
                assert forall|j: int| 0 <= j < c@.len() implies c@[j] as nat == count_of(next, d@[j]@) by {
                    if j < old_d.len() {
                        assert(texts_of(old_d)[j] == old_d[j]@);
                        assert(texts_of(old_d).contains(old_d[j]@));
                    }
                }
            },
        }
        i = i + 1;
    }
    assert(s.take(v@.len() as int) =~= s);
    (d, c)
}

/// Entry `i` ranks ahead of entry `j`: a larger count, or an equal count and an
/// earlier first occurrence.
pub open spec fn ranks_ahead(c: Seq<nat>, i: int, j: int) -> bool {
    c[i] > c[j] || (c[i] == c[j] && i < j)
}

/// `idx` lists, best first, the `min(k, c.len())` entries of highest rank.
pub open spec fn is_top_ranked(c: Seq<nat>, k: nat, idx: Seq<int>) -> bool {
    &&& idx.len() == if k < c.len() { k } else { c.len() }
    &&& idx.no_duplicates()
    &&& forall|i: int| 0 <= i < idx.len() ==> 0 <= #[trigger] idx[i] < c.len()
    &&& forall|i: int, j: int|
        0 <= i < idx.len() && 0 <= j < c.len() && j != idx[i] && !idx.take(i).contains(j)
            ==> #[trigger] ranks_ahead(c, idx[i], j)
}

/// The ranking of the `k` highest-ranked entries of `c`.
pub open spec fn top_ranked(c: Seq<nat>, k: nat) -> Seq<int> {
    choose|idx: Seq<int>| is_top_ranked(c, k, idx)
}

/// At most one ranking meets `is_top_ranked`.
pub proof fn lemma_top_ranked_unique(c: Seq<nat>, k: nat, a: Seq<int>, b: Seq<int>)
    requires
        is_top_ranked(c, k, a),
        is_top_ranked(c, k, b),
    ensures
        a == b,
{
    assert forall|n: int| 0 <= n <= a.len() implies #[trigger] a.take(n) == b.take(n) by {
        lemma_top_prefix(c, k, a, b, n);
    }
    assert(a.take(a.len() as int) =~= a);
    assert(b.take(b.len() as int) =~= b);
}

proof fn lemma_top_prefix(c: Seq<nat>, k: nat, a: Seq<int>, b: Seq<int>, n: int)
    requires
        is_top_ranked(c, k, a),
        is_top_ranked(c, k, b),
        0 <= n <= a.len(),
    ensures
        a.take(n) == b.take(n),
    decreases n,
{
    if n > 0 {
        let i = n - 1;
        lemma_top_prefix(c, k, a, b, i);
        if a[i] != b[i] {
            if a.take(i).contains(b[i]) {
                let m = choose|m: int| 0 <= m < i && a.take(i)[m] == b[i];
                assert(b.take(i)[m] == b[i]);
                assert(b[m] == b[i]);
            }
            if b.take(i).contains(a[i]) {
                let m = choose|m: int| 0 <= m < i && b.take(i)[m] == a[i];
                assert(a.take(i)[m] == a[i]);
                assert(a[m] == a[i]);
            }
            assert(ranks_ahead(c, a[i], b[i]));
            assert(ranks_ahead(c, b[i], a[i]));
        }
        assert(a.take(n) =~= a.take(i).push(a[i]));
        assert(b.take(n) =~= b.take(i).push(b[i]));
    }
}

/// The counts of a tally as natural numbers.
pub open spec fn nat_counts(c: Seq<usize>) -> Seq<nat> {
    c.map_values(|x: usize| x as nat)
}

/// The indices of a selection as integers.
pub open spec fn int_indices(idx: Seq<usize>) -> Seq<int> {
    idx.map_values(|x: usize| x as int)
}

/// The `k` entries of largest count, best first; equal counts keep their order.
pub fn top_indices(counts: &Vec<usize>, k: usize) -> (idx: Vec<usize>)
    ensures
        int_indices(idx@) == top_ranked(nat_counts(counts@), k as nat),
        is_top_ranked(nat_counts(counts@), k as nat, int_indices(idx@)),
{
    let ghost c = nat_counts(counts@);
    let n = counts.len();
    let rounds = if k < n { k } else { n };
    let mut taken: Vec<bool> = Vec::new();
    let mut t: usize = 0;
    while t < n
        invariant
            t <= n,
            taken@.len() == t,
            forall|j: int| 0 <= j < t ==> !taken@[j],
        decreases n - t,
    {
        taken.push(false);
        t = t + 1;
    }
    let mut idx: Vec<usize> = Vec::new();
    let mut r: usize = 0;
    while r < rounds
        invariant
            n == counts@.len(),
            c == nat_counts(counts@),
            rounds <= n,
            rounds == if k < n { k } else { n },
            r <= rounds,
            idx@.len() == r,
            taken@.len() == n,
            forall|j: int| 0 <= j < n ==> (taken@[j] <==> int_indices(idx@).contains(j)),
            int_indices(idx@).no_duplicates(),
            forall|i: int| 0 <= i < r ==> 0 <= #[trigger] idx@[i] < n,
            forall|i: int, j: int|
                0 <= i < r && 0 <= j < n && j != idx@[i] && !int_indices(idx@).take(i).contains(j)
                    ==> #[trigger] ranks_ahead(c, int_indices(idx@)[i], j),
        decreases rounds - r,
    {
        let mut best: usize = n;
        let mut j: usize = 0;
        while j < n
            invariant
                n == counts@.len(),
                taken@.len() == n,
                j <= n,
                best == n || (best < j && !taken@[best as int]),
                best == n ==> forall|m: int| 0 <= m < j ==> taken@[m],
                best < n ==> forall|m: int|
                    0 <= m < j && !taken@[m] ==> counts@[m] <= counts@[best as int],
                best < n ==> forall|m: int|
                    0 <= m < best && !taken@[m] ==> counts@[m] < counts@[best as int],
            decreases n - j,
        {
            if !taken[j] && (best == n || counts[j] > counts[best]) {
                best = j;
            }
            j = j + 1;
        }
        proof {
            if best == n {
                // fewer than `n` entries are taken, so one is free
                assert(int_indices(idx@).len() == r);
                let s = int_indices(idx@).to_set();
                int_indices(idx@).unique_seq_to_set();
                assert forall|m: int| 0 <= m < n implies s.contains(m) by {
                    assert(taken@[m]);
                }
                assert(s =~= s.intersect(Set::new(|m: int| 0 <= m < n)));
                vstd::set_lib::lemma_int_range(0, n as int);
                vstd::set_lib::lemma_len_subset(vstd::set_lib::set_int_range(0, n as int), s);
                assert(vstd::set_lib::set_int_range(0, n as int).subset_of(s));
                assert(false);
            }
        }
        let ghost old_ii = int_indices(idx@);
        idx.push(best);
        taken.set(best, true);
        assert(int_indices(idx@) =~= old_ii.push(best as int));
        proof {
            assert(int_indices(idx@).take(r as int) =~= old_ii);
            assert forall|i: int| 0 <= i < r implies int_indices(idx@).take(i) =~= old_ii.take(i) by {}
            assert forall|j: int| 0 <= j < n implies (taken@[j] <==> int_indices(idx@).contains(j)) by {
                if j == best {
                    assert(int_indices(idx@)[r as int] == j);
                } else if old_ii.contains(j) {
                    let m = choose|m: int| 0 <= m < old_ii.len() && old_ii[m] == j;
                    assert(int_indices(idx@)[m] == j);
                } else if int_indices(idx@).contains(j) {
                    let m = choose|m: int| 0 <= m < r + 1 && int_indices(idx@)[m] == j;
                    assert(m < r);
                    assert(old_ii[m] == j);
                }
            }
            assert(!old_ii.contains(best as int));
            assert forall|i: int, j: int|
                0 <= i < r + 1 && 0 <= j < n && j != idx@[i] && !int_indices(idx@).take(i).contains(j)
                    implies #[trigger] ranks_ahead(c, int_indices(idx@)[i], j) by {
                if i == r {
                    assert(int_indices(idx@).take(i) == old_ii);
                    assert(!taken@[j] || j == best);
                } else {
                    assert(int_indices(idx@).take(i) == old_ii.take(i));
                    assert(int_indices(idx@)[i] == old_ii[i]);
                }
            }
        }
        r = r + 1;
    }
    proof {
        assert(is_top_ranked(c, k as nat, int_indices(idx@)));
        lemma_top_ranked_unique(c, k as nat, int_indices(idx@), top_ranked(c, k as nat));
    }
    idx
}

/// The characters at position `p` of the texts long enough to have one, in input
/// order, each as a text of one character.
pub open spec fn column(s: Seq<Seq<char>>, p: int) -> Seq<Seq<char>>
    decreases s.len(),
{
    if s.len() == 0 {
        Seq::empty()
    } else {
        let c = column(s.drop_last(), p);
        if 0 <= p < s.last().len() {
            c.push(seq![s.last()[p]])
        } else {
            c
        }
    }
}

/// The length of the longest text of `s`.
pub open spec fn max_len(s: Seq<Seq<char>>) -> nat
    decreases s.len(),
{
    if s.len() == 0 {
        0
    } else {
        let m = max_len(s.drop_last());
        if s.last().len() > m {
            s.last().len()
        } else {
            m
        }
    }
}

/// The confidence, in hundredths of a percent, that a history of `n` draws gives:
/// 60% plus a fifth of a percent per draw, at most 95%.
pub open spec fn confidence_hundredths(n: nat) -> nat {
    if 6000 + 20 * n < 9500 {
        6000 + 20 * n
    } else {
        9500
    }
}

/// A percentage given in hundredths, written with two decimals and a percent sign.
pub open spec fn percent_text(h: nat) -> Seq<char> {
    decimal(h / 100) + seq!['.', digit_char((h % 100) / 10), digit_char(h % 10), '%']
}

/// How many ranked values the report lists.
pub const MOST_FREQUENT_LEN: usize = 10;

/// How many alternatives to the prediction the report gives at most.
pub const ALTERNATIVES_LEN: usize = 4;

/// The fewest draws that an analysis accepts.
pub const MIN_DRAWS: usize = 10;

/// The fewest numeric draws that an analysis accepts.
pub const MIN_NUMERIC: usize = 5;

/// The highest-ranked distinct values of `s`, best first, with their counts.
pub open spec fn most_frequent(s: Seq<Seq<char>>) -> Seq<(Seq<char>, nat)> {
    top_ranked(tally_counts(s), MOST_FREQUENT_LEN as nat).map_values(
        |i: int| (distinct_in_order(s)[i], tally_counts(s)[i]),
    )
}

/// The most frequent character at position `p` (counted from zero) and its count.
pub open spec fn position_top(s: Seq<Seq<char>>, p: int) -> (Seq<char>, nat) {
    let col = column(s, p);
    let i = top_ranked(tally_counts(col), 1)[0];
    (distinct_in_order(col)[i], tally_counts(col)[i])
}

/// What a report says, as mathematical values.
pub struct ReportModel {
    pub dataset_size: nat,
    pub most_frequent: Seq<(Seq<char>, nat)>,
    pub positions: Seq<(nat, Seq<char>, nat)>,
    pub prediction: Seq<char>,
    pub alternatives: Seq<Seq<char>>,
    pub confidence_hundredths: nat,
    pub confidence: Seq<char>,
}

/// The report that a history `s` of at least one draw gives.
pub open spec fn expected_report(s: Seq<Seq<char>>) -> ReportModel {
    let mf = most_frequent(s);
    let alt_end = if mf.len() < ALTERNATIVES_LEN + 1 { mf.len() as int } else { ALTERNATIVES_LEN + 1 };
    let h = confidence_hundredths(s.len());
    ReportModel {
        dataset_size: s.len(),
        most_frequent: mf,
        positions: Seq::new(
            max_len(s),
            |p: int| ((p + 1) as nat, position_top(s, p).0, position_top(s, p).1),
        ),
        prediction: mf[0].0,
        alternatives: mf.subrange(1, alt_end).map_values(|e: (Seq<char>, nat)| e.0),
        confidence_hundredths: h,
        confidence: percent_text(h),
    }
}

/// A distinct value of the history and how many times it occurs.
pub struct RankedValue {
    pub value: String,
    pub count: usize,
}

/// The most frequent character at one position of the draws.
pub struct PositionSummary {
    /// The position, counted from one.
    pub position: usize,
    pub digit: String,
    pub count: usize,
}

/// The frequency part of an analysis: ranking, positional breakdown and prediction.
pub struct AnalysisReport {
    pub dataset_size: usize,
    pub most_frequent: Vec<RankedValue>,
    pub positions: Vec<PositionSummary>,
    pub prediction: String,
    pub alternatives: Vec<String>,
    pub confidence_hundredths: usize,
    pub confidence: String,
}

impl View for AnalysisReport {
    type V = ReportModel;

    open spec fn view(&self) -> ReportModel {
        ReportModel {
            dataset_size: self.dataset_size as nat,
            most_frequent: self.most_frequent@.map_values(
                |r: RankedValue| (r.value@, r.count as nat),
            ),
            positions: self.positions@.map_values(
                |p: PositionSummary| (p.position as nat, p.digit@, p.count as nat),
            ),
            prediction: self.prediction@,
            alternatives: texts_of(self.alternatives@),
            confidence_hundredths: self.confidence_hundredths as nat,
            confidence: self.confidence@,
        }
    }
}

proof fn lemma_distinct_nonempty(s: Seq<Seq<char>>)
    requires
        s.len() > 0,
    ensures
        distinct_in_order(s).len() > 0,
    decreases s.len(),
{
    if s.len() > 1 {
        lemma_distinct_nonempty(s.drop_last());
    }
}

proof fn lemma_column_nonempty(s: Seq<Seq<char>>, p: int)
    requires
        0 <= p < max_len(s),
    ensures
        column(s, p).len() > 0,
    decreases s.len(),
{
    if s.last().len() <= p {
        lemma_column_nonempty(s.drop_last(), p);
    } else if p >= s.last().len() {
    } else if max_len(s.drop_last()) > p {
        lemma_column_nonempty(s.drop_last(), p);
    }
}

/// The characters at position `p` of the texts long enough to have one.
fn column_at(v: &Vec<String>, p: usize) -> (r: Vec<String>)
    ensures
        texts_of(r@) == column(texts_of(v@), p as int),
{
    let ghost s = texts_of(v@);
    let mut r: Vec<String> = Vec::new();
    let mut i: usize = 0;
    while i < v.len()
        invariant
            i <= v@.len(),
            s == texts_of(v@),
            texts_of(r@) == column(s.take(i as int), p as int),
        decreases v@.len() - i,
    {
        proof {
            lemma_take_step(s, i as int);
        }
        let t = v[i].as_str();
        assert(t@ == s[i as int]);
        let ghost old_r = r@;
        if p < t.unicode_len() {
            let mut one = String::new();
            push_char(&mut one, t.get_char(p));
            r.push(one);
            assert(texts_of(r@) =~= texts_of(old_r).push(seq![s[i as int][p as int]]));
        }
        i = i + 1;
    }
    assert(s.take(v@.len() as int) =~= s);
    r
}

/// The length of the longest text.
fn longest(v: &Vec<String>) -> (r: usize)
    ensures
        r == max_len(texts_of(v@)),
{
    let ghost s = texts_of(v@);
    let mut m: usize = 0;
    let mut i: usize = 0;
    while i < v.len()
        invariant
            i <= v@.len(),
            s == texts_of(v@),
            m == max_len(s.take(i as int)),
        decreases v@.len() - i,
    {
        proof {
            lemma_take_step(s, i as int);
        }
        let l = v[i].as_str().unicode_len();
        assert(l == s[i as int].len());
        if l > m {
            m = l;
        }
        i = i + 1;
    }
    assert(s.take(v@.len() as int) =~= s);
    m
}

/// The most frequent character at each position of the draws, from the first
/// position to the last position of the longest draw.
pub fn position_summaries(v: &Vec<String>) -> (r: Vec<PositionSummary>)
    ensures
        r@.map_values(|p: PositionSummary| (p.position as nat, p.digit@, p.count as nat)) == Seq::new(
            max_len(texts_of(v@)),
            |p: int| ((p + 1) as nat, position_top(texts_of(v@), p).0, position_top(texts_of(v@), p).1),
        ),
{
    let ghost s = texts_of(v@);
    let n = longest(v);
    let mut r: Vec<PositionSummary> = Vec::new();
    let mut p: usize = 0;
    while p < n
        invariant
            p <= n,
            n == max_len(s),
            s == texts_of(v@),
            r@.len() == p,
            forall|q: int| 0 <= q < p ==> (#[trigger] r@[q]).position as nat == q + 1 && r@[q].digit@
                == position_top(s, q).0 && r@[q].count as nat == position_top(s, q).1,
        decreases n - p,
    {
        let col = column_at(v, p);
        proof {
            lemma_column_nonempty(s, p as int);
            lemma_distinct_nonempty(column(s, p as int));
        }
        let (d, c) = tally(&col);
        assert(texts_of(d@).len() > 0);
        let idx = top_indices(&c, 1);
        assert(c@.len() > 0);
        assert(int_indices(idx@).len() == 1);
        assert(nat_counts(c@) =~= tally_counts(column(s, p as int)));
        let i = idx[0];
        assert(int_indices(idx@)[0] == i as int);
        assert(texts_of(d@)[i as int] == d@[i as int]@);
        r.push(PositionSummary { position: p + 1, digit: d[i].clone(), count: c[i] });
        p = p + 1;
    }
    assert(r@.map_values(|p: PositionSummary| (p.position as nat, p.digit@, p.count as nat)) =~= Seq::new(
        max_len(s),
        |p: int| ((p + 1) as nat, position_top(s, p).0, position_top(s, p).1),
    ));
    r
}

/// The percentage given in hundredths, written as `62.00%`.
pub fn percent(h: usize) -> (r: String)
    ensures
        r@ == percent_text(h as nat),
{
    let mut t = String::new();
    append_decimal(&mut t, h / 100);
    push_char(&mut t, '.');
    push_char(&mut t, crate::text::digit((h % 100) / 10));
    push_char(&mut t, crate::text::digit(h % 10));
    push_char(&mut t, '%');
    assert(t@ =~= percent_text(h as nat));
    t
}

/// Why a history cannot be analysed.
#[derive(Clone, Copy, Debug, PartialEq, Eq, Structural)]
pub enum AnalysisError {
    /// Fewer draws than an analysis needs.
    InsufficientData,
    /// Too few draws read as numbers.
    NonNumericData,
}

/// How many texts of `s` read as numbers.
pub open spec fn numeric_count(s: Seq<Seq<char>>) -> nat
    decreases s.len(),
{
    if s.len() == 0 {
        0
    } else {
        numeric_count(s.drop_last()) + if is_number_text(s.last()) {
            1nat
        } else {
            0nat
        }
    }
}

/// What analysing the history `s` gives.
pub open spec fn analysis_outcome(s: Seq<Seq<char>>) -> Result<ReportModel, AnalysisError> {
    if s.len() < MIN_DRAWS {
        Err(AnalysisError::InsufficientData)
    } else if numeric_count(s) < MIN_NUMERIC {
        Err(AnalysisError::NonNumericData)
    } else {
        Ok(expected_report(s))
    }
}

fn count_numeric(v: &Vec<String>) -> (r: usize)
    ensures
        r == numeric_count(texts_of(v@)),
{
    let ghost s = texts_of(v@);
    let mut n: usize = 0;
    let mut i: usize = 0;
    while i < v.len()
        invariant
            i <= v@.len(),
            s == texts_of(v@),
            n == numeric_count(s.take(i as int)),
            n <= i,
        decreases v@.len() - i,
    {
        proof {
            lemma_take_step(s, i as int);
        }
        assert(s[i as int] == v@[i as int]@);
        if is_number(v[i].as_str()) {
            n = n + 1;
        }
        i = i + 1;
    }
    assert(s.take(v@.len() as int) =~= s);
    n
}

/// Analyses a history of draw numbers: ranks the distinct values by frequency, finds
/// the most frequent character at each position, and predicts the most frequent
/// value, with up to four runners-up and a confidence that grows with the history.
pub fn analyze(numbers: &Vec<String>) -> (r: Result<AnalysisReport, AnalysisError>)
    ensures
        match r {
            Ok(rep) => analysis_outcome(texts_of(numbers@)) == Ok::<ReportModel, AnalysisError>(rep@),
            Err(e) => analysis_outcome(texts_of(numbers@)) == Err::<ReportModel, AnalysisError>(e),
        },
{
    let ghost s = texts_of(numbers@);
    if numbers.len() < MIN_DRAWS {
        return Err(AnalysisError::InsufficientData);
    }
    if count_numeric(numbers) < MIN_NUMERIC {
        return Err(AnalysisError::NonNumericData);
    }
    let (d, c) = tally(numbers);
    let idx = top_indices(&c, MOST_FREQUENT_LEN);
    proof {
        lemma_distinct_nonempty(s);
        assert(nat_counts(c@) =~= tally_counts(s));
    }
    let ghost mf = most_frequent(s);
    assert(mf.len() == idx@.len());
    let mut ranked: Vec<RankedValue> = Vec::new();
    let mut i: usize = 0;
    while i < idx.len()
        invariant
            i <= idx@.len(),
            mf == most_frequent(s),
            mf.len() == idx@.len(),
            int_indices(idx@) == top_ranked(tally_counts(s), MOST_FREQUENT_LEN as nat),
            is_top_ranked(tally_counts(s), MOST_FREQUENT_LEN as nat, int_indices(idx@)),
            texts_of(d@) == distinct_in_order(s),
            c@.len() == d@.len(),
            forall|k: int| 0 <= k < c@.len() ==> c@[k] as nat == tally_counts(s)[k],
            ranked@.len() == i,
            forall|q: int| 0 <= q < i ==> ((#[trigger] ranked@[q]).value@, ranked@[q].count as nat) == mf[q],
        decreases idx@.len() - i,
    {
        let k = idx[i];
        assert(int_indices(idx@)[i as int] == k as int);
        assert(texts_of(d@)[k as int] == d@[k as int]@);
        ranked.push(RankedValue { value: d[k].clone(), count: c[k] });
        i = i + 1;
    }
    assert(ranked@.map_values(|r: RankedValue| (r.value@, r.count as nat)) =~= mf);
    let prediction = ranked[0].value.clone();
    let alt_end: usize = if ranked.len() < ALTERNATIVES_LEN + 1 {
        ranked.len()
    } else {
        ALTERNATIVES_LEN + 1
    };
    let mut alternatives: Vec<String> = Vec::new();
    let mut j: usize = 1;
    while j < alt_end
        invariant
            1 <= j <= alt_end <= ranked@.len(),
            mf.len() == ranked@.len(),
            forall|q: int| 0 <= q < ranked@.len() ==> ((#[trigger] ranked@[q]).value@, ranked@[q].count as nat) == mf[q],
            texts_of(alternatives@) == mf.subrange(1, j as int).map_values(|e: (Seq<char>, nat)| e.0),
        decreases alt_end - j,
    {
        let ghost before = alternatives@;
        alternatives.push(ranked[j].value.clone());
        assert(texts_of(alternatives@) =~= texts_of(before).push(mf[j as int].0));
        assert(texts_of(alternatives@) =~= mf.subrange(1, j + 1).map_values(|e: (Seq<char>, nat)| e.0));
        j = j + 1;
    }
    let positions = position_summaries(numbers);
    let n = numbers.len();
    let h: usize = if n >= 175 {
        9500
    } else {
        6000 + 20 * n
    };
    let confidence = percent(h);
    let rep = AnalysisReport {
        dataset_size: n,
        most_frequent: ranked,
        positions,
        prediction,
        alternatives,
        confidence_hundredths: h,
        confidence,
    };
    assert(rep@ == expected_report(s));
    Ok(rep)
}

/// A history of fewer draws than the minimum is refused as insufficient, whatever
/// it holds.
pub proof fn lemma_short_history_refused(s: Seq<Seq<char>>)
    requires
        s.len() < MIN_DRAWS,
    ensures
        analysis_outcome(s) == Err::<ReportModel, AnalysisError>(AnalysisError::InsufficientData),
{
}

proof fn lemma_all_numeric(s: Seq<Seq<char>>)
    requires
        forall|i: int| 0 <= i < s.len() ==> is_number_text(#[trigger] s[i]),
    ensures
        numeric_count(s) == s.len(),
    decreases s.len(),
{
    if s.len() > 0 {
        assert forall|i: int| 0 <= i < s.drop_last().len() implies is_number_text(
            #[trigger] s.drop_last()[i],
        ) by {
            assert(s.drop_last()[i] == s[i]);
        }
        lemma_all_numeric(s.drop_last());
        assert(is_number_text(s[s.len() - 1]));
    }
}

/// A history of exactly the minimum number of draws, all of which read as numbers,
/// is analysed.
pub proof fn lemma_minimum_numeric_history_analysed(s: Seq<Seq<char>>)
    requires
        s.len() == MIN_DRAWS,
        forall|i: int| 0 <= i < s.len() ==> is_number_text(#[trigger] s[i]),
    ensures
        analysis_outcome(s) == Ok::<ReportModel, AnalysisError>(expected_report(s)),
{
    lemma_all_numeric(s);
}

/// Analysing the same history twice gives the same outcome: the same report, or
/// the same error.
pub proof fn lemma_analysis_deterministic(a: Seq<String>, b: Seq<String>)
    requires
        texts_of(a) == texts_of(b),
    ensures
        analysis_outcome(texts_of(a)) == analysis_outcome(texts_of(b)),
{
}

/// The index of the first largest count among the first `n` counts of `c`.
spec fn first_max(c: Seq<nat>, n: int) -> int
    decreases n,
{
    if n <= 1 {
        0
    } else {
        let b = first_max(c, n - 1);
        if c[n - 1] > c[b] {
            n - 1
        } else {
            b
        }
    }
}

proof fn lemma_first_max(c: Seq<nat>, n: int)
    requires
        0 < n <= c.len(),
    ensures
        0 <= first_max(c, n) < n,
        forall|j: int| 0 <= j < n ==> #[trigger] c[j] <= c[first_max(c, n)],
        forall|j: int| 0 <= j < first_max(c, n) ==> #[trigger] c[j] < c[first_max(c, n)],
    decreases n,
{
    if n > 1 {
        lemma_first_max(c, n - 1);
    }
}

proof fn lemma_top_one_exists(c: Seq<nat>)
    requires
        c.len() > 0,
    ensures
        is_top_ranked(c, 1, top_ranked(c, 1)),
{
    let b = first_max(c, c.len() as int);
    lemma_first_max(c, c.len() as int);
    let idx = seq![b];
    assert(idx.take(0) =~= Seq::<int>::empty());
    assert(is_top_ranked(c, 1, idx));
}

proof fn lemma_push_contains(d: Seq<Seq<char>>, x: Seq<char>, v: Seq<char>)
    ensures
        d.push(x).contains(v) <==> (d.contains(v) || x == v),
{
    if d.contains(v) {
        let k = choose|k: int| 0 <= k < d.len() && d[k] == v;
        assert(d.push(x)[k] == v);
    }
    if x == v {
        assert(d.push(x)[d.len() as int] == v);
    }
    if d.push(x).contains(v) {
        let k = choose|k: int| 0 <= k < d.len() + 1 && d.push(x)[k] == v;
        if k < d.len() {
            assert(d[k] == v);
        }
    }
}

proof fn lemma_distinct_members(s: Seq<Seq<char>>, v: Seq<char>)
    ensures
        distinct_in_order(s).contains(v) <==> s.contains(v),
    decreases s.len(),
{
    if s.len() > 0 {
        let t = s.drop_last();
        lemma_distinct_members(t, v);
        assert(s =~= t.push(s.last()));
        lemma_push_contains(t, s.last(), v);
        let d = distinct_in_order(t);
        lemma_push_contains(d, s.last(), v);
        if s.last() == v {
            lemma_distinct_members(t, s.last());
        }
    }
}

proof fn lemma_column_members(s: Seq<Seq<char>>, p: int, v: Seq<char>)
    ensures
        column(s, p).contains(v) ==> exists|i: int|
            0 <= i < s.len() && 0 <= p < s[i].len() && v == seq![#[trigger] s[i][p]],
        forall|i: int| 0 <= i < s.len() && 0 <= p < s[i].len() ==> column(s, p).contains(
            seq![#[trigger] s[i][p]],
        ),
    decreases s.len(),
{
    if s.len() > 0 {
        let t = s.drop_last();
        lemma_column_members(t, p, v);
        let c = column(t, p);
        if 0 <= p < s.last().len() {
            assert(c.push(seq![s.last()[p]])[c.len() as int] == seq![s.last()[p]]);
        }
        assert forall|i: int| 0 <= i < s.len() && 0 <= p < s[i].len() implies column(s, p).contains(
            seq![#[trigger] s[i][p]],
        ) by {
            if i < s.len() - 1 {
                assert(t[i] == s[i]);
                let k = choose|k: int| 0 <= k < c.len() && c[k] == seq![t[i][p]];
                if 0 <= p < s.last().len() {
                    assert(c.push(seq![s.last()[p]])[k] == c[k]);
                }
            }
        }
        if column(s, p).contains(v) {
            if c.contains(v) {
                let i = choose|i: int| 0 <= i < t.len() && 0 <= p < t[i].len() && v == seq![#[trigger] t[i][p]];
                assert(s[i] == t[i]);
            } else {
                let k = choose|k: int| 0 <= k < column(s, p).len() && column(s, p)[k] == v;
                assert(0 <= p < s.last().len());
                assert(k == c.len());
                assert(v == seq![s[s.len() - 1][p]]);
            }
        }
    }
}

proof fn lemma_max_len_fixed(s: Seq<Seq<char>>, w: nat)
    requires
        s.len() > 0,
        forall|i: int| 0 <= i < s.len() ==> (#[trigger] s[i]).len() == w,
    ensures
        max_len(s) == w,
    decreases s.len(),
{
    if s.len() == 1 {
        assert(s.drop_last().len() == 0);
        assert(max_len(s.drop_last()) == 0);
    }
    if s.len() > 1 {
        assert forall|i: int| 0 <= i < s.drop_last().len() implies (#[trigger] s.drop_last()[i]).len() == w by {
            assert(s.drop_last()[i] == s[i]);
        }
        lemma_max_len_fixed(s.drop_last(), w);
    }
    assert(s.last() == s[s.len() - 1]);
}

/// For draws that all have `w` characters, the positional breakdown has `w`
/// entries; the entry of each position names it (counting from one), a character
/// found there, and how many draws have that character there, and no character is
/// found there in more draws.
pub proof fn lemma_positions_of_fixed_width(s: Seq<Seq<char>>, w: nat)
    requires
        s.len() > 0,
        forall|i: int| 0 <= i < s.len() ==> (#[trigger] s[i]).len() == w,
    ensures
        expected_report(s).positions.len() == w,
        forall|p: int|
            0 <= p < w ==> {
                let e = #[trigger] expected_report(s).positions[p];
                &&& e.0 == p + 1
                &&& exists|i: int| 0 <= i < s.len() && e.1 == seq![#[trigger] s[i][p]]
                &&& e.2 == count_of(column(s, p), e.1)
                &&& forall|i: int|
                    0 <= i < s.len() ==> count_of(column(s, p), seq![#[trigger] s[i][p]]) <= e.2
            },
{
    lemma_max_len_fixed(s, w);
    assert forall|p: int| 0 <= p < w implies {
        let e = #[trigger] expected_report(s).positions[p];
        &&& e.0 == p + 1
        &&& exists|i: int| 0 <= i < s.len() && e.1 == seq![#[trigger] s[i][p]]
        &&& e.2 == count_of(column(s, p), e.1)
        &&& forall|i: int|
            0 <= i < s.len() ==> count_of(column(s, p), seq![#[trigger] s[i][p]]) <= e.2
    } by {
        let col = column(s, p);
        let d = distinct_in_order(col);
        let c = tally_counts(col);
        lemma_column_nonempty(s, p);
        lemma_distinct_nonempty(col);
        lemma_top_one_exists(c);
        let b = top_ranked(c, 1)[0];
        assert(top_ranked(c, 1).take(0) =~= Seq::<int>::empty());
        lemma_distinct_members(col, d[b]);
        assert(d.contains(d[b]));
        lemma_column_members(s, p, d[b]);
        assert forall|i: int| 0 <= i < s.len() implies count_of(col, seq![#[trigger] s[i][p]]) <= c[b] by {
            let v = seq![s[i][p]];
            lemma_column_members(s, p, v);
            lemma_distinct_members(col, v);
            let j = choose|j: int| 0 <= j < d.len() && d[j] == v;
            if j != b {
                assert(ranks_ahead(c, top_ranked(c, 1)[0], j));
            }
        }
    }
}

} // verus!

//! Japanese companies through EDINET: where the data is kept, which filings
//! are the annual reports of a company, and how their figures become a
//! company's series.

use vstd::prelude::*;
use crate::dated::{
    distinct_dates, has_year, keyed, lemma_sorted_desc_descending, lemma_sorted_desc_distinct,
    lemma_sorted_desc_members, same_year,
    sort_by_date_desc, sorted_desc, year_bytes,
};
use crate::extract::cache_dir;
use crate::parse::{first_five, opt_text, Data};
use crate::text::{concat_str, join_path, lemma_str_order, path_join, str_lt, text_eq};
use crate::xbrl::ReportRow;

verus! {

/// The cache directory: `ca_json` in `home`.
pub fn ca_dir(home: &str) -> (r: String)
    ensures
        r@ == cache_dir(home@),
{
    join_path(home, "ca_json")
}

/// The cached list of a company's annual reports.
pub fn index_path(home: &str, sec: &str) -> (r: String)
    ensures
        r@ == path_join(cache_dir(home@), sec@ + "-edinet-index.json"@),
{
    let name = concat_str(sec, "-edinet-index.json");
    join_path(ca_dir(home).as_str(), name.as_str())
}

/// The cached figures of a company.
pub fn facts_path(home: &str, sec: &str) -> (r: String)
    ensures
        r@ == path_join(cache_dir(home@), sec@ + "-edinet-facts.json"@),
{
    let name = concat_str(sec, "-edinet-facts.json");
    join_path(ca_dir(home).as_str(), name.as_str())
}

/// How old a cached file may grow, in seconds, before it is fetched again.
pub const CACHE_SECS: u64 = 86400;

/// Whether a cached file must be fetched again, given its age in seconds
/// (`None` where it is missing or its age cannot be read): when it is a day
/// old or older.
pub fn stale(age: Option<u64>) -> (r: bool)
    ensures
        r == match age {
            None => true,
            Some(a) => a >= CACHE_SECS,
        },
{
    match age {
        None => true,
        Some(a) => a >= CACHE_SECS,
    }
}

/// A document of EDINET's daily list, with the fields that the search reads
/// (each absent where the list lacks it or holds no string there).
pub struct EdinetDoc {
    pub form_code: Option<String>,
    pub sec_code: Option<String>,
    pub doc_id: Option<String>,
    pub period_end: Option<String>,
}

pub open spec fn text_or_empty(o: Option<String>) -> Seq<char> {
    match o {
        Some(s) => s@,
        None => seq![],
    }
}

/// An annual securities report (form `030000`) of the company with securities
/// code `sec` (four digits, or five with a trailing `0`), with an id and a
/// period end that has a year.
pub open spec fn is_annual_report_of(sec: Seq<char>, doc: EdinetDoc) -> bool {
    let sc = text_or_empty(doc.sec_code);
    &&& doc.form_code matches Some(f) && f@ == "030000"@
    &&& sc == sec + "0"@ || sc == sec
    &&& text_or_empty(doc.doc_id).len() > 0
    &&& has_year(text_or_empty(doc.period_end))
}

/// The found reports, as (period end, document id), after one more document:
/// it joins them if it is an annual report of the company for a year that
/// none of them covers.
pub open spec fn accept_doc(found: Seq<(Seq<char>, String)>, sec: Seq<char>, doc: EdinetDoc) -> Seq<
    (Seq<char>, String),
> {
    let end = text_or_empty(doc.period_end);
    if is_annual_report_of(sec, doc) && !(exists|k: int|
        0 <= k < found.len() && has_year(#[trigger] found[k].0) && year_bytes(found[k].0)
            == year_bytes(end)) {
        found.push((end, doc.doc_id->0))
    } else {
        found
    }
}

/// The found reports after a day's documents, in their order.
pub open spec fn accept_docs(found: Seq<(Seq<char>, String)>, sec: Seq<char>, docs: Seq<EdinetDoc>) -> Seq<
    (Seq<char>, String),
>
    decreases docs.len(),
{
    if docs.len() == 0 {
        found
    } else {
        accept_doc(accept_docs(found, sec, docs.drop_last()), sec, docs.last())
    }
}

/// Each found report has a period end with a year, and no two the same year.
pub open spec fn distinct_years(found: Seq<(Seq<char>, String)>) -> bool {
    &&& forall|i: int| 0 <= i < found.len() ==> has_year(#[trigger] found[i].0)
    &&& forall|i: int, j: int|
        #![trigger found[i], found[j]]
        0 <= i < j < found.len() ==> year_bytes(found[i].0) != year_bytes(found[j].0)
}

/// Some document of `docs` is an annual report of the company, with this
/// period end and id.
pub open spec fn reported_in(docs: Seq<EdinetDoc>, sec: Seq<char>, e: (Seq<char>, String)) -> bool {
    exists|k: int|
        0 <= k < docs.len() && is_annual_report_of(sec, #[trigger] docs[k]) && e == (
            text_or_empty(docs[k].period_end),
            docs[k].doc_id->0,
        )
}

/// Taking in documents keeps the reports found before, in front, and never
/// holds two reports of the same year; each report it adds is an annual
/// report of the company among those documents.
pub proof fn lemma_accept_docs(found: Seq<(Seq<char>, String)>, sec: Seq<char>, docs: Seq<EdinetDoc>)
    requires
        distinct_years(found),
    ensures
        distinct_years(accept_docs(found, sec, docs)),
        accept_docs(found, sec, docs).len() >= found.len(),
        accept_docs(found, sec, docs).take(found.len() as int) == found,
        forall|i: int|
            found.len() <= i < accept_docs(found, sec, docs).len() ==> reported_in(
                docs,
                sec,
                #[trigger] accept_docs(found, sec, docs)[i],
            ),
    decreases docs.len(),
{
    if docs.len() > 0 {
        let p = docs.drop_last();
        lemma_accept_docs(found, sec, p);
        let a = accept_docs(found, sec, p);
        let doc = docs.last();
        let n = accept_docs(found, sec, docs);
        let end = text_or_empty(doc.period_end);
        assert forall|i: int| found.len() <= i < a.len() implies reported_in(docs, sec, #[trigger] a[i]) by {
            assert(reported_in(p, sec, a[i]));
            let k = choose|k: int|
                0 <= k < p.len() && is_annual_report_of(sec, #[trigger] p[k]) && a[i] == (
                    text_or_empty(p[k].period_end),
                    p[k].doc_id->0,
                );
            assert(docs[k] == p[k]);
        }
        if n != a {
            assert(n == a.push((end, doc.doc_id->0)));
            assert(docs[docs.len() - 1] == doc);
            assert(reported_in(docs, sec, n[a.len() as int]));
            assert forall|i: int, j: int| 0 <= i < j < n.len() implies year_bytes(#[trigger] n[i].0)
                != year_bytes(#[trigger] n[j].0) by {
                if j == a.len() {
                    assert(n[i] == a[i]);
                    if year_bytes(a[i].0) == year_bytes(end) {
                        assert(has_year(a[i].0));
                    }
                } else {
                    assert(n[i] == a[i] && n[j] == a[j]);
                }
            }
            assert forall|i: int| found.len() <= i < n.len() implies reported_in(docs, sec, #[trigger] n[i]) by {
                if i < a.len() {
                    assert(n[i] == a[i]);
                }
            }
            assert(n.take(found.len() as int) =~= a.take(found.len() as int));
        }
    } else {
        assert(found.take(found.len() as int) =~= found);
    }
}

/// `doc` is an annual securities report (form `030000`) of the company with
/// securities code `sec` (or `sec` and a `0`), with a non-empty id and a period
/// end of at least four bytes; its month plays no part.
pub open spec fn annual_report_fields(sec: Seq<char>, doc: EdinetDoc) -> bool {
    &&& doc.form_code matches Some(f) && f@ == "030000"@
    &&& doc.sec_code matches Some(c) && (c@ == sec + "0"@ || c@ == sec)
    &&& doc.doc_id matches Some(id) && id@.len() > 0
    &&& doc.period_end matches Some(e) && crate::text::utf8_bytes(e@).len() >= 4
}

/// A found report has the year (first four bytes) of period end `e`.
pub open spec fn year_covered(found: Seq<(Seq<char>, String)>, e: Seq<char>) -> bool {
    exists|k: int|
        0 <= k < found.len() && crate::text::utf8_bytes((#[trigger] found[k]).0).len() >= 4
            && crate::text::utf8_bytes(found[k].0).take(4) == crate::text::utf8_bytes(e).take(4)
}

/// An annual report of the company for a year that no found report covers is
/// always added, whatever its month: as (period end, id), after the others.
pub proof fn lemma_annual_report_added(found: Seq<(Seq<char>, String)>, sec: Seq<char>, doc: EdinetDoc)
    requires
        annual_report_fields(sec, doc),
        !year_covered(found, doc.period_end->0@),
    ensures
        accept_doc(found, sec, doc) == found.push((doc.period_end->0@, doc.doc_id->0)),
{
    let e = doc.period_end->0@;
    assert(text_or_empty(doc.period_end) == e);
    assert(is_annual_report_of(sec, doc));
    assert(!(exists|k: int|
        0 <= k < found.len() && has_year(#[trigger] found[k].0) && year_bytes(found[k].0) == year_bytes(e))) by {
        if exists|k: int| 0 <= k < found.len() && has_year(#[trigger] found[k].0) && year_bytes(found[k].0) == year_bytes(e) {
            let k = choose|k: int| 0 <= k < found.len() && has_year(#[trigger] found[k].0) && year_bytes(found[k].0) == year_bytes(e);
            assert(year_covered(found, e));
        }
    }
}

/// After a day's documents, every annual report of the company among them has
/// its year covered by a found report: none is dropped but for a year already
/// found.
pub proof fn lemma_every_annual_report_covered(found: Seq<(Seq<char>, String)>, sec: Seq<char>, docs: Seq<EdinetDoc>)
    ensures
        forall|i: int|
            0 <= i < docs.len() && annual_report_fields(sec, #[trigger] docs[i]) ==> year_covered(
                accept_docs(found, sec, docs),
                docs[i].period_end->0@,
            ),
    decreases docs.len(),
{
    if docs.len() > 0 {
        let p = docs.drop_last();
        lemma_every_annual_report_covered(found, sec, p);
        let a = accept_docs(found, sec, p);
        let n = accept_docs(found, sec, docs);
        let last = docs.len() - 1;
        assert(docs[last] == docs.last());
        // accepting one more document keeps every found report in front
        assert(n == a || n == a.push((text_or_empty(docs.last().period_end), docs.last().doc_id->0)));
        assert forall|i: int|
            0 <= i < docs.len() && annual_report_fields(sec, #[trigger] docs[i]) implies year_covered(
            n,
            docs[i].period_end->0@,
        ) by {
            let e = docs[i].period_end->0@;
            if i < p.len() {
                assert(p[i] == docs[i]);
                assert(year_covered(a, e));
                let k = choose|k: int|
                    0 <= k < a.len() && crate::text::utf8_bytes((#[trigger] a[k]).0).len() >= 4
                        && crate::text::utf8_bytes(a[k].0).take(4) == crate::text::utf8_bytes(e).take(4);
                assert(n[k] == a[k]);
            } else {
                if year_covered(a, e) {
                    let k = choose|k: int|
                        0 <= k < a.len() && crate::text::utf8_bytes((#[trigger] a[k]).0).len() >= 4
                            && crate::text::utf8_bytes(a[k].0).take(4) == crate::text::utf8_bytes(e).take(4);
                    assert(n[k] == a[k]);
                } else {
                    lemma_annual_report_added(a, sec, docs[i]);
                    assert(n[a.len() as int] == (e, docs[i].doc_id->0));
                }
            }
        }
    }
}

/// The reports a search hands out: at most five, their period ends strictly
/// decreasing, each one of those found.
pub proof fn lemma_finish(found: Seq<(Seq<char>, String)>)
    requires
        distinct_years(found),
    ensures
        first_five(sorted_desc(found)).len() <= 5,
        forall|i: int, j: int|
            #![trigger first_five(sorted_desc(found))[i], first_five(sorted_desc(found))[j]]
            0 <= i < j < first_five(sorted_desc(found)).len() ==> str_lt(
                first_five(sorted_desc(found))[j].0,
                first_five(sorted_desc(found))[i].0,
            ),
        forall|i: int|
            0 <= i < first_five(sorted_desc(found)).len() ==> found.contains(
                #[trigger] first_five(sorted_desc(found))[i],
            ),
{
    let t = sorted_desc(found);
    let r = first_five(t);
    lemma_sorted_desc_members(found);
    lemma_sorted_desc_descending(found);
    assert forall|i: int| 0 <= i < r.len() implies found.contains(#[trigger] r[i]) by {
        assert(r[i] == t[i]);
        assert(t.contains(t[i]));
    }
    assert(distinct_dates(found)) by {
        assert forall|i: int, j: int| 0 <= i < j < found.len() implies #[trigger] found[i].0
            != #[trigger] found[j].0 by {
            assert(year_bytes(found[i].0) != year_bytes(found[j].0));
        }
    }
    lemma_sorted_desc_distinct(found);
    assert forall|i: int, j: int| 0 <= i < j < r.len() implies str_lt(#[trigger] r[j].0, #[trigger] r[i].0) by {
        assert(r[i] == t[i] && r[j] == t[j]);
        assert(!str_lt(t[i].0, t[j].0));
        assert(t[i].0 != t[j].0);
        lemma_str_order(t[i].0, t[j].0, t[i].0);
    }
}

/// The search for a company's annual reports, going back one day at a time.
pub struct ReportSearch {
    /// The securities code searched for.
    pub sec: String,
    /// The reports found so far, as (period end, document id).
    pub found: Vec<(String, String)>,
    /// The number of days already searched, from today back.
    pub day: u64,
}

/// How many days back the search goes at most.
pub const SEARCH_DAYS: u64 = 500;

/// How many reports the search wants.
pub const WANTED_REPORTS: usize = 5;

impl ReportSearch {
    /// The reports found hold at most one report a year.
    pub open spec fn wf(&self) -> bool {
        distinct_years(keyed(self.found@))
    }

    /// A search that has found nothing and searched no day.
    pub fn new(sec: &str) -> (s: ReportSearch)
        ensures
            s.sec@ == sec@,
            s.found@.len() == 0,
            s.day == 0,
            s.wf(),
    {
        let s = ReportSearch { sec: sec.to_owned(), found: Vec::new(), day: 0 };
        assert(keyed(s.found@) =~= Seq::<(Seq<char>, String)>::empty());
        s
    }

    /// The day to search next (counted back from today), or `None` once five
    /// reports are found or 500 days searched.
    pub fn pending_day(&self) -> (r: Option<u64>)
        ensures
            r == (if self.day < SEARCH_DAYS && self.found@.len() < WANTED_REPORTS {
                Some(self.day)
            } else {
                None
            }),
    {
        if self.day < SEARCH_DAYS && self.found.len() < WANTED_REPORTS {
            Some(self.day)
        } else {
            None
        }
    }

    /// Takes in the documents of the day searched, in the order of the list.
    pub fn step(&mut self, docs: &Vec<EdinetDoc>)
        requires
            old(self).day < u64::MAX,
        ensures
            final(self).sec == old(self).sec,
            final(self).day == old(self).day + 1,
            keyed(final(self).found@) == accept_docs(keyed(old(self).found@), old(self).sec@, docs@),
            old(self).wf() ==> final(self).wf(),
    {
        proof {
            if self.wf() {
                lemma_accept_docs(keyed(self.found@), self.sec@, docs@);
            }
        }
        let mut i: usize = 0;
        let ghost start = keyed(self.found@);
        while i < docs.len()
            invariant
                i <= docs@.len(),
                self.sec == old(self).sec,
                self.day == old(self).day,
                start == keyed(old(self).found@),
                keyed(self.found@) == accept_docs(start, self.sec@, docs@.take(i as int)),
            decreases docs@.len() - i,
        {
            let doc = &docs[i];
            assert(docs@.take(i + 1).drop_last() =~= docs@.take(i as int));
            assert(docs@.take(i + 1).last() == *doc);
            self.consider(doc);
            i = i + 1;
        }
        assert(docs@.take(i as int) =~= docs@);
        self.day = self.day + 1;
    }

    fn consider(&mut self, doc: &EdinetDoc)
        ensures
            final(self).sec == old(self).sec,
            final(self).day == old(self).day,
            keyed(final(self).found@) == accept_doc(keyed(old(self).found@), old(self).sec@, *doc),
    {
        let form_ok = match &doc.form_code {
            Some(f) => text_eq(f.as_str(), "030000"),
            None => false,
        };
        if !form_ok {
            return;
        }
        let sc = match &doc.sec_code {
            Some(s) => s.clone(),
            None => String::new(),
        };
        let sec5 = concat_str(self.sec.as_str(), "0");
        if !text_eq(sc.as_str(), sec5.as_str()) && !text_eq(sc.as_str(), self.sec.as_str()) {
            return;
        }
        let (id, end) = match (&doc.doc_id, &doc.period_end) {
            (Some(id), Some(end)) => (id, end),
            _ => {
                assert(!is_annual_report_of(self.sec@, *doc));
                return;
            },
        };
        if id.as_str().is_empty() || end.as_str().as_bytes().len() < 4 {
            return;
        }
        let mut k: usize = 0;
        while k < self.found.len()
            invariant
                k <= self.found@.len(),
                has_year(end@),
                self.found@ == old(self).found@,
                self.sec == old(self).sec,
                self.day == old(self).day,
                text_or_empty(doc.period_end) == end@,
                forall|j: int|
                    0 <= j < k ==> !(has_year(#[trigger] self.found@[j].0@) && year_bytes(
                        self.found@[j].0@,
                    ) == year_bytes(end@)),
            decreases self.found@.len() - k,
        {
            if same_year(self.found[k].0.as_str(), end.as_str()) {
                assert(keyed(self.found@)[k as int].0 == self.found@[k as int].0@);
                assert(has_year(keyed(self.found@)[k as int].0) && year_bytes(
                    keyed(self.found@)[k as int].0,
                ) == year_bytes(end@));
                return;
            }
            k = k + 1;
        }
        let ghost old_found = keyed(self.found@);
        assert forall|j: int| 0 <= j < old_found.len() implies !(has_year(#[trigger] old_found[j].0)
            && year_bytes(old_found[j].0) == year_bytes(end@)) by {
            assert(old_found[j].0 == self.found@[j].0@);
        }
        self.found.push((end.clone(), id.clone()));
        assert(keyed(self.found@) =~= old_found.push((end@, *id)));
    }

    /// The reports found, latest period end first, at most five, as
    /// (document id, period end).
    pub fn finish(self) -> (r: Vec<(String, String)>)
        ensures
            r@.len() == first_five(sorted_desc(keyed(self.found@))).len(),
            r@.len() <= 5,
            self.wf() ==> forall|i: int, j: int|
                #![trigger r@[i], r@[j]]
                0 <= i < j < r@.len() ==> str_lt(r@[j].1@, r@[i].1@),
            forall|i: int|
                0 <= i < r@.len() ==> (#[trigger] r@[i]).1@ == first_five(
                    sorted_desc(keyed(self.found@)),
                )[i].0 && r@[i].0 == first_five(sorted_desc(keyed(self.found@)))[i].1,
    {
        let ghost t = first_five(sorted_desc(keyed(self.found@)));
        proof {
            if self.wf() {
                lemma_finish(keyed(self.found@));
            }
        }
        let mut sorted = sort_by_date_desc(self.found);
        sorted.truncate(WANTED_REPORTS);
        assert(keyed(sorted@) =~= t);
        let mut r: Vec<(String, String)> = Vec::new();
        let mut i: usize = 0;
        while sorted.len() > 0
            invariant
                i + sorted@.len() == t.len(),
                t.len() <= 5,
                keyed(sorted@) == t.skip(i as int),
                r@.len() == i,
                forall|j: int| 0 <= j < i ==> (#[trigger] r@[j]).1@ == t[j].0 && r@[j].0 == t[j].1,
            decreases sorted@.len(),
        {
            let ghost before = keyed(sorted@);
            let (end, id) = sorted.remove(0);
            assert(before[0] == (end@, id));
            r.push((id, end));
            assert(keyed(sorted@) =~= before.drop_first());
            i = i + 1;
        }
        r
    }
}

/// The equity of a report row: where it is 0 and assets are positive, assets
/// less liabilities, wrapping around where that leaves `i64` (as `-` does in a
/// release build).
pub open spec fn equity_or_net_assets(row: ReportRow) -> i64 {
    if row.equity == 0 && row.assets > 0 {
        row.assets.wrapping_sub(row.liabilities)
    } else {
        row.equity
    }
}

/// Item `k` of a row, in the order revenue, operating income, net income,
/// assets, liabilities, equity (with its fallback).
pub open spec fn row_item(row: ReportRow, k: int) -> i64 {
    if k == 0 {
        row.revenue
    } else if k == 1 {
        row.operating_income
    } else if k == 2 {
        row.net_income
    } else if k == 3 {
        row.assets
    } else if k == 4 {
        row.liabilities
    } else {
        equity_or_net_assets(row)
    }
}

/// One item of each report, as (period end, value), in the reports' order.
pub open spec fn report_column(rows: Seq<(String, ReportRow)>, k: int) -> Seq<(Seq<char>, i64)> {
    Seq::new(rows.len(), |i: int| (rows[i].0@, row_item(rows[i].1, k)))
}

fn column(rows: &Vec<(String, ReportRow)>, k: usize) -> (r: Vec<(String, i64)>)
    requires
        k < 6,
    ensures
        keyed(r@) == report_column(rows@, k as int),
{
    let mut r: Vec<(String, i64)> = Vec::new();
    let mut i: usize = 0;
    while i < rows.len()
        invariant
            i <= rows@.len(),
            k < 6,
            keyed(r@) == report_column(rows@, k as int).take(i as int),
        decreases rows@.len() - i,
    {
        let row = &rows[i].1;
        let v: i64 = if k == 0 {
            row.revenue
        } else if k == 1 {
            row.operating_income
        } else if k == 2 {
            row.net_income
        } else if k == 3 {
            row.assets
        } else if k == 4 {
            row.liabilities
        } else if row.equity == 0 && row.assets > 0 {
            row.assets.wrapping_sub(row.liabilities)
        } else {
            row.equity
        };
        let ghost old_r = r@;
        r.push((rows[i].0.clone(), v));
        assert(report_column(rows@, k as int)[i as int] == (rows@[i as int].0@, v));
        assert(keyed(r@) =~= keyed(old_r).push((rows@[i as int].0@, v)));
        assert(keyed(r@) =~= report_column(rows@, k as int).take(i + 1));
        i = i + 1;
    }
    assert(report_column(rows@, k as int).take(i as int) =~= report_column(rows@, k as int));
    r
}

impl Data {
    /// The series of a company from the rows of its annual reports, given as
    /// (period end, row): each item latest first; an equity of 0 with positive
    /// assets becomes assets less liabilities (wrapping around on overflow).
    pub fn from_reports(rows: &Vec<(String, ReportRow)>) -> (d: Data)
        ensures
            keyed(d.revenues@) == sorted_desc(report_column(rows@, 0)),
            keyed(d.operatingincomeloss@) == sorted_desc(report_column(rows@, 1)),
            keyed(d.netincomeloss@) == sorted_desc(report_column(rows@, 2)),
            keyed(d.assets@) == sorted_desc(report_column(rows@, 3)),
            keyed(d.liabilities@) == sorted_desc(report_column(rows@, 4)),
            keyed(d.stockholdersequity@) == sorted_desc(report_column(rows@, 5)),
    {
        Data {
            revenues: sort_by_date_desc(column(rows, 0)),
            operatingincomeloss: sort_by_date_desc(column(rows, 1)),
            netincomeloss: sort_by_date_desc(column(rows, 2)),
            assets: sort_by_date_desc(column(rows, 3)),
            liabilities: sort_by_date_desc(column(rows, 4)),
            stockholdersequity: sort_by_date_desc(column(rows, 5)),
        }
    }

    /// A company with no figures.
    pub fn empty() -> (d: Data)
        ensures
            d.revenues@.len() == 0,
            d.operatingincomeloss@.len() == 0,
            d.netincomeloss@.len() == 0,
            d.assets@.len() == 0,
            d.liabilities@.len() == 0,
            d.stockholdersequity@.len() == 0,
    {
        Data {
            revenues: Vec::new(),
            operatingincomeloss: Vec::new(),
            netincomeloss: Vec::new(),
            assets: Vec::new(),
            liabilities: Vec::new(),
            stockholdersequity: Vec::new(),
        }
    }
}

/// An element of a cached series as JSON gives it: `None` where it is no
/// array; else the array's length, its first element where that is a string,
/// and its second where that is an `i64`.
pub type CacheItem = (usize, Option<Seq<char>>, Option<i64>);

/// What a cache file holds, read as JSON: `None` where the text is not JSON;
/// else, for each of `revenues`, `operatingincomeloss`, `netincomeloss`,
/// `assets`, `liabilities` and `stockholdersequity` in that order, its
/// elements where it is an array.
pub uninterp spec fn cache_json(text: Seq<char>) -> Option<Seq<Option<Seq<Option<CacheItem>>>>>;

/// `serde_json::from_str` into a `serde_json::Value`, then the six members
/// picked out (`Index` by key, `as_array`, `len`, `first`, `get`, `as_str`,
/// `as_i64`). Claimed: the result is `cache_json` of the text, six members.
#[verifier::external_body]
fn read_cache_json(text: &str) -> (r: Option<Vec<Option<Vec<Option<(usize, Option<String>, Option<i64>)>>>>>)
    ensures
        r.deep_view() == cache_json(text@),
        r matches Some(f) ==> f@.len() == 6,
{
    let v: serde_json::Value = serde_json::from_str(text).ok()?;
    let keys = ["revenues", "operatingincomeloss", "netincomeloss", "assets", "liabilities", "stockholdersequity"];
    Some(keys.iter().map(|k| v[*k].as_array().map(|a| a.iter().map(|e| e.as_array().map(|p| (
        p.len(),
        p.first().and_then(|x| x.as_str()).map(|x| x.to_string()),
        p.get(1).and_then(|x| x.as_i64()),
    ))).collect())).collect())
}

/// An element that a cached series cannot be read from: an empty array, or
/// one whose only element is a string (the pair lacks its value).
pub open spec fn unreadable_item(e: Option<CacheItem>) -> bool {
    e matches Some((n, first, _)) && (n == 0 || (n == 1 && first is Some))
}

/// The pairs of a cached series: each element that is an array with a string
/// and an `i64` first, in order; other elements are skipped.
pub open spec fn cache_pairs(items: Seq<Option<CacheItem>>) -> Seq<(Seq<char>, i64)>
    decreases items.len(),
{
    if items.len() == 0 {
        seq![]
    } else {
        let r = cache_pairs(items.drop_last());
        match items.last() {
            Some((n, Some(d), Some(v))) => if n >= 2 {
                r.push((d, v))
            } else {
                r
            },
            _ => r,
        }
    }
}

/// A cached series: its pairs, none where the member is no array.
pub open spec fn cache_field(f: Option<Seq<Option<CacheItem>>>) -> Seq<(Seq<char>, i64)> {
    match f {
        Some(items) => cache_pairs(items),
        None => seq![],
    }
}

/// Some element of a cached series cannot be read.
pub open spec fn unreadable_field(f: Option<Seq<Option<CacheItem>>>) -> bool {
    match f {
        Some(items) => has_unreadable(items),
        None => false,
    }
}

/// Some element cannot be read.
pub open spec fn has_unreadable(items: Seq<Option<CacheItem>>) -> bool {
    exists|i: int| 0 <= i < items.len() && unreadable_item(#[trigger] items[i])
}

fn cached_series(f: &Option<Vec<Option<(usize, Option<String>, Option<i64>)>>>) -> (r: Option<Vec<(String, i64)>>)
    ensures
        r is None <==> unreadable_field(f.deep_view()),
        r matches Some(v) ==> keyed(v@) == cache_field(f.deep_view()),
{
    let items = match f {
        Some(items) => items,
        None => {
            let v: Vec<(String, i64)> = Vec::new();
            assert(keyed(v@) =~= seq![]);
            return Some(v);
        },
    };
    let ghost iv = items.deep_view();
    assert(f.deep_view() == Some(iv));
    let mut v: Vec<(String, i64)> = Vec::new();
    let mut i: usize = 0;
    while i < items.len()
        invariant
            i <= items@.len(),
            iv == items.deep_view(),
            iv.len() == items@.len(),
            f.deep_view() == Some(iv),
            keyed(v@) == cache_pairs(iv.take(i as int)),
            forall|k: int| 0 <= k < i ==> !unreadable_item(#[trigger] iv[k]),
        decreases items@.len() - i,
    {
        assert(iv.take(i + 1).drop_last() =~= iv.take(i as int));
        assert(iv.take(i + 1).last() == iv[i as int]);
        assert(iv[i as int] == items@[i as int].deep_view());
        match &items[i] {
            Some((n, first, second)) => {
                if *n == 0 || (*n == 1 && first.is_some()) {
                    assert(unreadable_item(iv[i as int]));
                    assert(has_unreadable(iv));
                    return None;
                }
                match (first, second) {
                    (Some(d), Some(x)) => {
                        if *n >= 2 {
                            let ghost old_v = keyed(v@);
                            v.push((d.clone(), *x));
                            assert(keyed(v@) =~= old_v.push((d@, *x)));
                        }
                    },
                    _ => {},
                }
            },
            None => {},
        }
        i = i + 1;
    }
    assert(iv.take(i as int) =~= iv);
    Some(v)
}

impl Data {
    /// The series of a company from the text of its cache file: each series
    /// the pairs of its member, in order. `None` where the text is not JSON or
    /// an element of a series cannot be read (an empty array, or a date with
    /// no value after it).
    pub fn load_cache(text: &str) -> (r: Option<Data>)
        ensures
            r is None <==> (cache_json(text@) is None || exists|k: int|
                0 <= k < 6 && unreadable_field(#[trigger] cache_json(text@)->0[k])),
            r matches Some(d) ==> {
                let f = cache_json(text@)->0;
                &&& keyed(d.revenues@) == cache_field(f[0])
                &&& keyed(d.operatingincomeloss@) == cache_field(f[1])
                &&& keyed(d.netincomeloss@) == cache_field(f[2])
                &&& keyed(d.assets@) == cache_field(f[3])
                &&& keyed(d.liabilities@) == cache_field(f[4])
                &&& keyed(d.stockholdersequity@) == cache_field(f[5])
            },
    {
        let f = match read_cache_json(text) {
            Some(f) => f,
            None => return None,
        };
        let ghost fv = f.deep_view();
        assert(fv == cache_json(text@)->0);
        assert(forall|k: int| 0 <= k < 6 ==> #[trigger] fv[k] == f@[k].deep_view());
        let revenues = match cached_series(&f[0]) {
            Some(v) => v,
            None => {
                assert(unreadable_field(cache_json(text@)->0[0]));
                return None;
            },
        };
        let operatingincomeloss = match cached_series(&f[1]) {
            Some(v) => v,
            None => {
                assert(unreadable_field(cache_json(text@)->0[1]));
                return None;
            },
        };
        let netincomeloss = match cached_series(&f[2]) {
            Some(v) => v,
            None => {
                assert(unreadable_field(cache_json(text@)->0[2]));
                return None;
            },
        };
        let assets = match cached_series(&f[3]) {
            Some(v) => v,
            None => {
                assert(unreadable_field(cache_json(text@)->0[3]));
                return None;
            },
        };
        let liabilities = match cached_series(&f[4]) {
            Some(v) => v,
            None => {
                assert(unreadable_field(cache_json(text@)->0[4]));
                return None;
            },
        };
        let stockholdersequity = match cached_series(&f[5]) {
            Some(v) => v,
            None => {
                assert(unreadable_field(cache_json(text@)->0[5]));
                return None;
            },
        };
        assert forall|k: int| 0 <= k < 6 implies !unreadable_field(#[trigger] fv[k]) by {
            if k == 0 {} else if k == 1 {} else if k == 2 {} else if k == 3 {} else if k == 4 {} else {}
        }
        Some(Data { revenues, operatingincomeloss, netincomeloss, assets, liabilities, stockholdersequity })
    }
}

/// What an index cache holds, read by `serde_json` as a list of string pairs:
/// `None` where the text does not read as one.
pub uninterp spec fn index_json(text: Seq<char>) -> Option<Seq<(Seq<char>, Seq<char>)>>;

/// `serde_json::from_str` into `Vec<(String, String)>`. Claimed: the result is
/// `index_json` of the text.
#[verifier::external_body]
fn read_index_json(text: &str) -> (r: Option<Vec<(String, String)>>)
    ensures
        r.deep_view() == index_json(text@),
{
    serde_json::from_str::<Vec<(String, String)>>(text).ok()
}

/// The reports listed in an index cache, as (document id, period end); `None`
/// where the text does not read as a list of string pairs or the list is empty.
pub fn cached_reports(text: &str) -> (r: Option<Vec<(String, String)>>)
    ensures
        r.deep_view() == match index_json(text@) {
            Some(v) => if v.len() > 0 {
                Some(v)
            } else {
                None
            },
            None => None,
        },
{
    match read_index_json(text) {
        Some(v) => if v.len() > 0 {
            Some(v)
        } else {
            None
        },
        None => None,
    }
}

/// The text that `serde_json::to_string` writes for a list of string pairs.
pub uninterp spec fn pairs_json_text(v: Seq<(Seq<char>, Seq<char>)>) -> Option<Seq<char>>;

/// `serde_json::to_string` of a list of string pairs. Claimed: the result is
/// `pairs_json_text` of the list; it is always written (no map with non-string
/// keys, no failing `Serialize`), and reading it back as a list of string pairs
/// gives the list.
#[verifier::external_body]
fn write_pairs_json(v: &Vec<(String, String)>) -> (r: Option<String>)
    ensures
        r.deep_view() == pairs_json_text(v.deep_view()),
        r is Some,
        index_json(r->0@) == Some(v.deep_view()),
{
    serde_json::to_string(v).ok()
}

/// The text of an index cache listing the reports found; it reads back as
/// those reports.
pub fn index_text(reports: &Vec<(String, String)>) -> (r: Option<String>)
    ensures
        r.deep_view() == pairs_json_text(reports.deep_view()),
        r is Some,
        index_json(r->0@) == Some(reports.deep_view()),
{
    write_pairs_json(reports)
}

/// The text that `serde_json::to_string` writes for a JSON object whose
/// members are the given names, each with its series as an array of
/// [date, value] arrays.
pub uninterp spec fn object_json_text(members: Seq<(Seq<char>, Seq<(Seq<char>, i64)>)>) -> Option<Seq<char>>;

pub open spec fn members_view(m: Seq<(String, Vec<(String, i64)>)>) -> Seq<(Seq<char>, Seq<(Seq<char>, i64)>)> {
    m.map_values(|e: (String, Vec<(String, i64)>)| (e.0@, keyed(e.1@)))
}

/// The names of a cache file's members, in order.
pub open spec fn cache_keys() -> Seq<Seq<char>> {
    seq![
        "revenues"@,
        "operatingincomeloss"@,
        "netincomeloss"@,
        "assets"@,
        "liabilities"@,
        "stockholdersequity"@,
    ]
}

/// What reading a cache file gives for members written as arrays of
/// [date, value] arrays: each member an array of two-element arrays.
pub open spec fn cache_fields(m: Seq<(Seq<char>, Seq<(Seq<char>, i64)>)>) -> Seq<Option<Seq<Option<CacheItem>>>> {
    m.map_values(
        |e: (Seq<char>, Seq<(Seq<char>, i64)>)|
            Some(e.1.map_values(|p: (Seq<char>, i64)| Some((2usize, Some(p.0), Some(p.1))))),
    )
}

/// `serde_json::to_value` of each series into a `serde_json::Map` under its
/// name, then `serde_json::to_string` of the object. Claimed: the result is
/// `object_json_text` of the members; it is always written (no map with
/// non-string keys, no failing `Serialize`); and where the members carry the
/// six names of a cache file in order, reading the text back as a cache file
/// gives each series as an array of [date, value] arrays.
#[verifier::external_body]
fn write_object_json(members: &Vec<(String, Vec<(String, i64)>)>) -> (r: Option<String>)
    ensures
        r.deep_view() == object_json_text(members_view(members@)),
        r is Some,
        members_view(members@).map_values(|e: (Seq<char>, Seq<(Seq<char>, i64)>)| e.0) == cache_keys()
            ==> cache_json(r->0@) == Some(cache_fields(members_view(members@))),
{
    let mut m = serde_json::Map::new();
    for (k, series) in members {
        m.insert(k.clone(), serde_json::to_value(series).ok()?);
    }
    serde_json::to_string(&serde_json::Value::Object(m)).ok()
}

/// The members of a company's cache file: each series under its name.
pub open spec fn cache_members(d: Data) -> Seq<(Seq<char>, Seq<(Seq<char>, i64)>)> {
    seq![
        ("revenues"@, keyed(d.revenues@)),
        ("operatingincomeloss"@, keyed(d.operatingincomeloss@)),
        ("netincomeloss"@, keyed(d.netincomeloss@)),
        ("assets"@, keyed(d.assets@)),
        ("liabilities"@, keyed(d.liabilities@)),
        ("stockholdersequity"@, keyed(d.stockholdersequity@)),
    ]
}

fn copy_series(v: &Vec<(String, i64)>) -> (r: Vec<(String, i64)>)
    ensures
        keyed(r@) == keyed(v@),
{
    let mut r: Vec<(String, i64)> = Vec::new();
    let mut i: usize = 0;
    while i < v.len()
        invariant
            i <= v@.len(),
            keyed(r@) == keyed(v@).take(i as int),
        decreases v@.len() - i,
    {
        let ghost old_r = keyed(r@);
        r.push((v[i].0.clone(), v[i].1));
        assert(keyed(r@) =~= old_r.push(keyed(v@)[i as int]));
        assert(keyed(v@).take(i + 1) =~= keyed(v@).take(i as int).push(keyed(v@)[i as int]));
        i = i + 1;
    }
    assert(keyed(v@).take(i as int) =~= keyed(v@));
    r
}

impl Data {
    /// The text of a company's cache file: a JSON object with each series
    /// under its name, which reads back as those series.
    pub fn cache_text(&self) -> (r: Option<String>)
        ensures
            r.deep_view() == object_json_text(cache_members(*self)),
            r is Some,
            cache_json(r->0@) == Some(cache_fields(cache_members(*self))),
    {
        let members = vec![
            ("revenues".to_string(), copy_series(&self.revenues)),
            ("operatingincomeloss".to_string(), copy_series(&self.operatingincomeloss)),
            ("netincomeloss".to_string(), copy_series(&self.netincomeloss)),
            ("assets".to_string(), copy_series(&self.assets)),
            ("liabilities".to_string(), copy_series(&self.liabilities)),
            ("stockholdersequity".to_string(), copy_series(&self.stockholdersequity)),
        ];
        assert(members_view(members@) =~= cache_members(*self));
        assert(cache_members(*self).map_values(|e: (Seq<char>, Seq<(Seq<char>, i64)>)| e.0) =~= cache_keys());
        write_object_json(&members)
    }
}

/// A document of the daily list as values: (form code, securities code,
/// document id, period end).
pub type DocView = (Option<Seq<char>>, Option<Seq<char>>, Option<Seq<char>>, Option<Seq<char>>);

pub open spec fn doc_view(d: EdinetDoc) -> DocView {
    (opt_text(d.form_code), opt_text(d.sec_code), opt_text(d.doc_id), opt_text(d.period_end))
}

/// What EDINET's daily list holds, read as JSON: `None` where the text is not
/// JSON; else `None` inside where its `results` member is no array, and
/// otherwise each document with its `formCode`, `secCode`, `docID` and
/// `periodEnd` where they are strings.
pub uninterp spec fn day_json(text: Seq<char>) -> Option<Option<Seq<DocView>>>;

pub open spec fn found_docs_view(r: Option<Option<Vec<EdinetDoc>>>) -> Option<Option<Seq<DocView>>> {
    match r {
        Some(Some(ds)) => Some(Some(ds@.map_values(|d: EdinetDoc| doc_view(d)))),
        Some(None) => Some(None),
        None => None,
    }
}

/// `serde_json::from_str` into a `serde_json::Value`, then the `results`
/// array and each document's fields picked out (`Index` by key, `as_array`,
/// `as_str`). Claimed: the result is `day_json` of the text.
#[verifier::external_body]
fn read_day_json(text: &str) -> (r: Option<Option<Vec<EdinetDoc>>>)
    ensures
        found_docs_view(r) == day_json(text@),
{
    let v: serde_json::Value = serde_json::from_str(text).ok()?;
    Some(v["results"].as_array().map(|a| a.iter().map(|d| EdinetDoc {
        form_code: d["formCode"].as_str().map(|x| x.to_string()),
        sec_code: d["secCode"].as_str().map(|x| x.to_string()),
        doc_id: d["docID"].as_str().map(|x| x.to_string()),
        period_end: d["periodEnd"].as_str().map(|x| x.to_string()),
    }).collect()))
}

/// The documents of a day's list from its text; none where the text is not
/// JSON or has no `results` array.
pub fn day_documents(text: &str) -> (r: Vec<EdinetDoc>)
    ensures
        r@.map_values(|d: EdinetDoc| doc_view(d)) == match day_json(text@) {
            Some(Some(ds)) => ds,
            _ => seq![],
        },
{
    match read_day_json(text) {
        Some(Some(ds)) => ds,
        _ => {
            let r: Vec<EdinetDoc> = Vec::new();
            assert(r@.map_values(|d: EdinetDoc| doc_view(d)) =~= seq![]);
            r
        },
    }
}

proof fn lemma_written_pairs(v: Seq<(Seq<char>, i64)>)
    ensures
        cache_pairs(v.map_values(|p: (Seq<char>, i64)| Some((2usize, Some(p.0), Some(p.1))))) == v,
        !has_unreadable(v.map_values(|p: (Seq<char>, i64)| Some((2usize, Some(p.0), Some(p.1))))),
    decreases v.len(),
{
    let w = v.map_values(|p: (Seq<char>, i64)| Some((2usize, Some(p.0), Some(p.1))));
    if v.len() > 0 {
        let p = v.drop_last();
        lemma_written_pairs(p);
        assert(w.drop_last() =~= p.map_values(|p: (Seq<char>, i64)| Some((2usize, Some(p.0), Some(p.1)))));
        assert(w.last() == Some((2usize, Some(v.last().0), Some(v.last().1))));
        assert(v =~= p.push(v.last()));
        assert forall|i: int| 0 <= i < w.len() implies !unreadable_item(#[trigger] w[i]) by {}
    } else {
        assert(w.len() == 0);
    }
}

/// A saved cache file reads back as what was saved: loading the text that
/// [`Data::cache_text`] writes for `d` gives each series of `d`.
pub proof fn lemma_cache_round_trip(d: Data, text: Seq<char>)
    requires
        cache_json(text) == Some(cache_fields(cache_members(d))),
    ensures
        !exists|k: int| 0 <= k < 6 && unreadable_field(#[trigger] cache_json(text)->0[k]),
        cache_field(cache_json(text)->0[0]) == keyed(d.revenues@),
        cache_field(cache_json(text)->0[1]) == keyed(d.operatingincomeloss@),
        cache_field(cache_json(text)->0[2]) == keyed(d.netincomeloss@),
        cache_field(cache_json(text)->0[3]) == keyed(d.assets@),
        cache_field(cache_json(text)->0[4]) == keyed(d.liabilities@),
        cache_field(cache_json(text)->0[5]) == keyed(d.stockholdersequity@),
{
    let f = cache_json(text)->0;
    let m = cache_members(d);
    assert forall|k: int| 0 <= k < 6 implies f[k] == Some(
        m[k].1.map_values(|p: (Seq<char>, i64)| Some((2usize, Some(p.0), Some(p.1)))),
    ) by {}
    lemma_written_pairs(keyed(d.revenues@));
    lemma_written_pairs(keyed(d.operatingincomeloss@));
    lemma_written_pairs(keyed(d.netincomeloss@));
    lemma_written_pairs(keyed(d.assets@));
    lemma_written_pairs(keyed(d.liabilities@));
    lemma_written_pairs(keyed(d.stockholdersequity@));
    assert(m[0].1 == keyed(d.revenues@));
    assert(m[1].1 == keyed(d.operatingincomeloss@));
    assert(m[2].1 == keyed(d.netincomeloss@));
    assert(m[3].1 == keyed(d.assets@));
    assert(m[4].1 == keyed(d.liabilities@));
    assert(m[5].1 == keyed(d.stockholdersequity@));
    assert forall|k: int| 0 <= k < 6 implies !unreadable_field(#[trigger] f[k]) by {
        if k == 0 {} else if k == 1 {} else if k == 2 {} else if k == 3 {} else if k == 4 {} else {}
    }
}

} // verus!

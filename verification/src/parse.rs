//! The five-year figures of a US company from its SEC XBRL company facts.

use vstd::prelude::*;
use crate::dated::{dates_ascending, insert_asc, keyed, lemma_sorted_asc_ascending, lemma_sorted_asc_members, sort_by_date_asc, sorted_asc};
use crate::calculate::{find_year, first_with_key, lemma_first_with_key};
use crate::text::{lemma_str_order, str_lt, text_eq, text_lt};
use crate::xbrl::{saturate, str_views};

verus! {

/// The financial series of a company, each latest first: (period end, value).
pub struct Data {
    pub netincomeloss: Vec<(String, i64)>,
    pub assets: Vec<(String, i64)>,
    pub stockholdersequity: Vec<(String, i64)>,
    pub revenues: Vec<(String, i64)>,
    pub operatingincomeloss: Vec<(String, i64)>,
    pub liabilities: Vec<(String, i64)>,
}

/// One reported value of a concept, as the company facts give it: the form it
/// was filed in, the fiscal period, the period end and the value (each absent
/// where the record lacks it or holds another kind of value).
pub struct FactRecord {
    pub form: Option<String>,
    pub fp: Option<String>,
    pub end: Option<String>,
    pub val: Option<i64>,
}

/// A US-GAAP concept of the company facts and its values in USD, where it has any.
pub struct Concept {
    pub name: String,
    pub usd: Option<Vec<FactRecord>>,
}

/// A fact record as values: (form, fiscal period, period end, value).
pub type FactView = (Option<Seq<char>>, Option<Seq<char>>, Option<Seq<char>>, Option<i64>);

/// A concept as values: its name and its USD records, where it has any.
pub type ConceptView = (Seq<char>, Option<Seq<FactView>>);

pub open spec fn opt_text(o: Option<String>) -> Option<Seq<char>> {
    match o {
        Some(s) => Some(s@),
        None => None,
    }
}

pub open spec fn fact_view(f: FactRecord) -> FactView {
    (opt_text(f.form), opt_text(f.fp), opt_text(f.end), f.val)
}

pub open spec fn records_view(v: Seq<FactRecord>) -> Seq<FactView> {
    v.map_values(|f: FactRecord| fact_view(f))
}

pub open spec fn concept_view(c: Concept) -> ConceptView {
    (
        c.name@,
        match c.usd {
            Some(v) => Some(records_view(v@)),
            None => None,
        },
    )
}

pub open spec fn concepts_view(cs: Seq<Concept>) -> Seq<ConceptView> {
    cs.map_values(|c: Concept| concept_view(c))
}

/// A value reported for a fiscal year in an annual report (form 10-K).
pub open spec fn is_annual_filing(f: FactView) -> bool {
    &&& f.0 matches Some(s) && s == "10-K"@
    &&& f.1 matches Some(p) && p == "FY"@
}

/// The annual values in order, as (period end, value); a missing end counts
/// as empty and a missing value as 0.
pub open spec fn annual_entries(recs: Seq<FactView>) -> Seq<(Seq<char>, i64)>
    decreases recs.len(),
{
    if recs.len() == 0 {
        seq![]
    } else {
        let r = annual_entries(recs.drop_last());
        let f = recs.last();
        if is_annual_filing(f) {
            r.push(
                (
                    match f.2 {
                        Some(e) => e,
                        None => seq![],
                    },
                    match f.3 {
                        Some(v) => v,
                        None => 0,
                    },
                ),
            )
        } else {
            r
        }
    }
}

/// Of each run of entries with the same date, the first.
pub open spec fn dedup_dates<V>(s: Seq<(Seq<char>, V)>) -> Seq<(Seq<char>, V)>
    decreases s.len(),
{
    if s.len() <= 1 {
        s
    } else {
        let r = dedup_dates(s.drop_last());
        if s.last().0 == s[s.len() - 2].0 {
            r
        } else {
            r.push(s.last())
        }
    }
}

/// At most the first five entries.
pub open spec fn first_five<V>(s: Seq<V>) -> Seq<V> {
    if s.len() <= 5 {
        s
    } else {
        s.take(5)
    }
}

/// The five latest dates of a series, latest first, each with the value that
/// the first entry of that date has.
pub open spec fn latest_five(s: Seq<(Seq<char>, i64)>) -> Seq<(Seq<char>, i64)> {
    first_five(dedup_dates(sorted_asc(s)).reverse())
}

proof fn lemma_dedup_last<V>(t: Seq<(Seq<char>, V)>)
    requires
        t.len() > 0,
    ensures
        dedup_dates(t).len() > 0,
        dedup_dates(t).last().0 == t.last().0,
    decreases t.len(),
{
    if t.len() > 1 {
        lemma_dedup_last(t.drop_last());
    }
}

/// Some entry of `d` has the date `x`.
pub open spec fn has_date<V>(d: Seq<(Seq<char>, V)>, x: Seq<char>) -> bool {
    exists|k: int| 0 <= k < d.len() && #[trigger] d[k].0 == x
}

proof fn lemma_dedup_members<V>(t: Seq<(Seq<char>, V)>)
    ensures
        forall|k: int| 0 <= k < dedup_dates(t).len() ==> t.contains(#[trigger] dedup_dates(t)[k]),
        forall|m: int| 0 <= m < t.len() ==> has_date(dedup_dates(t), #[trigger] t[m].0),
    decreases t.len(),
{
    if t.len() > 1 {
        let p = t.drop_last();
        lemma_dedup_members(p);
        lemma_dedup_last(p);
        let r = dedup_dates(p);
        let d = dedup_dates(t);
        assert forall|k: int| 0 <= k < d.len() implies t.contains(#[trigger] d[k]) by {
            if k < r.len() {
                assert(d[k] == r[k]);
                assert(p.contains(r[k]));
                let w = choose|w: int| 0 <= w < p.len() && p[w] == r[k];
                assert(t[w] == p[w]);
            } else {
                assert(d[k] == t[t.len() - 1]);
            }
        }
        assert forall|m: int| 0 <= m < t.len() implies has_date(d, #[trigger] t[m].0) by {
            if m < t.len() - 1 {
                assert(t[m] == p[m]);
                assert(has_date(r, p[m].0));
                let k = choose|k: int| 0 <= k < r.len() && #[trigger] r[k].0 == p[m].0;
                assert(d[k] == r[k]);
            } else if t.last().0 == t[t.len() - 2].0 {
                assert(r.last().0 == p.last().0);
                assert(d[r.len() - 1] == r.last());
            } else {
                assert(d[d.len() - 1] == t.last());
            }
        }
    } else if t.len() == 1 {
        assert(dedup_dates(t)[0] == t[0]);
        assert(has_date(dedup_dates(t), t[0].0));
    }
}

proof fn lemma_dedup_increasing<V>(t: Seq<(Seq<char>, V)>)
    requires
        dates_ascending(t),
    ensures
        forall|i: int, j: int|
            #![trigger dedup_dates(t)[i], dedup_dates(t)[j]]
            0 <= i < j < dedup_dates(t).len() ==> str_lt(dedup_dates(t)[i].0, dedup_dates(t)[j].0),
    decreases t.len(),
{
    if t.len() > 1 {
        let p = t.drop_last();
        assert(dates_ascending(p)) by {
            assert forall|i: int, j: int| 0 <= i < j < p.len() implies !str_lt(
                #[trigger] p[j].0,
                #[trigger] p[i].0,
            ) by {
                assert(p[i] == t[i] && p[j] == t[j]);
            }
        }
        lemma_dedup_increasing(p);
        lemma_dedup_last(p);
        let r = dedup_dates(p);
        let d = dedup_dates(t);
        if t.last().0 != t[t.len() - 2].0 {
            let a = t[t.len() - 2].0;
            let b = t.last().0;
            assert(!str_lt(t[t.len() - 1].0, t[t.len() - 2].0));
            lemma_str_order(a, b, a);
            assert(str_lt(a, b));
            assert forall|i: int, j: int| 0 <= i < j < d.len() implies str_lt(
                #[trigger] d[i].0,
                #[trigger] d[j].0,
            ) by {
                assert(d[i] == r[i]);
                if j < r.len() {
                    assert(d[j] == r[j]);
                } else {
                    assert(d[j] == t.last());
                    if i < r.len() - 1 {
                        assert(str_lt(r[i].0, r[r.len() - 1].0));
                        lemma_str_order(r[i].0, a, b);
                    }
                }
            }
        }
    }
}

proof fn lemma_latest_five_index(s: Seq<(Seq<char>, i64)>)
    ensures
        latest_five(s).len() <= 5,
        latest_five(s).len() <= dedup_dates(sorted_asc(s)).len(),
        latest_five(s).len() < 5 ==> latest_five(s).len() == dedup_dates(sorted_asc(s)).len(),
        forall|i: int|
            0 <= i < latest_five(s).len() ==> #[trigger] latest_five(s)[i] == dedup_dates(
                sorted_asc(s),
            )[dedup_dates(sorted_asc(s)).len() - 1 - i],
{
}

/// The first entry of `s` with date `x`, if any.
pub open spec fn first_of_date<V>(s: Seq<(Seq<char>, V)>, x: Seq<char>) -> Option<(Seq<char>, V)>
    decreases s.len(),
{
    if s.len() == 0 {
        None
    } else if s[0].0 == x {
        Some(s[0])
    } else {
        first_of_date(s.drop_first(), x)
    }
}

proof fn lemma_first_of_date_found<V>(s: Seq<(Seq<char>, V)>, x: Seq<char>)
    ensures
        first_of_date(s, x) matches Some(e) ==> e.0 == x && s.contains(e),
        first_of_date(s, x) is None ==> forall|k: int| 0 <= k < s.len() ==> (#[trigger] s[k]).0 != x,
    decreases s.len(),
{
    if s.len() > 0 {
        let t = s.drop_first();
        lemma_first_of_date_found(t, x);
        if s[0].0 != x {
            if let Some(e) = first_of_date(t, x) {
                let w = choose|w: int| 0 <= w < t.len() && t[w] == e;
                assert(s[w + 1] == e);
            } else {
                assert forall|k: int| 0 <= k < s.len() implies (#[trigger] s[k]).0 != x by {
                    if k > 0 {
                        assert(s[k] == t[k - 1]);
                    }
                }
            }
        } else {
            assert(s.contains(s[0]));
        }
    }
}

proof fn lemma_first_of_date_push<V>(p: Seq<(Seq<char>, V)>, e: (Seq<char>, V), x: Seq<char>)
    ensures
        first_of_date(p.push(e), x) == (if first_of_date(p, x) is Some {
            first_of_date(p, x)
        } else if e.0 == x {
            Some(e)
        } else {
            None
        }),
    decreases p.len(),
{
    assert(first_of_date(Seq::<(Seq<char>, V)>::empty(), x) is None);
    if p.len() == 0 {
        assert(p.push(e).drop_first() =~= Seq::<(Seq<char>, V)>::empty());
        assert(p.push(e)[0] == e);
    } else {
        assert(p.push(e).drop_first() =~= p.drop_first().push(e));
        assert(p.push(e)[0] == p[0]);
        lemma_first_of_date_push(p.drop_first(), e, x);
    }
}

proof fn lemma_first_of_date_insert<V>(r: Seq<(Seq<char>, V)>, e: (Seq<char>, V), x: Seq<char>)
    requires
        dates_ascending(r),
    ensures
        first_of_date(insert_asc(r, e), x) == (if first_of_date(r, x) is Some {
            first_of_date(r, x)
        } else if e.0 == x {
            Some(e)
        } else {
            None
        }),
    decreases r.len(),
{
    assert(first_of_date(Seq::<(Seq<char>, V)>::empty(), x) is None);
    if r.len() == 0 {
        assert(seq![e].drop_first() =~= Seq::<(Seq<char>, V)>::empty());
        assert(seq![e][0] == e);
        assert(insert_asc(r, e) == seq![e]);
    } else if str_lt(e.0, r[0].0) {
        let n = seq![e] + r;
        assert(n[0] == e);
        assert(n.drop_first() =~= r);
        if e.0 == x {
            lemma_first_of_date_found(r, x);
            if let Some(f) = first_of_date(r, x) {
                let w = choose|w: int| 0 <= w < r.len() && r[w] == f;
                if w > 0 {
                    assert(!str_lt(r[w].0, r[0].0));
                }
                lemma_str_order(x, r[0].0, x);
            }
        }
    } else {
        let t = r.drop_first();
        assert(dates_ascending(t)) by {
            assert forall|i: int, j: int| 0 <= i < j < t.len() implies !str_lt(
                #[trigger] t[j].0,
                #[trigger] t[i].0,
            ) by {
                assert(t[i] == r[i + 1] && t[j] == r[j + 1]);
            }
        }
        lemma_first_of_date_insert(t, e, x);
        let n = seq![r[0]] + insert_asc(t, e);
        assert(n[0] == r[0]);
        assert(n.drop_first() =~= insert_asc(t, e));
    }
}

proof fn lemma_first_of_date_sorted<V>(s: Seq<(Seq<char>, V)>, x: Seq<char>)
    ensures
        first_of_date(sorted_asc(s), x) == first_of_date(s, x),
    decreases s.len(),
{
    if s.len() > 0 {
        let p = s.drop_last();
        lemma_first_of_date_sorted(p, x);
        lemma_sorted_asc_ascending(p);
        lemma_first_of_date_insert(sorted_asc(p), s.last(), x);
        lemma_first_of_date_push(p, s.last(), x);
        assert(p.push(s.last()) =~= s);
    }
}

proof fn lemma_dedup_first<V>(t: Seq<(Seq<char>, V)>)
    requires
        dates_ascending(t),
    ensures
        forall|k: int|
            0 <= k < dedup_dates(t).len() ==> first_of_date(t, (#[trigger] dedup_dates(t)[k]).0)
                == Some(dedup_dates(t)[k]),
    decreases t.len(),
{
    if t.len() == 1 {
        assert(dedup_dates(t)[0] == t[0]);
    } else if t.len() > 1 {
        let p = t.drop_last();
        assert(dates_ascending(p)) by {
            assert forall|i: int, j: int| 0 <= i < j < p.len() implies !str_lt(
                #[trigger] p[j].0,
                #[trigger] p[i].0,
            ) by {
                assert(p[i] == t[i] && p[j] == t[j]);
            }
        }
        lemma_dedup_first(p);
        let r = dedup_dates(p);
        let d = dedup_dates(t);
        assert(p.push(t.last()) =~= t);
        assert forall|k: int| 0 <= k < d.len() implies first_of_date(t, (#[trigger] d[k]).0) == Some(
            d[k],
        ) by {
            lemma_first_of_date_push(p, t.last(), d[k].0);
            if k < r.len() {
                assert(d[k] == r[k]);
            } else {
                let last = t.len() - 1;
                assert(d[k] == t.last());
                assert(t[last] == t.last());
                lemma_first_of_date_found(p, t.last().0);
                if let Some(f) = first_of_date(p, t.last().0) {
                    let w = choose|w: int| 0 <= w < p.len() && p[w] == f;
                    assert(p[w] == t[w]);
                    assert(t[last - 1] == p[last - 1]);
                    assert(t.last().0 != t[last - 1].0);
                    if w < last - 1 {
                        assert(!str_lt(t[last - 1].0, t[w].0));
                    }
                    assert(!str_lt(t[last].0, t[last - 1].0));
                    lemma_str_order(t[last - 1].0, t[last].0, t[last - 1].0);
                    lemma_str_order(t[w].0, t[last - 1].0, t[last].0);
                }
            }
        }
    }
}

/// Each entry of the series of a concept is, for its period end, the first
/// annual value reported: later reports of the same period end are dropped.
pub proof fn lemma_latest_five_first_reported(s: Seq<(Seq<char>, i64)>)
    ensures
        forall|k: int|
            0 <= k < latest_five(s).len() ==> first_of_date(s, (#[trigger] latest_five(s)[k]).0)
                == Some(latest_five(s)[k]),
{
    let t = sorted_asc(s);
    lemma_sorted_asc_ascending(s);
    lemma_dedup_first(t);
    lemma_latest_five_index(s);
    let d = dedup_dates(t);
    assert forall|k: int| 0 <= k < latest_five(s).len() implies first_of_date(
        s,
        (#[trigger] latest_five(s)[k]).0,
    ) == Some(latest_five(s)[k]) by {
        let e = latest_five(s)[k];
        assert(e == d[d.len() - 1 - k]);
        lemma_first_of_date_sorted(s, e.0);
    }
}

/// The series of a concept holds at most five entries, their period ends
/// strictly decreasing, each one of the annual values; and every period end
/// of the annual values is among them, unless five later ones are.
pub proof fn lemma_latest_five(s: Seq<(Seq<char>, i64)>)
    ensures
        latest_five(s).len() <= 5,
        forall|i: int, j: int|
            #![trigger latest_five(s)[i], latest_five(s)[j]]
            0 <= i < j < latest_five(s).len() ==> str_lt(latest_five(s)[j].0, latest_five(s)[i].0),
        forall|i: int| 0 <= i < latest_five(s).len() ==> s.contains(#[trigger] latest_five(s)[i]),
        forall|m: int|
            0 <= m < s.len() ==> has_date(latest_five(s), #[trigger] s[m].0) || (latest_five(s).len()
                == 5 && str_lt(s[m].0, latest_five(s)[4].0)),
{
    let t = sorted_asc(s);
    lemma_sorted_asc_members(s);
    lemma_sorted_asc_ascending(s);
    lemma_dedup_members(t);
    lemma_dedup_increasing(t);
    lemma_latest_five_index(s);
    let d = dedup_dates(t);
    let r = latest_five(s);
    assert forall|i: int, j: int| 0 <= i < j < r.len() implies str_lt(
        #[trigger] r[j].0,
        #[trigger] r[i].0,
    ) by {
        assert(r[i] == d[d.len() - 1 - i] && r[j] == d[d.len() - 1 - j]);
    }
    assert forall|i: int| 0 <= i < r.len() implies s.contains(#[trigger] r[i]) by {
        assert(r[i] == d[d.len() - 1 - i]);
        assert(t.contains(d[d.len() - 1 - i]));
    }
    assert forall|m: int| 0 <= m < s.len() implies has_date(r, #[trigger] s[m].0) || (r.len() == 5
        && str_lt(s[m].0, r[4].0)) by {
        assert(s.contains(s[m]));
        assert(t.contains(s[m]));
        let w = choose|w: int| 0 <= w < t.len() && t[w] == s[m];
        assert(has_date(d, t[w].0));
        let k = choose|k: int| 0 <= k < d.len() && #[trigger] d[k].0 == t[w].0;
        let q = d.len() - 1 - k;
        if q < r.len() {
            assert(r[q] == d[k]);
        } else {
            assert(r[4] == d[d.len() - 5]);
            assert(str_lt(d[k].0, d[d.len() - 5].0));
        }
    }
}

/// The values of the concept named `key`, if the facts have it in USD.
pub open spec fn concept_records(cs: Seq<ConceptView>, key: Seq<char>) -> Seq<FactView>
    decreases cs.len(),
{
    if cs.len() == 0 {
        seq![]
    } else if cs[0].0 == key {
        match cs[0].1 {
            Some(v) => v,
            None => seq![],
        }
    } else {
        concept_records(cs.drop_first(), key)
    }
}

/// The series of a concept: its annual values for the five latest period ends.
pub open spec fn concept_series(cs: Seq<ConceptView>, key: Seq<char>) -> Seq<(Seq<char>, i64)> {
    latest_five(annual_entries(concept_records(cs, key)))
}

fn annual_of(recs: &Vec<FactRecord>) -> (r: Vec<(String, i64)>)
    ensures
        keyed(r@) == annual_entries(records_view(recs@)),
{
    let ghost rv = records_view(recs@);
    let mut r: Vec<(String, i64)> = Vec::new();
    let mut i: usize = 0;
    while i < recs.len()
        invariant
            i <= recs@.len(),
            rv == records_view(recs@),
            keyed(r@) == annual_entries(rv.take(i as int)),
        decreases recs@.len() - i,
    {
        let f = &recs[i];
        assert(rv.take(i + 1).drop_last() =~= rv.take(i as int));
        assert(rv.take(i + 1).last() == fact_view(*f));
        let annual = match (&f.form, &f.fp) {
            (Some(form), Some(fp)) => text_eq(form.as_str(), "10-K") && text_eq(fp.as_str(), "FY"),
            _ => false,
        };
        if annual {
            let end = match &f.end {
                Some(e) => e.clone(),
                None => String::new(),
            };
            let val = match f.val {
                Some(v) => v,
                None => 0,
            };
            let ghost old_r = r@;
            r.push((end, val));
            assert(keyed(r@) =~= keyed(old_r).push((end@, val)));
        }
        i = i + 1;
    }
    assert(rv.take(i as int) =~= rv);
    r
}

fn dedup_first(s: &Vec<(String, i64)>) -> (r: Vec<(String, i64)>)
    ensures
        keyed(r@) == dedup_dates(keyed(s@)),
{
    let ghost ks = keyed(s@);
    let mut r: Vec<(String, i64)> = Vec::new();
    let mut i: usize = 0;
    while i < s.len()
        invariant
            i <= s@.len(),
            ks == keyed(s@),
            keyed(r@) == dedup_dates(ks.take(i as int)),
        decreases s@.len() - i,
    {
        let ghost old_r = r@;
        assert(ks.take(i + 1).drop_last() =~= ks.take(i as int));
        if i == 0 || !text_eq(s[i].0.as_str(), s[i - 1].0.as_str()) {
            r.push((s[i].0.clone(), s[i].1));
            assert(keyed(r@) =~= keyed(old_r).push(ks[i as int]));
            if i == 0 {
                assert(ks.take(1) =~= seq![ks[0]]);
            }
        }
        i = i + 1;
    }
    assert(ks.take(i as int) =~= ks);
    r
}

fn latest_first_five(s: &Vec<(String, i64)>) -> (r: Vec<(String, i64)>)
    ensures
        keyed(r@) == first_five(keyed(s@).reverse()),
{
    let ghost rev = keyed(s@).reverse();
    let mut r: Vec<(String, i64)> = Vec::new();
    let mut k: usize = 0;
    while k < s.len() && k < 5
        invariant
            k <= s@.len(),
            k <= 5,
            rev == keyed(s@).reverse(),
            keyed(r@) == rev.take(k as int),
        decreases s@.len() - k,
    {
        let e = &s[s.len() - 1 - k];
        let ghost old_r = r@;
        r.push((e.0.clone(), e.1));
        assert(rev[k as int] == keyed(s@)[s@.len() - 1 - k]);
        assert(keyed(r@) =~= keyed(old_r).push(keyed(s@)[s@.len() - 1 - k]));
        assert(keyed(r@) =~= rev.take(k + 1));
        k = k + 1;
    }
    assert(s@.len() <= 5 ==> rev.take(k as int) =~= rev);
    r
}

/// The series of a concept: its annual values (10-K, fiscal year) for the five
/// latest period ends, latest first; for a period end reported more than once,
/// the value reported first.
pub fn extract_latest(concepts: &Vec<Concept>, key: &str) -> (r: Vec<(String, i64)>)
    ensures
        keyed(r@) == concept_series(concepts_view(concepts@), key@),
{
    let ghost cv = concepts_view(concepts@);
    let mut i: usize = 0;
    assert(cv.skip(0) =~= cv);
    while i < concepts.len()
        invariant
            i <= concepts@.len(),
            cv == concepts_view(concepts@),
            concept_records(cv, key@) == concept_records(cv.skip(i as int), key@),
        decreases concepts@.len() - i,
    {
        assert(cv.skip(i as int).drop_first() =~= cv.skip(i + 1));
        assert(cv.skip(i as int)[0] == concept_view(concepts@[i as int]));
        if text_eq(concepts[i].name.as_str(), key) {
            let recs: &Vec<FactRecord> = match &concepts[i].usd {
                Some(v) => v,
                None => {
                    let r: Vec<(String, i64)> = Vec::new();
                    assert(keyed(r@) =~= latest_five(annual_entries(seq![])));
                    return r;
                },
            };
            let annual = annual_of(recs);
            let sorted = sort_by_date_asc(annual);
            let deduped = dedup_first(&sorted);
            return latest_first_five(&deduped);
        }
        i = i + 1;
    }
    let r: Vec<(String, i64)> = Vec::new();
    assert(keyed(r@) =~= latest_five(annual_entries(seq![])));
    r
}

/// The concepts that report each item, in order of preference.
pub open spec fn revenue_concepts() -> Seq<Seq<char>> {
    seq![
        "Revenues"@,
        "RevenueFromContractWithCustomerExcludingAssessedTax"@,
        "SalesRevenueNet"@,
    ]
}

pub open spec fn net_income_concepts() -> Seq<Seq<char>> {
    seq!["NetIncomeLoss"@, "NetIncomeLossAvailableToCommonStockholdersBasic"@]
}

pub open spec fn operating_income_concepts() -> Seq<Seq<char>> {
    seq!["OperatingIncomeLoss"@, "OperatingLoss"@]
}

pub open spec fn asset_concepts() -> Seq<Seq<char>> {
    seq!["Assets"@]
}

pub open spec fn liability_concepts() -> Seq<Seq<char>> {
    seq!["Liabilities"@, "LiabilitiesCurrent"@]
}

pub open spec fn equity_concepts() -> Seq<Seq<char>> {
    seq!["StockholdersEquity"@]
}

/// The series of the concept with the most recent data among `keys`: the one
/// whose latest period end is latest; among equals, the earlier key; empty
/// where none of them has annual values.
pub open spec fn chosen_series(cs: Seq<ConceptView>, keys: Seq<Seq<char>>) -> Seq<(Seq<char>, i64)>
    decreases keys.len(),
{
    if keys.len() == 0 {
        seq![]
    } else {
        let prev = chosen_series(cs, keys.drop_last());
        let cur = concept_series(cs, keys.last());
        if cur.len() > 0 && (prev.len() == 0 || str_lt(prev[0].0, cur[0].0)) {
            cur
        } else {
            prev
        }
    }
}

/// The chosen series is the series of one of the concepts, or empty exactly
/// when none of them has annual values; and no concept's series has a later
/// latest period end.
pub proof fn lemma_chosen_series(cs: Seq<ConceptView>, keys: Seq<Seq<char>>)
    ensures
        chosen_series(cs, keys).len() == 0 <==> forall|k: int|
            0 <= k < keys.len() ==> #[trigger] concept_series(cs, keys[k]).len() == 0,
        chosen_series(cs, keys).len() > 0 ==> exists|k: int|
            0 <= k < keys.len() && chosen_series(cs, keys) == #[trigger] concept_series(cs, keys[k]),
        forall|k: int|
            0 <= k < keys.len() && #[trigger] concept_series(cs, keys[k]).len() > 0 ==> !str_lt(
                chosen_series(cs, keys)[0].0,
                concept_series(cs, keys[k])[0].0,
            ),
    decreases keys.len(),
{
    if keys.len() > 0 {
        let p = keys.drop_last();
        lemma_chosen_series(cs, p);
        let prev = chosen_series(cs, p);
        let cur = concept_series(cs, keys.last());
        let c = chosen_series(cs, keys);
        assert(keys[keys.len() - 1] == keys.last());
        assert forall|k: int| 0 <= k < p.len() implies #[trigger] keys[k] == p[k] by {}
        if c.len() > 0 {
            if c == cur {
                assert(concept_series(cs, keys[keys.len() - 1]) == cur);
            } else {
                let k = choose|k: int| 0 <= k < p.len() && prev == #[trigger] concept_series(cs, p[k]);
                assert(keys[k] == p[k]);
            }
        }
        assert forall|k: int|
            0 <= k < keys.len() && #[trigger] concept_series(cs, keys[k]).len() > 0 implies !str_lt(
            c[0].0,
            concept_series(cs, keys[k])[0].0,
        ) by {
            let x = concept_series(cs, keys[k]);
            let takes_cur = cur.len() > 0 && (prev.len() == 0 || str_lt(prev[0].0, cur[0].0));
            if k < p.len() {
                assert(keys[k] == p[k]);
                assert(concept_series(cs, p[k]) == x);
                assert(prev.len() > 0);
                assert(!str_lt(prev[0].0, x[0].0));
                if takes_cur {
                    lemma_str_order(x[0].0, prev[0].0, cur[0].0);
                    lemma_str_order(cur[0].0, x[0].0, prev[0].0);
                }
            } else {
                assert(x == cur);
                lemma_str_order(cur[0].0, cur[0].0, cur[0].0);
            }
        }
    }
}

/// Equity as assets less liabilities: for each period end of the assets
/// series in order that the liabilities series also has, the difference
/// (saturated to `i64`) with the first liabilities value of that period end.
pub open spec fn net_assets_series(assets: Seq<(Seq<char>, i64)>, liabilities: Seq<(Seq<char>, i64)>) -> Seq<
    (Seq<char>, i64),
>
    decreases assets.len(),
{
    if assets.len() == 0 {
        seq![]
    } else {
        let r = net_assets_series(assets.drop_last(), liabilities);
        let (d, a) = assets.last();
        match first_with_key(liabilities, d) {
            Some(j) => r.push((d, saturate(a - liabilities[j].1))),
            None => r,
        }
    }
}

/// Entry `j` of `l` is the first one with date `d`.
pub open spec fn first_dated(l: Seq<(Seq<char>, i64)>, j: int, d: Seq<char>) -> bool {
    0 <= j < l.len() && l[j].0 == d && forall|k: int| 0 <= k < j ==> (#[trigger] l[k]).0 != d
}

/// Some entry of `l` has date `d`.
pub open spec fn dated_in(l: Seq<(Seq<char>, i64)>, d: Seq<char>) -> bool {
    exists|j: int| 0 <= j < l.len() && (#[trigger] l[j]).0 == d
}

/// How many entries of `a` have a date that `l` also has.
pub open spec fn shared_dates(a: Seq<(Seq<char>, i64)>, l: Seq<(Seq<char>, i64)>) -> nat
    decreases a.len(),
{
    if a.len() == 0 {
        0
    } else {
        shared_dates(a.drop_last(), l) + if dated_in(l, a.last().0) {
            1nat
        } else {
            0nat
        }
    }
}

/// Equity from assets and liabilities covers every year: for each assets
/// entry whose period end the liabilities also report, it holds that period
/// end with assets less the first liabilities value of it (saturated); it
/// holds nothing else, and one entry per such assets entry, in their order.
pub proof fn lemma_net_assets_every_year(a: Seq<(Seq<char>, i64)>, l: Seq<(Seq<char>, i64)>)
    ensures
        forall|i: int, j: int|
            #![trigger a[i], l[j]]
            0 <= i < a.len() && first_dated(l, j, a[i].0) ==> net_assets_series(a, l).contains(
                (a[i].0, saturate(a[i].1 - l[j].1)),
            ),
        forall|k: int|
            0 <= k < net_assets_series(a, l).len() ==> exists|i: int, j: int|
                #![trigger a[i], l[j]]
                0 <= i < a.len() && first_dated(l, j, a[i].0) && #[trigger] net_assets_series(a, l)[k]
                    == (a[i].0, saturate(a[i].1 - l[j].1)),
        net_assets_series(a, l).len() == shared_dates(a, l),
    decreases a.len(),
{
    if a.len() > 0 {
        let p = a.drop_last();
        lemma_net_assets_every_year(p, l);
        let r = net_assets_series(p, l);
        let n = net_assets_series(a, l);
        let last = a.len() - 1;
        let d = a[last].0;
        assert(a.last() == a[last]);
        lemma_first_with_key(l, d);
        assert forall|i: int| 0 <= i < p.len() implies #[trigger] p[i] == a[i] by {}
        if let Some(j0) = first_with_key(l, d) {
            assert(dated_in(l, d));
        } else {
            assert(!dated_in(l, d));
        }
        assert forall|i: int, j: int|
            0 <= i < a.len() && first_dated(l, j, a[i].0) implies n.contains(
            (a[i].0, saturate(a[i].1 - l[j].1)),
        ) by {
            if i < p.len() {
                assert(p[i] == a[i]);
                assert(r.contains((p[i].0, saturate(p[i].1 - l[j].1))));
                let w = choose|w: int| 0 <= w < r.len() && r[w] == (p[i].0, saturate(p[i].1 - l[j].1));
                assert(n[w] == r[w]);
            } else {
                let j0 = first_with_key(l, d)->0;
                if j0 < j {
                    assert(l[j0].0 != d);
                } else if j < j0 {
                    assert(l[j].0 != d);
                }
                assert(n[r.len() as int] == (a[i].0, saturate(a[i].1 - l[j].1)));
            }
        }
        assert forall|k: int| 0 <= k < n.len() implies exists|i: int, j: int|
            #![trigger a[i], l[j]]
            0 <= i < a.len() && first_dated(l, j, a[i].0) && #[trigger] n[k] == (a[i].0, saturate(
                a[i].1 - l[j].1,
            )) by {
            if k < r.len() {
                assert(n[k] == r[k]);
                let (i, j) = choose|i: int, j: int|
                    #![trigger p[i], l[j]]
                    0 <= i < p.len() && first_dated(l, j, p[i].0) && r[k] == (p[i].0, saturate(
                        p[i].1 - l[j].1,
                    ));
                assert(p[i] == a[i]);
            } else {
                let j0 = first_with_key(l, d)->0;
                assert(first_dated(l, j0, a[last].0));
            }
        }
    }
}

fn choose_series(concepts: &Vec<Concept>, keys: &Vec<&'static str>) -> (r: Vec<(String, i64)>)
    ensures
        keyed(r@) == chosen_series(concepts_view(concepts@), str_views(keys@)),
{
    let ghost kv = str_views(keys@);
    let mut best: Vec<(String, i64)> = Vec::new();
    let mut i: usize = 0;
    while i < keys.len()
        invariant
            i <= keys@.len(),
            kv == str_views(keys@),
            keyed(best@) == chosen_series(concepts_view(concepts@), kv.take(i as int)),
        decreases keys@.len() - i,
    {
        assert(kv.take(i + 1).drop_last() =~= kv.take(i as int));
        assert(kv.take(i + 1).last() == keys@[i as int]@);
        let cur = extract_latest(concepts, keys[i]);
        if cur.len() > 0 && (best.len() == 0 || text_lt(best[0].0.as_str(), cur[0].0.as_str())) {
            best = cur;
        }
        i = i + 1;
    }
    assert(kv.take(i as int) =~= kv);
    best
}

fn net_assets(assets: &Vec<(String, i64)>, liabilities: &Vec<(String, i64)>) -> (r: Vec<(String, i64)>)
    ensures
        keyed(r@) == net_assets_series(keyed(assets@), keyed(liabilities@)),
{
    let ghost ka = keyed(assets@);
    let mut r: Vec<(String, i64)> = Vec::new();
    let mut i: usize = 0;
    while i < assets.len()
        invariant
            i <= assets@.len(),
            ka == keyed(assets@),
            keyed(r@) == net_assets_series(ka.take(i as int), keyed(liabilities@)),
        decreases assets@.len() - i,
    {
        assert(ka.take(i + 1).drop_last() =~= ka.take(i as int));
        assert(ka.take(i + 1).last() == ka[i as int]);
        match find_year(liabilities, assets[i].0.as_str()) {
            Some(l) => {
                let a = assets[i].1;
                let diff: i128 = a as i128 - l as i128;
                let v: i64 = if diff > i64::MAX as i128 {
                    i64::MAX
                } else if diff < i64::MIN as i128 {
                    i64::MIN
                } else {
                    diff as i64
                };
                let ghost old_r = keyed(r@);
                r.push((assets[i].0.clone(), v));
                assert(keyed(r@) =~= old_r.push((ka[i as int].0, saturate(a - l))));
            },
            None => {},
        }
        i = i + 1;
    }
    assert(ka.take(i as int) =~= ka);
    r
}

/// What a company facts document holds, read as JSON: `None` where the text is
/// not JSON; else its `facts.us-gaap` member, `None` where that is no object,
/// else each of its concepts in key order, with the array of `units.USD` where
/// there is one, each record with its `form`, `fp` and `end` where they are
/// strings and `val` where it is an `i64`.
pub uninterp spec fn facts_json(text: Seq<char>) -> Option<Option<Seq<ConceptView>>>;

pub open spec fn found_concepts_view(r: Option<Option<Vec<Concept>>>) -> Option<Option<Seq<ConceptView>>> {
    match r {
        Some(Some(cs)) => Some(Some(concepts_view(cs@))),
        Some(None) => Some(None),
        None => None,
    }
}

/// `serde_json::from_str` into a `serde_json::Value`, then its fields picked
/// out (`Index` by key, `as_object`, `as_array`, `as_str`, `as_i64`).
/// Claimed: the result is `facts_json` of the text.
#[verifier::external_body]
fn read_company_facts(text: &str) -> (r: Option<Option<Vec<Concept>>>)
    ensures
        found_concepts_view(r) == facts_json(text@),
{
    let v: serde_json::Value = serde_json::from_str(text).ok()?;
    Some(v["facts"]["us-gaap"].as_object().map(|m| m.iter().map(|(name, c)| Concept {
        name: name.clone(),
        usd: c["units"]["USD"].as_array().map(|a| a.iter().map(|f| FactRecord {
            form: f["form"].as_str().map(|x| x.to_string()),
            fp: f["fp"].as_str().map(|x| x.to_string()),
            end: f["end"].as_str().map(|x| x.to_string()),
            val: f["val"].as_i64(),
        }).collect()),
    }).collect()))
}

/// The concepts that a company facts text gives: none where its `us-gaap`
/// member is missing or no object.
pub open spec fn text_concepts(f: Option<Seq<ConceptView>>) -> Seq<ConceptView> {
    match f {
        Some(cs) => cs,
        None => seq![],
    }
}

/// The series of `d` are those of the concepts `cs`: each item takes the
/// concept with the most recent data among those that report it; where no
/// concept reports equity, it is assets less liabilities.
pub open spec fn series_of_concepts(d: Data, cs: Seq<ConceptView>) -> bool {
    &&& keyed(d.revenues@) == chosen_series(cs, revenue_concepts())
    &&& keyed(d.netincomeloss@) == chosen_series(cs, net_income_concepts())
    &&& keyed(d.operatingincomeloss@) == chosen_series(cs, operating_income_concepts())
    &&& keyed(d.assets@) == chosen_series(cs, asset_concepts())
    &&& keyed(d.liabilities@) == chosen_series(cs, liability_concepts())
    &&& keyed(d.stockholdersequity@) == (if chosen_series(cs, equity_concepts()).len() == 0 {
        net_assets_series(chosen_series(cs, asset_concepts()), chosen_series(cs, liability_concepts()))
    } else {
        chosen_series(cs, equity_concepts())
    })
}

impl Data {
    /// The series of a company from the text of its company facts; `None`
    /// where the text is not JSON.
    pub fn from_facts_text(text: &str) -> (r: Option<Data>)
        ensures
            r is None <==> facts_json(text@) is None,
            r matches Some(d) ==> series_of_concepts(d, text_concepts(facts_json(text@)->0)),
    {
        match read_company_facts(text) {
            None => None,
            Some(Some(cs)) => Some(Data::new(&cs)),
            Some(None) => {
                let cs: Vec<Concept> = Vec::new();
                assert(concepts_view(cs@) =~= seq![]);
                Some(Data::new(&cs))
            },
        }
    }

    /// The series of a company from its US-GAAP concepts. Each item takes the
    /// concept with the most recent data among those that report it; where no
    /// concept reports equity, it is assets less liabilities.
    pub fn new(concepts: &Vec<Concept>) -> (d: Data)
        ensures
            series_of_concepts(d, concepts_view(concepts@)),
    {
        let revenue_keys = vec![
            "Revenues",
            "RevenueFromContractWithCustomerExcludingAssessedTax",
            "SalesRevenueNet",
        ];
        assert(str_views(revenue_keys@) =~= revenue_concepts());
        let net_keys = vec!["NetIncomeLoss", "NetIncomeLossAvailableToCommonStockholdersBasic"];
        assert(str_views(net_keys@) =~= net_income_concepts());
        let op_keys = vec!["OperatingIncomeLoss", "OperatingLoss"];
        assert(str_views(op_keys@) =~= operating_income_concepts());
        let asset_keys = vec!["Assets"];
        assert(str_views(asset_keys@) =~= asset_concepts());
        let liability_keys = vec!["Liabilities", "LiabilitiesCurrent"];
        assert(str_views(liability_keys@) =~= liability_concepts());
        let equity_keys = vec!["StockholdersEquity"];
        assert(str_views(equity_keys@) =~= equity_concepts());
        let assets = choose_series(concepts, &asset_keys);
        let liabilities = choose_series(concepts, &liability_keys);
        let equity = choose_series(concepts, &equity_keys);
        let stockholdersequity = if equity.len() == 0 {
            net_assets(&assets, &liabilities)
        } else {
            equity
        };
        Data {
            netincomeloss: choose_series(concepts, &net_keys),
            assets,
            stockholdersequity,
            revenues: choose_series(concepts, &revenue_keys),
            operatingincomeloss: choose_series(concepts, &op_keys),
            liabilities,
        }
    }
}

} // verus!

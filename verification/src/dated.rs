//! Series of dated values: the year of a date, and stable sorting by date.

use vstd::prelude::*;
use vstd::utf8::{decode_utf8, encode_utf8_decode_utf8, is_char_boundary};
use crate::text::{str_lt, text_lt, utf8_bytes, lemma_str_order};

verus! {

/// A date long enough to have a year: at least four bytes.
pub open spec fn has_year(d: Seq<char>) -> bool {
    utf8_bytes(d).len() >= 4
}

/// The year of a date: its first four bytes (`&date[..4]`).
pub open spec fn year_bytes(d: Seq<char>) -> Seq<u8> {
    utf8_bytes(d).take(4)
}

/// The year of a date as text.
pub open spec fn year_of(d: Seq<char>) -> Seq<char> {
    decode_utf8(year_bytes(d))
}

/// Slicing the year off the date does not split a character (else `&date[..4]`
/// panics).
pub open spec fn year_sliceable(d: Seq<char>) -> bool {
    has_year(d) ==> is_char_boundary(utf8_bytes(d), 4)
}

/// The year of a date, where it has one.
pub fn year_prefix(d: &str) -> (r: Option<String>)
    requires
        year_sliceable(d@),
    ensures
        r is Some == has_year(d@),
        r matches Some(y) ==> y@ == year_of(d@) && utf8_bytes(y@) == year_bytes(d@),
{
    let db = d.as_bytes();
    if db.len() < 4 {
        return None;
    }
    let (y, _) = d.split_at(4);
    proof {
        encode_utf8_decode_utf8(y@);
    }
    let s = y.to_owned();
    Some(s)
}

/// Whether date `d` falls in year `y`: it has a year, and its first four
/// bytes are those of `y`.
pub fn in_year(d: &str, y: &str) -> (r: bool)
    ensures
        r == (has_year(d@) && year_bytes(d@) == utf8_bytes(y@)),
{
    let db = d.as_bytes();
    let yb = y.as_bytes();
    if db.len() < 4 || yb.len() != 4 {
        return false;
    }
    let r = db[0] == yb[0] && db[1] == yb[1] && db[2] == yb[2] && db[3] == yb[3];
    proof {
        if r {
            assert(year_bytes(d@) =~= utf8_bytes(y@));
        } else {
            assert(year_bytes(d@) != utf8_bytes(y@)) by {
                if db[0] != yb[0] {
                    assert(year_bytes(d@)[0] != utf8_bytes(y@)[0]);
                } else if db[1] != yb[1] {
                    assert(year_bytes(d@)[1] != utf8_bytes(y@)[1]);
                } else if db[2] != yb[2] {
                    assert(year_bytes(d@)[2] != utf8_bytes(y@)[2]);
                } else {
                    assert(year_bytes(d@)[3] != utf8_bytes(y@)[3]);
                }
            }
        }
    }
    r
}

/// A dated series by the views of its dates.
pub open spec fn keyed<V>(s: Seq<(String, V)>) -> Seq<(Seq<char>, V)> {
    s.map_values(|e: (String, V)| (e.0@, e.1))
}

/// `e` inserted into `r` after every entry whose date is not later: a step
/// of stable sorting by date, oldest first.
pub open spec fn insert_asc<V>(r: Seq<(Seq<char>, V)>, e: (Seq<char>, V)) -> Seq<(Seq<char>, V)>
    decreases r.len(),
{
    if r.len() == 0 {
        seq![e]
    } else if str_lt(e.0, r[0].0) {
        seq![e] + r
    } else {
        seq![r[0]] + insert_asc(r.drop_first(), e)
    }
}

/// `e` inserted into `r` after every entry whose date is not earlier: a step
/// of stable sorting by date, latest first.
pub open spec fn insert_desc<V>(r: Seq<(Seq<char>, V)>, e: (Seq<char>, V)) -> Seq<(Seq<char>, V)>
    decreases r.len(),
{
    if r.len() == 0 {
        seq![e]
    } else if str_lt(r[0].0, e.0) {
        seq![e] + r
    } else {
        seq![r[0]] + insert_desc(r.drop_first(), e)
    }
}

/// `s` sorted by date, oldest first, entries of equal date in their order in
/// `s` (`sort_by(|a, b| a.0.cmp(&b.0))`).
pub open spec fn sorted_asc<V>(s: Seq<(Seq<char>, V)>) -> Seq<(Seq<char>, V)>
    decreases s.len(),
{
    if s.len() == 0 {
        s
    } else {
        insert_asc(sorted_asc(s.drop_last()), s.last())
    }
}

/// `s` sorted by date, latest first, entries of equal date in their order in
/// `s` (`sort_by(|a, b| b.0.cmp(&a.0))`).
pub open spec fn sorted_desc<V>(s: Seq<(Seq<char>, V)>) -> Seq<(Seq<char>, V)>
    decreases s.len(),
{
    if s.len() == 0 {
        s
    } else {
        insert_desc(sorted_desc(s.drop_last()), s.last())
    }
}

proof fn lemma_insert_asc_at<V>(r: Seq<(Seq<char>, V)>, e: (Seq<char>, V), p: int)
    requires
        0 <= p <= r.len(),
        forall|k: int| 0 <= k < p ==> !str_lt(e.0, #[trigger] r[k].0),
        p < r.len() ==> str_lt(e.0, r[p].0),
    ensures
        insert_asc(r, e) == r.take(p) + seq![e] + r.skip(p),
    decreases r.len(),
{
    if r.len() == 0 {
        assert(r.take(p) + seq![e] + r.skip(p) =~= seq![e]);
    } else if p == 0 {
        assert(r.take(0) + seq![e] + r.skip(0) =~= seq![e] + r);
    } else {
        let t = r.drop_first();
        assert forall|k: int| 0 <= k < p - 1 implies !str_lt(e.0, #[trigger] t[k].0) by {
            assert(t[k] == r[k + 1]);
        }
        lemma_insert_asc_at(t, e, p - 1);
        assert(r.take(p) + seq![e] + r.skip(p) =~= seq![r[0]] + (t.take(p - 1) + seq![e] + t.skip(
            p - 1,
        )));
    }
}

proof fn lemma_insert_desc_at<V>(r: Seq<(Seq<char>, V)>, e: (Seq<char>, V), p: int)
    requires
        0 <= p <= r.len(),
        forall|k: int| 0 <= k < p ==> !str_lt(#[trigger] r[k].0, e.0),
        p < r.len() ==> str_lt(r[p].0, e.0),
    ensures
        insert_desc(r, e) == r.take(p) + seq![e] + r.skip(p),
    decreases r.len(),
{
    if r.len() == 0 {
        assert(r.take(p) + seq![e] + r.skip(p) =~= seq![e]);
    } else if p == 0 {
        assert(r.take(0) + seq![e] + r.skip(0) =~= seq![e] + r);
    } else {
        let t = r.drop_first();
        assert forall|k: int| 0 <= k < p - 1 implies !str_lt(#[trigger] t[k].0, e.0) by {
            assert(t[k] == r[k + 1]);
        }
        lemma_insert_desc_at(t, e, p - 1);
        assert(r.take(p) + seq![e] + r.skip(p) =~= seq![r[0]] + (t.take(p - 1) + seq![e] + t.skip(
            p - 1,
        )));
    }
}

/// The entries of `v` stably sorted by date, oldest first.
pub fn sort_by_date_asc<V>(v: Vec<(String, V)>) -> (r: Vec<(String, V)>)
    ensures
        keyed(r@) == sorted_asc(keyed(v@)),
{
    let ghost orig = keyed(v@);
    let mut v = v;
    let mut r: Vec<(String, V)> = Vec::new();
    let mut i: usize = 0;
    assert(orig.len() == v.len());
    assert(keyed(v@).skip(0) =~= orig);
    while v.len() > 0
        invariant
            i + v@.len() == orig.len(),
            orig.len() <= usize::MAX,
            keyed(v@) == orig.skip(i as int),
            keyed(r@) == sorted_asc(orig.take(i as int)),
        decreases v@.len(),
    {
        let ghost before_v = v@;
        let e = v.remove(0);
        let mut p: usize = 0;
        while p < r.len() && !text_lt(e.0.as_str(), r[p].0.as_str())
            invariant
                p <= r@.len(),
                forall|k: int| 0 <= k < p ==> !str_lt(e.0@, #[trigger] r@[k].0@),
            decreases r@.len() - p,
        {
            p = p + 1;
        }
        let ghost ek = (e.0@, e.1);
        proof {
            assert forall|k: int| 0 <= k < p implies #[trigger] keyed(r@)[k].0 == r@[k].0@ by {}
            lemma_insert_asc_at(keyed(r@), ek, p as int);
            assert(orig.take(i + 1).drop_last() =~= orig.take(i as int));
            assert(keyed(before_v)[0] == ek);
            assert(orig[i as int] == orig.skip(i as int)[0]);
            assert(orig.take(i + 1).last() == ek);
        }
        let ghost old_r = r@;
        r.insert(p, e);
        assert(keyed(r@) =~= keyed(old_r).take(p as int) + seq![ek] + keyed(old_r).skip(p as int));
        assert(keyed(r@) =~= sorted_asc(orig.take(i + 1)));
        i = i + 1;
        assert(keyed(v@) =~= keyed(before_v).drop_first());
        assert(keyed(v@) =~= orig.skip(i as int));
    }
    assert(orig.take(i as int) =~= orig);
    r
}

/// The entries of `v` stably sorted by date, latest first.
pub fn sort_by_date_desc<V>(v: Vec<(String, V)>) -> (r: Vec<(String, V)>)
    ensures
        keyed(r@) == sorted_desc(keyed(v@)),
{
    let ghost orig = keyed(v@);
    let mut v = v;
    let mut r: Vec<(String, V)> = Vec::new();
    let mut i: usize = 0;
    assert(orig.len() == v.len());
    assert(keyed(v@).skip(0) =~= orig);
    while v.len() > 0
        invariant
            i + v@.len() == orig.len(),
            orig.len() <= usize::MAX,
            keyed(v@) == orig.skip(i as int),
            keyed(r@) == sorted_desc(orig.take(i as int)),
        decreases v@.len(),
    {
        let ghost before_v = v@;
        let e = v.remove(0);
        let mut p: usize = 0;
        while p < r.len() && !text_lt(r[p].0.as_str(), e.0.as_str())
            invariant
                p <= r@.len(),
                forall|k: int| 0 <= k < p ==> !str_lt(#[trigger] r@[k].0@, e.0@),
            decreases r@.len() - p,
        {
            p = p + 1;
        }
        let ghost ek = (e.0@, e.1);
        proof {
            assert forall|k: int| 0 <= k < p implies #[trigger] keyed(r@)[k].0 == r@[k].0@ by {}
            lemma_insert_desc_at(keyed(r@), ek, p as int);
            assert(orig.take(i + 1).drop_last() =~= orig.take(i as int));
            assert(keyed(before_v)[0] == ek);
            assert(orig[i as int] == orig.skip(i as int)[0]);
            assert(orig.take(i + 1).last() == ek);
        }
        let ghost old_r = r@;
        r.insert(p, e);
        assert(keyed(r@) =~= keyed(old_r).take(p as int) + seq![ek] + keyed(old_r).skip(p as int));
        assert(keyed(r@) =~= sorted_desc(orig.take(i + 1)));
        i = i + 1;
        assert(keyed(v@) =~= keyed(before_v).drop_first());
        assert(keyed(v@) =~= orig.skip(i as int));
    }
    assert(orig.take(i as int) =~= orig);
    r
}


/// Whether two dates have the same year (both have one, with the same four
/// first bytes).
pub fn same_year(a: &str, b: &str) -> (r: bool)
    ensures
        r == (has_year(a@) && has_year(b@) && year_bytes(a@) == year_bytes(b@)),
{
    let ab = a.as_bytes();
    let bb = b.as_bytes();
    if ab.len() < 4 || bb.len() < 4 {
        return false;
    }
    let r = ab[0] == bb[0] && ab[1] == bb[1] && ab[2] == bb[2] && ab[3] == bb[3];
    proof {
        if r {
            assert(year_bytes(a@) =~= year_bytes(b@));
        } else {
            assert(year_bytes(a@) != year_bytes(b@)) by {
                if ab[0] != bb[0] {
                    assert(year_bytes(a@)[0] != year_bytes(b@)[0]);
                } else if ab[1] != bb[1] {
                    assert(year_bytes(a@)[1] != year_bytes(b@)[1]);
                } else if ab[2] != bb[2] {
                    assert(year_bytes(a@)[2] != year_bytes(b@)[2]);
                } else {
                    assert(year_bytes(a@)[3] != year_bytes(b@)[3]);
                }
            }
        }
    }
    r
}


proof fn lemma_insert_asc_multiset<V>(r: Seq<(Seq<char>, V)>, e: (Seq<char>, V))
    ensures
        insert_asc(r, e).to_multiset() =~= r.to_multiset().insert(e),
    decreases r.len(),
{
    broadcast use vstd::seq_lib::group_to_multiset_ensures;
    broadcast use vstd::multiset::group_multiset_axioms;

    if r.len() == 0 {
        assert(insert_asc(r, e) =~= r.push(e));
    } else {
        let d = r.drop_first();
        assert(r =~= seq![r[0]] + d);
        vstd::seq_lib::lemma_multiset_commutative(seq![r[0]], d);
        assert(seq![r[0]] =~= Seq::<(Seq<char>, V)>::empty().push(r[0]));
        assert(seq![e] =~= Seq::<(Seq<char>, V)>::empty().push(e));
        if str_lt(e.0, r[0].0) {
            vstd::seq_lib::lemma_multiset_commutative(seq![e], r);
        } else {
            lemma_insert_asc_multiset(d, e);
            vstd::seq_lib::lemma_multiset_commutative(seq![r[0]], insert_asc(d, e));
        }
    }
}

/// Sorting keeps the entries: the sorted series holds the same entries as
/// the series, as many times each.
pub proof fn lemma_sorted_asc_members<V>(s: Seq<(Seq<char>, V)>)
    ensures
        sorted_asc(s).to_multiset() =~= s.to_multiset(),
        sorted_asc(s).len() == s.len(),
        forall|x: (Seq<char>, V)| #[trigger] sorted_asc(s).contains(x) <==> s.contains(x),
    decreases s.len(),
{
    broadcast use vstd::seq_lib::group_to_multiset_ensures;

    if s.len() > 0 {
        let d = s.drop_last();
        lemma_sorted_asc_members(d);
        lemma_insert_asc_multiset(sorted_asc(d), s.last());
        assert(s =~= d.push(s.last()));
    }
    assert(sorted_asc(s).to_multiset().len() == s.to_multiset().len());
    assert forall|x: (Seq<char>, V)| #[trigger] sorted_asc(s).contains(x) <==> s.contains(x) by {
        assert(sorted_asc(s).contains(x) <==> sorted_asc(s).to_multiset().count(x) > 0);
        assert(s.contains(x) <==> s.to_multiset().count(x) > 0);
    }
}


/// Dates never go down along the series.
pub open spec fn dates_ascending<V>(s: Seq<(Seq<char>, V)>) -> bool {
    forall|i: int, j: int|
        #![trigger s[i], s[j]]
        0 <= i < j < s.len() ==> !str_lt(s[j].0, s[i].0)
}

/// Dates never go up along the series.
pub open spec fn dates_descending<V>(s: Seq<(Seq<char>, V)>) -> bool {
    forall|i: int, j: int|
        #![trigger s[i], s[j]]
        0 <= i < j < s.len() ==> !str_lt(s[i].0, s[j].0)
}

proof fn lemma_insert_asc_above<V>(r: Seq<(Seq<char>, V)>, e: (Seq<char>, V), x: Seq<char>)
    requires
        forall|k: int| 0 <= k < r.len() ==> !str_lt(#[trigger] r[k].0, x),
        !str_lt(e.0, x),
    ensures
        insert_asc(r, e).len() == r.len() + 1,
        forall|k: int| 0 <= k < insert_asc(r, e).len() ==> !str_lt(#[trigger] insert_asc(r, e)[k].0, x),
    decreases r.len(),
{
    if r.len() > 0 && !str_lt(e.0, r[0].0) {
        let t = r.drop_first();
        lemma_insert_asc_above(t, e, x);
        assert forall|k: int| 0 <= k < insert_asc(r, e).len() implies !str_lt(
            #[trigger] insert_asc(r, e)[k].0,
            x,
        ) by {
            if k > 0 {
                assert(insert_asc(r, e)[k] == insert_asc(t, e)[k - 1]);
            }
        }
    } else if r.len() > 0 {
        assert forall|k: int| 0 <= k < insert_asc(r, e).len() implies !str_lt(
            #[trigger] insert_asc(r, e)[k].0,
            x,
        ) by {
            if k > 0 {
                assert(insert_asc(r, e)[k] == r[k - 1]);
            }
        }
    }
}

proof fn lemma_insert_asc_ascending<V>(r: Seq<(Seq<char>, V)>, e: (Seq<char>, V))
    requires
        dates_ascending(r),
    ensures
        dates_ascending(insert_asc(r, e)),
    decreases r.len(),
{
    if r.len() == 0 {
    } else if str_lt(e.0, r[0].0) {
        let n = insert_asc(r, e);
        assert forall|i: int, j: int| 0 <= i < j < n.len() implies !str_lt(
            #[trigger] n[j].0,
            #[trigger] n[i].0,
        ) by {
            assert(n[j] == r[j - 1]);
            if i == 0 {
                lemma_str_order(r[j - 1].0, e.0, r[0].0);
                if j - 1 > 0 {
                    assert(!str_lt(r[j - 1].0, r[0].0));
                }
            } else {
                assert(n[i] == r[i - 1]);
            }
        }
    } else {
        let t = r.drop_first();
        assert(dates_ascending(t)) by {
            assert forall|i: int, j: int| 0 <= i < j < t.len() implies !str_lt(
                #[trigger] t[j].0,
                #[trigger] t[i].0,
            ) by {
                assert(t[i] == r[i + 1] && t[j] == r[j + 1]);
            }
        }
        lemma_insert_asc_ascending(t, e);
        assert forall|k: int| 0 <= k < t.len() implies !str_lt(#[trigger] t[k].0, r[0].0) by {
            assert(t[k] == r[k + 1]);
        }
        lemma_str_order(e.0, r[0].0, e.0);
        lemma_insert_asc_above(t, e, r[0].0);
        let n = insert_asc(r, e);
        let m = insert_asc(t, e);
        assert forall|i: int, j: int| 0 <= i < j < n.len() implies !str_lt(
            #[trigger] n[j].0,
            #[trigger] n[i].0,
        ) by {
            assert(n[j] == m[j - 1]);
            if i > 0 {
                assert(n[i] == m[i - 1]);
            }
        }
    }
}

/// Sorting puts the dates in order: along the sorted series they never go
/// down.
pub proof fn lemma_sorted_asc_ascending<V>(s: Seq<(Seq<char>, V)>)
    ensures
        dates_ascending(sorted_asc(s)),
    decreases s.len(),
{
    if s.len() > 0 {
        lemma_sorted_asc_ascending(s.drop_last());
        lemma_insert_asc_ascending(sorted_asc(s.drop_last()), s.last());
    }
}

proof fn lemma_insert_desc_below<V>(r: Seq<(Seq<char>, V)>, e: (Seq<char>, V), x: Seq<char>)
    requires
        forall|k: int| 0 <= k < r.len() ==> !str_lt(x, #[trigger] r[k].0),
        !str_lt(x, e.0),
    ensures
        insert_desc(r, e).len() == r.len() + 1,
        forall|k: int| 0 <= k < insert_desc(r, e).len() ==> !str_lt(x, #[trigger] insert_desc(r, e)[k].0),
    decreases r.len(),
{
    if r.len() > 0 && !str_lt(r[0].0, e.0) {
        let t = r.drop_first();
        lemma_insert_desc_below(t, e, x);
        assert forall|k: int| 0 <= k < insert_desc(r, e).len() implies !str_lt(
            x,
            #[trigger] insert_desc(r, e)[k].0,
        ) by {
            if k > 0 {
                assert(insert_desc(r, e)[k] == insert_desc(t, e)[k - 1]);
            }
        }
    } else if r.len() > 0 {
        assert forall|k: int| 0 <= k < insert_desc(r, e).len() implies !str_lt(
            x,
            #[trigger] insert_desc(r, e)[k].0,
        ) by {
            if k > 0 {
                assert(insert_desc(r, e)[k] == r[k - 1]);
            }
        }
    }
}

proof fn lemma_insert_desc_descending<V>(r: Seq<(Seq<char>, V)>, e: (Seq<char>, V))
    requires
        dates_descending(r),
    ensures
        dates_descending(insert_desc(r, e)),
    decreases r.len(),
{
    if r.len() == 0 {
    } else if str_lt(r[0].0, e.0) {
        let n = insert_desc(r, e);
        assert forall|i: int, j: int| 0 <= i < j < n.len() implies !str_lt(
            #[trigger] n[i].0,
            #[trigger] n[j].0,
        ) by {
            assert(n[j] == r[j - 1]);
            if i == 0 {
                lemma_str_order(r[0].0, e.0, r[j - 1].0);
                lemma_str_order(e.0, r[j - 1].0, r[0].0);
                if j - 1 > 0 {
                    assert(!str_lt(r[0].0, r[j - 1].0));
                }
            } else {
                assert(n[i] == r[i - 1]);
            }
        }
    } else {
        let t = r.drop_first();
        assert(dates_descending(t)) by {
            assert forall|i: int, j: int| 0 <= i < j < t.len() implies !str_lt(
                #[trigger] t[i].0,
                #[trigger] t[j].0,
            ) by {
                assert(t[i] == r[i + 1] && t[j] == r[j + 1]);
            }
        }
        lemma_insert_desc_descending(t, e);
        assert forall|k: int| 0 <= k < t.len() implies !str_lt(r[0].0, #[trigger] t[k].0) by {
            assert(t[k] == r[k + 1]);
        }
        lemma_insert_desc_below(t, e, r[0].0);
        let n = insert_desc(r, e);
        let m = insert_desc(t, e);
        assert forall|i: int, j: int| 0 <= i < j < n.len() implies !str_lt(
            #[trigger] n[i].0,
            #[trigger] n[j].0,
        ) by {
            assert(n[j] == m[j - 1]);
            if i > 0 {
                assert(n[i] == m[i - 1]);
            }
        }
    }
}

/// Sorting latest first puts the dates in order: along the sorted series they
/// never go up.
pub proof fn lemma_sorted_desc_descending<V>(s: Seq<(Seq<char>, V)>)
    ensures
        dates_descending(sorted_desc(s)),
    decreases s.len(),
{
    if s.len() > 0 {
        lemma_sorted_desc_descending(s.drop_last());
        lemma_insert_desc_descending(sorted_desc(s.drop_last()), s.last());
    }
}

proof fn lemma_insert_desc_multiset<V>(r: Seq<(Seq<char>, V)>, e: (Seq<char>, V))
    ensures
        insert_desc(r, e).to_multiset() =~= r.to_multiset().insert(e),
    decreases r.len(),
{
    broadcast use vstd::seq_lib::group_to_multiset_ensures;
    broadcast use vstd::multiset::group_multiset_axioms;

    if r.len() == 0 {
        assert(insert_desc(r, e) =~= r.push(e));
    } else {
        let d = r.drop_first();
        assert(r =~= seq![r[0]] + d);
        vstd::seq_lib::lemma_multiset_commutative(seq![r[0]], d);
        assert(seq![r[0]] =~= Seq::<(Seq<char>, V)>::empty().push(r[0]));
        assert(seq![e] =~= Seq::<(Seq<char>, V)>::empty().push(e));
        if str_lt(r[0].0, e.0) {
            vstd::seq_lib::lemma_multiset_commutative(seq![e], r);
        } else {
            lemma_insert_desc_multiset(d, e);
            vstd::seq_lib::lemma_multiset_commutative(seq![r[0]], insert_desc(d, e));
        }
    }
}

/// Sorting latest first keeps the entries, as many times each.
pub proof fn lemma_sorted_desc_members<V>(s: Seq<(Seq<char>, V)>)
    ensures
        sorted_desc(s).to_multiset() =~= s.to_multiset(),
        sorted_desc(s).len() == s.len(),
        forall|x: (Seq<char>, V)| #[trigger] sorted_desc(s).contains(x) <==> s.contains(x),
    decreases s.len(),
{
    broadcast use vstd::seq_lib::group_to_multiset_ensures;

    if s.len() > 0 {
        let d = s.drop_last();
        lemma_sorted_desc_members(d);
        lemma_insert_desc_multiset(sorted_desc(d), s.last());
        assert(s =~= d.push(s.last()));
    }
    assert(sorted_desc(s).to_multiset().len() == s.to_multiset().len());
    assert forall|x: (Seq<char>, V)| #[trigger] sorted_desc(s).contains(x) <==> s.contains(x) by {
        assert(sorted_desc(s).contains(x) <==> sorted_desc(s).to_multiset().count(x) > 0);
        assert(s.contains(x) <==> s.to_multiset().count(x) > 0);
    }
}

/// No two entries share a date.
pub open spec fn distinct_dates<V>(s: Seq<(Seq<char>, V)>) -> bool {
    forall|i: int, j: int| #![trigger s[i], s[j]] 0 <= i < j < s.len() ==> s[i].0 != s[j].0
}

proof fn lemma_insert_desc_split<V>(r: Seq<(Seq<char>, V)>, e: (Seq<char>, V)) -> (p: int)
    ensures
        0 <= p <= r.len(),
        insert_desc(r, e) == r.take(p) + seq![e] + r.skip(p),
    decreases r.len(),
{
    if r.len() == 0 || str_lt(r[0].0, e.0) {
        assert(r.take(0) + seq![e] + r.skip(0) =~= seq![e] + r);
        0
    } else {
        let t = r.drop_first();
        let q = lemma_insert_desc_split(t, e);
        assert(r.take(q + 1) + seq![e] + r.skip(q + 1) =~= seq![r[0]] + (t.take(q) + seq![e] + t.skip(q)));
        q + 1
    }
}

/// Sorting latest first keeps dates apart that were apart.
pub proof fn lemma_sorted_desc_distinct<V>(s: Seq<(Seq<char>, V)>)
    requires
        distinct_dates(s),
    ensures
        distinct_dates(sorted_desc(s)),
    decreases s.len(),
{
    if s.len() > 0 {
        let d = s.drop_last();
        assert(distinct_dates(d)) by {
            assert forall|i: int, j: int| 0 <= i < j < d.len() implies #[trigger] d[i].0 != #[trigger] d[j].0 by {
                assert(d[i] == s[i] && d[j] == s[j]);
            }
        }
        lemma_sorted_desc_distinct(d);
        lemma_sorted_desc_members(d);
        let r = sorted_desc(d);
        let e = s.last();
        let p = lemma_insert_desc_split(r, e);
        let n = sorted_desc(s);
        assert forall|k: int| 0 <= k < r.len() implies #[trigger] r[k].0 != e.0 by {
            assert(r.contains(r[k]));
            let w = choose|w: int| 0 <= w < d.len() && d[w] == r[k];
            assert(s[w] == d[w]);
            assert(s[s.len() - 1] == e);
        }
        assert forall|i: int, j: int| 0 <= i < j < n.len() implies #[trigger] n[i].0 != #[trigger] n[j].0 by {
            if i < p {
                assert(n[i] == r[i]);
            } else if i > p {
                assert(n[i] == r[i - 1]);
            }
            if j < p {
                assert(n[j] == r[j]);
            } else if j > p {
                assert(n[j] == r[j - 1]);
            }
        }
    }
}

} // verus!

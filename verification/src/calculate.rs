//! The table of figures and ratios: which values are paired by year, how the
//! series are grouped by year, and how an amount is written.

use vstd::prelude::*;
use crate::dated::{
    dates_ascending, has_year, in_year, keyed, lemma_sorted_asc_ascending, lemma_sorted_asc_members,
    sort_by_date_asc, sorted_asc, year_bytes, year_of, year_prefix, year_sliceable,
};
use crate::parse::dedup_dates;
use vstd::utf8::{decode_utf8_encode_utf8, encode_utf8_valid_utf8, valid_utf8_split};
use crate::text::{spelled_int, all_digits, chars_of, decimal, digit_char, digits_value, group_thousands, is_digit, lemma_lex_total, lemma_str_order, lex_lt, str_lt, grouped, push_decimal, string_of, text_eq, utf8_bytes};

verus! {

/// Every date of a series can have its year sliced off.
pub open spec fn years_sliceable(s: Seq<(Seq<char>, i64)>) -> bool {
    forall|i: int| 0 <= i < s.len() ==> year_sliceable(#[trigger] s[i].0)
}

proof fn lemma_sorted_asc_keeps_keys(s: Seq<(Seq<char>, i64)>)
    requires
        years_sliceable(s),
    ensures
        years_sliceable(sorted_asc(s)),
{
    lemma_sorted_asc_members(s);
    assert forall|i: int| 0 <= i < sorted_asc(s).len() implies year_sliceable(
        #[trigger] sorted_asc(s)[i].0,
    ) by {
        assert(sorted_asc(s).contains(sorted_asc(s)[i]));
        let k = choose|k: int| 0 <= k < s.len() && s[k] == sorted_asc(s)[i];
        assert(year_sliceable(s[k].0));
    }
}

/// The first entry of `other` that falls in the year with bytes `y`.
pub open spec fn first_in_year(other: Seq<(Seq<char>, i64)>, y: Seq<u8>) -> Option<int>
    decreases other.len(),
{
    if other.len() == 0 {
        None
    } else {
        match first_in_year(other.drop_last(), y) {
            Some(j) => Some(j),
            None => if has_year(other.last().0) && year_bytes(other.last().0) == y {
                Some(other.len() - 1)
            } else {
                None
            },
        }
    }
}

/// For each entry of `base` in order whose year some entry of `other` shares:
/// (year, base value, value of the first such entry of `other`).
pub open spec fn matched_years(base: Seq<(Seq<char>, i64)>, other: Seq<(Seq<char>, i64)>) -> Seq<
    (Seq<char>, i64, i64),
>
    decreases base.len(),
{
    if base.len() == 0 {
        seq![]
    } else {
        let r = matched_years(base.drop_last(), other);
        let (d, v) = base.last();
        if has_year(d) {
            match first_in_year(other, year_bytes(d)) {
                Some(j) => r.push((year_of(d), v, other[j].1)),
                None => r,
            }
        } else {
            r
        }
    }
}

pub open spec fn triples_view(s: Seq<(String, i64, i64)>) -> Seq<(Seq<char>, i64, i64)> {
    s.map_values(|e: (String, i64, i64)| (e.0@, e.1, e.2))
}

fn find_in_year(other: &Vec<(String, i64)>, y: &str) -> (r: Option<usize>)
    ensures
        r matches Some(j) ==> j < other@.len(),
        (match r {
            Some(j) => Some(j as int),
            None => None,
        }) == first_in_year(keyed(other@), utf8_bytes(y@)),
{
    let ghost ko = keyed(other@);
    let mut j: usize = 0;
    while j < other.len()
        invariant
            j <= other@.len(),
            ko == keyed(other@),
            first_in_year(ko.take(j as int), utf8_bytes(y@)) is None,
        decreases other@.len() - j,
    {
        assert(ko.take(j + 1).drop_last() =~= ko.take(j as int));
        if in_year(other[j].0.as_str(), y) {
            proof {
                lemma_first_in_year_prefix(ko, utf8_bytes(y@), j + 1);
            }
            return Some(j);
        }
        j = j + 1;
    }
    assert(ko.take(j as int) =~= ko);
    None
}

proof fn lemma_first_in_year_prefix(o: Seq<(Seq<char>, i64)>, y: Seq<u8>, n: int)
    requires
        0 < n <= o.len(),
        first_in_year(o.take(n), y) == Some(n - 1),
    ensures
        first_in_year(o, y) == Some(n - 1),
    decreases o.len() - n,
{
    if n < o.len() {
        assert(o.drop_last().take(n) =~= o.take(n));
        if n < o.len() - 1 {
            lemma_first_in_year_prefix(o.drop_last(), y, n);
        } else {
            assert(o.drop_last() =~= o.take(n));
        }
    } else {
        assert(o.take(n) =~= o);
    }
}

/// Entry `j` of `o` is the first one in the year with bytes `y`.
pub open spec fn first_of_year(o: Seq<(Seq<char>, i64)>, j: int, y: Seq<u8>) -> bool {
    &&& 0 <= j < o.len()
    &&& has_year(o[j].0) && year_bytes(o[j].0) == y
    &&& forall|k: int| 0 <= k < j ==> !(has_year((#[trigger] o[k]).0) && year_bytes(o[k].0) == y)
}

proof fn lemma_first_in_year(o: Seq<(Seq<char>, i64)>, y: Seq<u8>)
    ensures
        first_in_year(o, y) matches Some(j) ==> first_of_year(o, j, y),
        first_in_year(o, y) is None ==> forall|k: int|
            0 <= k < o.len() ==> !(has_year((#[trigger] o[k]).0) && year_bytes(o[k].0) == y),
    decreases o.len(),
{
    if o.len() > 0 {
        let p = o.drop_last();
        lemma_first_in_year(p, y);
        assert forall|k: int| 0 <= k < p.len() implies #[trigger] p[k] == o[k] by {}
        if first_in_year(o, y) is None {
            assert forall|k: int| 0 <= k < o.len() implies !(has_year((#[trigger] o[k]).0) && year_bytes(o[k].0) == y) by {
                if k < p.len() {
                    assert(p[k] == o[k]);
                }
            }
        }
        if let Some(j) = first_in_year(o, y) {
            assert forall|k: int| 0 <= k < j implies !(has_year((#[trigger] o[k]).0) && year_bytes(o[k].0) == y) by {
                assert(p[k] == o[k]);
            }
        }
    }
}

/// Pairing by year drops no year: for each entry of `base` whose year some
/// entry of `other` shares, the pairs hold (its year, its value, the value of
/// the first such entry of `other`), whatever the values; they hold nothing
/// else, one pair per such entry of `base`.
pub proof fn lemma_matched_years_every_year(base: Seq<(Seq<char>, i64)>, other: Seq<(Seq<char>, i64)>)
    ensures
        forall|i: int, j: int|
            #![trigger base[i], other[j]]
            0 <= i < base.len() && has_year(base[i].0) && first_of_year(other, j, year_bytes(base[i].0))
                ==> matched_years(base, other).contains((year_of(base[i].0), base[i].1, other[j].1)),
        forall|k: int|
            0 <= k < matched_years(base, other).len() ==> exists|i: int, j: int|
                #![trigger base[i], other[j]]
                0 <= i < base.len() && has_year(base[i].0) && first_of_year(
                    other,
                    j,
                    year_bytes(base[i].0),
                ) && #[trigger] matched_years(base, other)[k] == (year_of(base[i].0), base[i].1, other[j].1),
    decreases base.len(),
{
    if base.len() > 0 {
        let p = base.drop_last();
        lemma_matched_years_every_year(p, other);
        let r = matched_years(p, other);
        let n = matched_years(base, other);
        let last = base.len() - 1;
        let d = base[last].0;
        assert(base.last() == base[last]);
        assert forall|i: int| 0 <= i < p.len() implies #[trigger] p[i] == base[i] by {}
        if has_year(d) {
            lemma_first_in_year(other, year_bytes(d));
        }
        assert forall|i: int, j: int|
            0 <= i < base.len() && has_year(base[i].0) && first_of_year(other, j, year_bytes(base[i].0))
                implies n.contains((year_of(base[i].0), base[i].1, other[j].1)) by {
            if i < p.len() {
                assert(p[i] == base[i]);
                assert(r.contains((year_of(p[i].0), p[i].1, other[j].1)));
                let w = choose|w: int| 0 <= w < r.len() && r[w] == (year_of(p[i].0), p[i].1, other[j].1);
                assert(n[w] == r[w]);
            } else {
                let y = year_bytes(d);
                assert(!(first_in_year(other, y) is None)) by {
                    assert(has_year(other[j].0) && year_bytes(other[j].0) == y);
                }
                let j0 = first_in_year(other, y)->0;
                if j0 < j {
                    assert(has_year(other[j0].0) && year_bytes(other[j0].0) == y);
                } else if j < j0 {
                    assert(has_year(other[j].0) && year_bytes(other[j].0) == y);
                }
                assert(n[r.len() as int] == (year_of(base[i].0), base[i].1, other[j].1));
            }
        }
        assert forall|k: int| 0 <= k < n.len() implies exists|i: int, j: int|
            #![trigger base[i], other[j]]
            0 <= i < base.len() && has_year(base[i].0) && first_of_year(other, j, year_bytes(base[i].0))
                && #[trigger] n[k] == (year_of(base[i].0), base[i].1, other[j].1) by {
            if k < r.len() {
                assert(n[k] == r[k]);
                let (i, j) = choose|i: int, j: int|
                    #![trigger p[i], other[j]]
                    0 <= i < p.len() && has_year(p[i].0) && first_of_year(other, j, year_bytes(p[i].0))
                        && r[k] == (year_of(p[i].0), p[i].1, other[j].1);
                assert(p[i] == base[i]);
            } else {
                let j0 = first_in_year(other, year_bytes(d))->0;
                assert(first_of_year(other, j0, year_bytes(base[last].0)));
            }
        }
    }
}

/// The values of two series paired by year: for each entry of `base` whose
/// year an entry of `other` shares, (year, its value, the value of the first
/// such entry of `other`). A ratio is computed from each pair.
pub fn match_years(base: &Vec<(String, i64)>, other: &Vec<(String, i64)>) -> (r: Vec<
    (String, i64, i64),
>)
    requires
        years_sliceable(keyed(base@)),
    ensures
        triples_view(r@) == matched_years(keyed(base@), keyed(other@)),
{
    let ghost kb = keyed(base@);
    let mut r: Vec<(String, i64, i64)> = Vec::new();
    let mut i: usize = 0;
    while i < base.len()
        invariant
            i <= base@.len(),
            kb == keyed(base@),
            years_sliceable(kb),
            triples_view(r@) == matched_years(kb.take(i as int), keyed(other@)),
        decreases base@.len() - i,
    {
        assert(kb.take(i + 1).drop_last() =~= kb.take(i as int));
        assert(kb.take(i + 1).last() == kb[i as int]);
        assert(year_sliceable(kb[i as int].0));
        match year_prefix(base[i].0.as_str()) {
            Some(yr) => {
                match find_in_year(other, yr.as_str()) {
                    Some(j) => {
                        let ghost old_r = r@;
                        r.push((yr, base[i].1, other[j].1));
                        assert(triples_view(r@) =~= triples_view(old_r).push(
                            (year_of(kb[i as int].0), kb[i as int].1, keyed(other@)[j as int].1),
                        ));
                    },
                    None => {},
                }
            },
            None => {},
        }
        i = i + 1;
    }
    assert(kb.take(i as int) =~= kb);
    r
}

/// A series grouped by year, in order: each run of entries with the same year
/// becomes one entry (year, value of the run's last entry); entries without a
/// year are left out.
pub open spec fn by_year(s: Seq<(Seq<char>, i64)>) -> Seq<(Seq<char>, i64)>
    decreases s.len(),
{
    if s.len() == 0 {
        seq![]
    } else {
        let r = by_year(s.drop_last());
        let (d, v) = s.last();
        if !has_year(d) {
            r
        } else if r.len() > 0 && r.last().0 == year_of(d) {
            r.update(r.len() - 1, (year_of(d), v))
        } else {
            r.push((year_of(d), v))
        }
    }
}

proof fn lemma_lex_prefix(a: Seq<u8>, b: Seq<u8>, n: int)
    requires
        0 <= n <= a.len(),
        n <= b.len(),
        lex_lt(a.take(n), b.take(n)),
    ensures
        lex_lt(a, b),
    decreases n,
{
    if n > 0 {
        assert(a.take(n)[0] == a[0] && b.take(n)[0] == b[0]);
        if a[0] == b[0] {
            assert(a.take(n).drop_first() =~= a.drop_first().take(n - 1));
            assert(b.take(n).drop_first() =~= b.drop_first().take(n - 1));
            lemma_lex_prefix(a.drop_first(), b.drop_first(), n - 1);
        }
    }
}

proof fn lemma_year_text(d: Seq<char>)
    requires
        has_year(d),
        year_sliceable(d),
    ensures
        utf8_bytes(year_of(d)) == year_bytes(d),
{
    encode_utf8_valid_utf8(d);
    valid_utf8_split(utf8_bytes(d), 4);
    assert(utf8_bytes(d).subrange(0, 4) =~= year_bytes(d));
    decode_utf8_encode_utf8(year_bytes(d));
}

/// Of two dates in order, the later one's year is not earlier.
proof fn lemma_year_order(a: Seq<char>, b: Seq<char>)
    requires
        has_year(a),
        has_year(b),
        year_sliceable(a),
        year_sliceable(b),
        !str_lt(b, a),
    ensures
        year_of(a) == year_of(b) || str_lt(year_of(a), year_of(b)),
{
    lemma_year_text(a);
    lemma_year_text(b);
    if lex_lt(year_bytes(b), year_bytes(a)) {
        lemma_lex_prefix(utf8_bytes(b), utf8_bytes(a), 4);
    }
    lemma_lex_total(year_bytes(a), year_bytes(b));
}

proof fn lemma_by_year_increasing(t: Seq<(Seq<char>, i64)>)
    requires
        dates_ascending(t),
        years_sliceable(t),
    ensures
        forall|i: int, j: int|
            #![trigger by_year(t)[i], by_year(t)[j]]
            0 <= i < j < by_year(t).len() ==> str_lt(by_year(t)[i].0, by_year(t)[j].0),
        by_year(t).len() > 0 ==> exists|k: int|
            0 <= k < t.len() && has_year(#[trigger] t[k].0) && by_year(t).last().0 == year_of(t[k].0),
    decreases t.len(),
{
    if t.len() > 0 {
        let p = t.drop_last();
        assert(dates_ascending(p)) by {
            assert forall|i: int, j: int| 0 <= i < j < p.len() implies !str_lt(
                #[trigger] p[j].0,
                #[trigger] p[i].0,
            ) by {
                assert(p[i] == t[i] && p[j] == t[j]);
            }
        }
        assert(years_sliceable(p)) by {
            assert forall|i: int| 0 <= i < p.len() implies year_sliceable(#[trigger] p[i].0) by {
                assert(p[i] == t[i]);
            }
        }
        lemma_by_year_increasing(p);
        let r = by_year(p);
        let n = by_year(t);
        let (d, v) = t.last();
        let last = t.len() - 1;
        assert(t[last] == t.last());
        assert(year_sliceable(t[last].0));
        if r.len() > 0 {
            let k = choose|k: int|
                0 <= k < p.len() && has_year(#[trigger] p[k].0) && r.last().0 == year_of(p[k].0);
            assert(p[k] == t[k]);
            assert(t[k] == p[k]);
        }
        if !has_year(d) {
            if r.len() > 0 {
                let k = choose|k: int|
                    0 <= k < p.len() && has_year(#[trigger] p[k].0) && r.last().0 == year_of(p[k].0);
                assert(t[k] == p[k]);
            }
        } else if r.len() > 0 && r.last().0 == year_of(d) {
            assert forall|i: int, j: int| 0 <= i < j < n.len() implies str_lt(
                #[trigger] n[i].0,
                #[trigger] n[j].0,
            ) by {
                assert(n[i].0 == r[i].0 && n[j].0 == r[j].0);
            }
            assert(n.last().0 == year_of(t[last].0));
        } else {
            if r.len() > 0 {
                let k = choose|k: int|
                    0 <= k < p.len() && has_year(#[trigger] p[k].0) && r.last().0 == year_of(p[k].0);
                assert(t[k] == p[k]);
                assert(!str_lt(t[last].0, t[k].0));
                assert(year_sliceable(t[k].0));
                lemma_year_order(t[k].0, d);
                assert(str_lt(r.last().0, year_of(d)));
                assert forall|i: int| 0 <= i < r.len() implies str_lt(#[trigger] r[i].0, year_of(d)) by {
                    if i < r.len() - 1 {
                        assert(str_lt(r[i].0, r[r.len() - 1].0));
                        lemma_str_order(r[i].0, r.last().0, year_of(d));
                    }
                }
            }
            assert forall|i: int, j: int| 0 <= i < j < n.len() implies str_lt(
                #[trigger] n[i].0,
                #[trigger] n[j].0,
            ) by {
                assert(n[i] == r[i]);
                if j < r.len() {
                    assert(n[j] == r[j]);
                }
            }
            assert(n.last().0 == year_of(t[last].0));
        }
    }
}

/// Entry `i` of `s` is dated in year `y`, no entry of that year has a later
/// date, and its value is `v`.
pub open spec fn latest_of_year(s: Seq<(Seq<char>, i64)>, i: int, y: Seq<char>, v: i64) -> bool {
    &&& 0 <= i < s.len()
    &&& has_year(s[i].0) && year_of(s[i].0) == y && s[i].1 == v
    &&& forall|i2: int|
        0 <= i2 < s.len() && has_year((#[trigger] s[i2]).0) && year_of(s[i2].0) == y ==> !str_lt(
            s[i].0,
            s[i2].0,
        )
}

/// Some entry of `s` is the latest-dated one of year `y`, with value `v`.
pub open spec fn reported_latest(s: Seq<(Seq<char>, i64)>, y: Seq<char>, v: i64) -> bool {
    exists|i: int| latest_of_year(s, i, y, v)
}

/// Some yearly value has year `y`.
pub open spec fn has_yearly(b: Seq<(Seq<char>, i64)>, y: Seq<char>) -> bool {
    exists|k: int| 0 <= k < b.len() && (#[trigger] b[k]).0 == y
}

proof fn lemma_by_year_values(t: Seq<(Seq<char>, i64)>)
    requires
        dates_ascending(t),
        years_sliceable(t),
    ensures
        forall|k: int|
            0 <= k < by_year(t).len() ==> reported_latest(t, (#[trigger] by_year(t)[k]).0, by_year(t)[k].1),
        forall|i: int| 0 <= i < t.len() && has_year((#[trigger] t[i]).0) ==> has_yearly(by_year(t), year_of(t[i].0)),
    decreases t.len(),
{
    if t.len() > 0 {
        let p = t.drop_last();
        assert(dates_ascending(p)) by {
            assert forall|i: int, j: int| 0 <= i < j < p.len() implies !str_lt(
                #[trigger] p[j].0,
                #[trigger] p[i].0,
            ) by {
                assert(p[i] == t[i] && p[j] == t[j]);
            }
        }
        assert(years_sliceable(p)) by {
            assert forall|i: int| 0 <= i < p.len() implies year_sliceable(#[trigger] p[i].0) by {
                assert(p[i] == t[i]);
            }
        }
        lemma_by_year_values(p);
        lemma_by_year_increasing(t);
        let r = by_year(p);
        let b = by_year(t);
        let last = t.len() - 1;
        let (d, v) = t.last();
        assert(t[last] == t.last());
        assert forall|i: int| 0 <= i < p.len() implies #[trigger] p[i] == t[i] by {}
        // entries of r keep their witnesses in t, unless the year is that of d
        assert forall|k: int| 0 <= k < r.len() && (!has_year(d) || r[k].0 != year_of(d)) implies reported_latest(
            t, (#[trigger] r[k]).0, r[k].1) by {
            let i = choose|i: int| latest_of_year(p, i, r[k].0, r[k].1);
            assert(p[i] == t[i]);
            assert forall|i2: int|
                0 <= i2 < t.len() && has_year((#[trigger] t[i2]).0) && year_of(t[i2].0) == r[k].0 implies !str_lt(
                t[i].0,
                t[i2].0,
            ) by {
                if i2 < p.len() {
                    assert(p[i2] == t[i2]);
                }
            }
            assert(latest_of_year(t, i, r[k].0, r[k].1));
        }
        // the last entry is the latest of its year
        if has_year(d) {
            assert forall|i2: int|
                0 <= i2 < t.len() && has_year((#[trigger] t[i2]).0) && year_of(t[i2].0) == year_of(d) implies !str_lt(
                t[last].0,
                t[i2].0,
            ) by {
                if i2 < last {
                    assert(!str_lt(t[last].0, t[i2].0));
                } else {
                    lemma_str_order(t[last].0, t[last].0, t[last].0);
                }
            }
            assert(latest_of_year(t, last, year_of(d), v));
        }
        assert forall|k: int| 0 <= k < b.len() implies reported_latest(t, (#[trigger] b[k]).0, b[k].1) by {
            if !has_year(d) {
                assert(b == r);
                assert(b[k] == r[k]);
                assert(reported_latest(t, r[k].0, r[k].1));
            } else if r.len() > 0 && r.last().0 == year_of(d) {
                assert(b == r.update(r.len() - 1, (year_of(d), v)));
                if k < b.len() - 1 {
                    assert(b[k] == r[k]);
                    assert(b[b.len() - 1].0 == year_of(d));
                    assert(str_lt(b[k].0, b[b.len() - 1].0));
                    lemma_str_order(b[k].0, b[k].0, b[k].0);
                    assert(r[k].0 != year_of(d));
                    assert(reported_latest(t, r[k].0, r[k].1));
                } else {
                    assert(b[k] == (year_of(d), v));
                    assert(latest_of_year(t, last, b[k].0, b[k].1));
                }
            } else {
                assert(b == r.push((year_of(d), v)));
                if k < r.len() {
                    assert(b[k] == r[k]);
                    assert(b[r.len() as int].0 == year_of(d));
                    assert(str_lt(b[k].0, b[r.len() as int].0));
                    lemma_str_order(b[k].0, b[k].0, b[k].0);
                    assert(r[k].0 != year_of(d));
                    assert(reported_latest(t, r[k].0, r[k].1));
                } else {
                    assert(b[k] == (year_of(d), v));
                    assert(latest_of_year(t, last, b[k].0, b[k].1));
                }
            }
        }
        assert forall|i: int| 0 <= i < t.len() && has_year((#[trigger] t[i]).0) implies has_yearly(b, year_of(t[i].0)) by {
            if i < p.len() {
                assert(p[i] == t[i]);
                assert(has_yearly(r, year_of(p[i].0)));
                let k = choose|k: int| 0 <= k < r.len() && (#[trigger] r[k]).0 == year_of(p[i].0);
                if has_year(d) && r.len() > 0 && r.last().0 == year_of(d) {
                    assert(b[k].0 == r[k].0);
                } else {
                    assert(b[k] == r[k]);
                }
            } else {
                if r.len() > 0 && r.last().0 == year_of(d) {
                    assert(b[r.len() - 1].0 == year_of(d));
                } else {
                    assert(b[r.len() as int].0 == year_of(d));
                }
            }
        }
    }
}

/// Each yearly value is the value of the latest-dated entry of its year, as
/// reported (sign included), and every year of the series has its value.
pub proof fn lemma_yearly_values_are_reported(s: Seq<(Seq<char>, i64)>)
    requires
        years_sliceable(s),
    ensures
        forall|k: int|
            0 <= k < yearly_values(s).len() ==> reported_latest(
                s,
                (#[trigger] yearly_values(s)[k]).0,
                yearly_values(s)[k].1,
            ),
        forall|i: int| 0 <= i < s.len() && has_year((#[trigger] s[i]).0) ==> has_yearly(yearly_values(s), year_of(s[i].0)),
{
    let t = sorted_asc(s);
    lemma_sorted_asc_keeps_keys(s);
    lemma_sorted_asc_ascending(s);
    lemma_sorted_asc_members(s);
    lemma_by_year_values(t);
    let b = yearly_values(s);
    assert forall|k: int| 0 <= k < b.len() implies reported_latest(s, (#[trigger] b[k]).0, b[k].1) by {
        assert(reported_latest(t, b[k].0, b[k].1));
        let i = choose|i: int| latest_of_year(t, i, b[k].0, b[k].1);
        assert(t.contains(t[i]));
        let w = choose|w: int| 0 <= w < s.len() && s[w] == t[i];
        assert forall|i2: int|
            0 <= i2 < s.len() && has_year((#[trigger] s[i2]).0) && year_of(s[i2].0) == b[k].0 implies !str_lt(
            s[w].0,
            s[i2].0,
        ) by {
            assert(s.contains(s[i2]));
            assert(t.contains(s[i2]));
            let w2 = choose|w2: int| 0 <= w2 < t.len() && t[w2] == s[i2];
            assert(has_year(t[w2].0));
        }
        assert(latest_of_year(s, w, b[k].0, b[k].1));
    }
    assert forall|i: int| 0 <= i < s.len() && has_year((#[trigger] s[i]).0) implies has_yearly(b, year_of(s[i].0)) by {
        assert(s.contains(s[i]));
        assert(t.contains(s[i]));
        let w = choose|w: int| 0 <= w < t.len() && t[w] == s[i];
        assert(has_year(t[w].0));
    }
}

/// The yearly values of a series run in strictly increasing years, so each
/// growth pairs a year with an earlier one.
pub proof fn lemma_yearly_values_increase(s: Seq<(Seq<char>, i64)>)
    requires
        years_sliceable(s),
    ensures
        forall|i: int, j: int|
            #![trigger yearly_values(s)[i], yearly_values(s)[j]]
            0 <= i < j < yearly_values(s).len() ==> str_lt(yearly_values(s)[i].0, yearly_values(s)[j].0),
{
    lemma_sorted_asc_keeps_keys(s);
    lemma_sorted_asc_ascending(s);
    lemma_by_year_increasing(sorted_asc(s));
}

/// A year written with four decimal digits.
pub open spec fn four_digit_year(y: Seq<char>) -> bool {
    y.len() == 4 && all_digits(y)
}

/// Year `x` is the year just before year `y`.
pub open spec fn is_year_before(x: Seq<char>, y: Seq<char>) -> bool {
    four_digit_year(x) && four_digit_year(y) && digits_value(y) == digits_value(x) + 1
}

/// The first entry of `b` whose year is the year just before `y`.
pub open spec fn prev_year_index(b: Seq<(Seq<char>, i64)>, y: Seq<char>) -> Option<int>
    decreases b.len(),
{
    if b.len() == 0 {
        None
    } else {
        match prev_year_index(b.drop_last(), y) {
            Some(j) => Some(j),
            None => if is_year_before(b.last().0, y) {
                Some(b.len() - 1)
            } else {
                None
            },
        }
    }
}

/// For each of the first `n` yearly values in order whose previous year is
/// also among the yearly values: (year, its value, the previous year's value).
pub open spec fn growth_pairs(b: Seq<(Seq<char>, i64)>, n: nat) -> Seq<(Seq<char>, i64, i64)>
    decreases n,
{
    if n == 0 {
        seq![]
    } else {
        let r = growth_pairs(b, (n - 1) as nat);
        match prev_year_index(b, b[n - 1].0) {
            Some(j) => r.push((b[n - 1].0, b[n - 1].1, b[j].1)),
            None => r,
        }
    }
}

/// The year-over-year pairs of yearly values: each year that has the year
/// before it, with both values.
pub open spec fn year_growths(b: Seq<(Seq<char>, i64)>) -> Seq<(Seq<char>, i64, i64)> {
    growth_pairs(b, b.len())
}

/// Entry `e` pairs a yearly value of `b` with the value of the year before it.
pub open spec fn pairs_with_year_before(b: Seq<(Seq<char>, i64)>, e: (Seq<char>, i64, i64)) -> bool {
    exists|i: int, j: int|
        0 <= i < b.len() && 0 <= j < b.len() && is_year_before(#[trigger] b[j].0, #[trigger] b[i].0)
            && e == (b[i].0, b[i].1, b[j].1)
}

proof fn lemma_digits_injective(a: Seq<char>, c: Seq<char>)
    requires
        a.len() == c.len(),
        all_digits(a),
        all_digits(c),
        digits_value(a) == digits_value(c),
    ensures
        a == c,
    decreases a.len(),
{
    if a.len() > 0 {
        let (pa, pc) = (a.drop_last(), c.drop_last());
        assert(all_digits(pa)) by {
            assert forall|k: int| 0 <= k < pa.len() implies is_digit(#[trigger] pa[k]) by {
                assert(pa[k] == a[k]);
            }
        }
        assert(all_digits(pc)) by {
            assert forall|k: int| 0 <= k < pc.len() implies is_digit(#[trigger] pc[k]) by {
                assert(pc[k] == c[k]);
            }
        }
        assert(is_digit(a[a.len() - 1]) && is_digit(c[c.len() - 1]));
        let da = a.last() as int - 48;
        let dc = c.last() as int - 48;
        assert(digits_value(pa) * 10 + da == digits_value(pc) * 10 + dc);
        assert(da == dc && digits_value(pa) == digits_value(pc)) by (nonlinear_arith)
            requires
                digits_value(pa) * 10 + da == digits_value(pc) * 10 + dc,
                0 <= da <= 9,
                0 <= dc <= 9,
        ;
        lemma_digits_injective(pa, pc);
        assert(a =~= pa.push(a.last()));
        assert(c =~= pc.push(c.last()));
    } else {
        assert(a =~= c);
    }
}

proof fn lemma_prev_year_index(b: Seq<(Seq<char>, i64)>, y: Seq<char>)
    ensures
        prev_year_index(b, y) matches Some(j) ==> 0 <= j < b.len() && is_year_before(b[j].0, y),
        prev_year_index(b, y) is None ==> forall|j: int| 0 <= j < b.len() ==> !is_year_before(#[trigger] b[j].0, y),
    decreases b.len(),
{
    if b.len() > 0 {
        let p = b.drop_last();
        lemma_prev_year_index(p, y);
        if prev_year_index(b, y) is None {
            assert forall|j: int| 0 <= j < b.len() implies !is_year_before(#[trigger] b[j].0, y) by {
                if j < b.len() - 1 {
                    assert(b[j] == p[j]);
                    assert(!is_year_before(p[j].0, y));
                } else {
                    assert(b[j] == b.last());
                }
            }
        }
    }
}

proof fn lemma_growth_pairs(b: Seq<(Seq<char>, i64)>, n: nat)
    requires
        n <= b.len(),
        forall|i: int, j: int| #![trigger b[i], b[j]] 0 <= i < j < b.len() ==> b[i].0 != b[j].0,
    ensures
        forall|k: int| 0 <= k < growth_pairs(b, n).len() ==> pairs_with_year_before(b, #[trigger] growth_pairs(b, n)[k]),
        forall|i: int, j: int|
            0 <= i < n && 0 <= j < b.len() && is_year_before(#[trigger] b[j].0, #[trigger] b[i].0)
                ==> growth_pairs(b, n).contains((b[i].0, b[i].1, b[j].1)),
    decreases n,
{
    if n > 0 {
        lemma_growth_pairs(b, (n - 1) as nat);
        let r = growth_pairs(b, (n - 1) as nat);
        let g = growth_pairs(b, n);
        let i0 = n - 1;
        lemma_prev_year_index(b, b[i0].0);
        assert forall|k: int| 0 <= k < g.len() implies pairs_with_year_before(b, #[trigger] g[k]) by {
            if k < r.len() {
                assert(g[k] == r[k]);
            } else {
                let j = prev_year_index(b, b[i0].0)->0;
                assert(is_year_before(b[j].0, b[i0].0));
            }
        }
        assert forall|i: int, j: int|
            0 <= i < n && 0 <= j < b.len() && is_year_before(#[trigger] b[j].0, #[trigger] b[i].0)
                implies g.contains((b[i].0, b[i].1, b[j].1)) by {
            if i < n - 1 {
                assert(r.contains((b[i].0, b[i].1, b[j].1)));
                let k = choose|k: int| 0 <= k < r.len() && r[k] == (b[i].0, b[i].1, b[j].1);
                assert(g[k] == r[k]);
            } else {
                let j2 = prev_year_index(b, b[i0].0)->0;
                assert(is_year_before(b[j2].0, b[i0].0));
                lemma_digits_injective(b[j2].0, b[j].0);
                if j2 < j {
                    assert(b[j2].0 != b[j].0);
                } else if j < j2 {
                    assert(b[j].0 != b[j2].0);
                }
                assert(g[r.len() as int] == (b[i].0, b[i].1, b[j].1));
            }
        }
    }
}

/// Growth is measured against the year before only: each year-over-year pair
/// is a yearly value with the value of the year just before it, and every
/// yearly value whose previous year the series has gets its pair.
pub proof fn lemma_year_growths(s: Seq<(Seq<char>, i64)>)
    requires
        years_sliceable(s),
    ensures
        forall|k: int|
            0 <= k < year_growths(yearly_values(s)).len() ==> pairs_with_year_before(
                yearly_values(s),
                #[trigger] year_growths(yearly_values(s))[k],
            ),
        forall|i: int, j: int|
            0 <= i < yearly_values(s).len() && 0 <= j < yearly_values(s).len() && is_year_before(
                #[trigger] yearly_values(s)[j].0,
                #[trigger] yearly_values(s)[i].0,
            ) ==> year_growths(yearly_values(s)).contains(
                (yearly_values(s)[i].0, yearly_values(s)[i].1, yearly_values(s)[j].1),
            ),
{
    let b = yearly_values(s);
    lemma_yearly_values_increase(s);
    assert forall|i: int, j: int| 0 <= i < j < b.len() implies #[trigger] b[i].0 != #[trigger] b[j].0 by {
        lemma_str_order(b[i].0, b[j].0, b[i].0);
    }
    lemma_growth_pairs(b, b.len());
}

/// The yearly values of a series, oldest first: sorted by date, grouped by year.
pub open spec fn yearly_values(s: Seq<(Seq<char>, i64)>) -> Seq<(Seq<char>, i64)> {
    by_year(sorted_asc(s))
}

/// The pairs of a year-over-year growth: for each year of the series whose
/// previous year the series also has, (year, its value, the previous year's
/// value); a year's value is that of its latest date.
pub fn yoy_growth(vals: &Vec<(String, i64)>) -> (r: Vec<(String, i64, i64)>)
    requires
        years_sliceable(keyed(vals@)),
    ensures
        triples_view(r@) == year_growths(yearly_values(keyed(vals@))),
{
    let mut copy: Vec<(String, i64)> = Vec::new();
    let mut c: usize = 0;
    while c < vals.len()
        invariant
            c <= vals@.len(),
            keyed(copy@) == keyed(vals@).take(c as int),
        decreases vals@.len() - c,
    {
        let ghost old_copy = copy@;
        copy.push((vals[c].0.clone(), vals[c].1));
        assert(keyed(copy@) =~= keyed(old_copy).push(keyed(vals@)[c as int]));
        assert(keyed(copy@) =~= keyed(vals@).take(c + 1));
        c = c + 1;
    }
    assert(keyed(vals@).take(c as int) =~= keyed(vals@));
    let sorted = sort_by_date_asc(copy);
    let ghost ks = keyed(sorted@);
    proof {
        lemma_sorted_asc_keeps_keys(keyed(vals@));
    }
    let mut by: Vec<(String, i64)> = Vec::new();
    let mut i: usize = 0;
    while i < sorted.len()
        invariant
            i <= sorted@.len(),
            ks == keyed(sorted@),
            years_sliceable(ks),
            keyed(by@) == by_year(ks.take(i as int)),
        decreases sorted@.len() - i,
    {
        assert(ks.take(i + 1).drop_last() =~= ks.take(i as int));
        assert(ks.take(i + 1).last() == ks[i as int]);
        assert(year_sliceable(ks[i as int].0));
        match year_prefix(sorted[i].0.as_str()) {
            Some(yr) => {
                let ghost old_by = keyed(by@);
                let n = by.len();
                if n > 0 && text_eq(by[n - 1].0.as_str(), yr.as_str()) {
                    by.set(n - 1, (yr, sorted[i].1));
                    assert(keyed(by@) =~= old_by.update(n - 1, (year_of(ks[i as int].0), ks[i as int].1)));
                } else {
                    by.push((yr, sorted[i].1));
                    assert(keyed(by@) =~= old_by.push((year_of(ks[i as int].0), ks[i as int].1)));
                }
            },
            None => {},
        }
        i = i + 1;
    }
    assert(ks.take(i as int) =~= ks);
    let ghost b = keyed(by@);
    let mut r: Vec<(String, i64, i64)> = Vec::new();
    let mut k: usize = 0;
    while k < by.len()
        invariant
            k <= by@.len(),
            b == keyed(by@),
            triples_view(r@) == growth_pairs(b, k as nat),
        decreases by@.len() - k,
    {
        match find_prev_year(&by, by[k].0.as_str()) {
            Some(j) => {
                let ghost old_r = r@;
                r.push((by[k].0.clone(), by[k].1, by[j].1));
                assert(triples_view(r@) =~= triples_view(old_r).push((b[k as int].0, b[k as int].1, b[j as int].1)));
            },
            None => {},
        }
        k = k + 1;
    }
    r
}

/// The value of a four-digit year.
fn year_number(y: &str) -> (r: Option<u32>)
    ensures
        r is Some == four_digit_year(y@),
        r matches Some(v) ==> v == digits_value(y@) && v < 10000,
{
    let cs = chars_of(y);
    if cs.len() != 4 {
        return None;
    }
    let mut v: u32 = 0;
    let mut i: usize = 0;
    while i < 4
        invariant
            i <= 4,
            cs@ == y@,
            cs@.len() == 4,
            all_digits(cs@.take(i as int)),
            v == digits_value(cs@.take(i as int)),
            i == 0 ==> v == 0,
            i <= 1 ==> v < 10,
            i <= 2 ==> v < 100,
            i <= 3 ==> v < 1000,
            v < 10000,
        decreases 4 - i,
    {
        let c = cs[i];
        assert(cs@.take(i + 1).drop_last() =~= cs@.take(i as int));
        if !('0' <= c && c <= '9') {
            assert(!all_digits(cs@)) by {
                assert(!is_digit(cs@[i as int]));
            }
            return None;
        }
        let d: u32 = c as u32 - 48;
        v = v * 10 + d;
        assert(all_digits(cs@.take(i + 1))) by {
            assert forall|k: int| 0 <= k < i + 1 implies is_digit(#[trigger] cs@.take(i + 1)[k]) by {
                if k < i {
                    assert(cs@.take(i + 1)[k] == cs@.take(i as int)[k]);
                }
            }
        }
        i = i + 1;
    }
    assert(cs@.take(4) =~= cs@);
    Some(v)
}

fn find_prev_year(b: &Vec<(String, i64)>, y: &str) -> (r: Option<usize>)
    ensures
        r matches Some(j) ==> j < b@.len(),
        (match r {
            Some(j) => Some(j as int),
            None => None,
        }) == prev_year_index(keyed(b@), y@),
{
    let ghost kb = keyed(b@);
    let yv = year_number(y);
    let mut j: usize = 0;
    while j < b.len()
        invariant
            j <= b@.len(),
            kb == keyed(b@),
            yv is Some == four_digit_year(y@),
            yv matches Some(v) ==> v == digits_value(y@),
            prev_year_index(kb.take(j as int), y@) is None,
        decreases b@.len() - j,
    {
        assert(kb.take(j + 1).drop_last() =~= kb.take(j as int));
        assert(kb.take(j + 1).last() == kb[j as int]);
        let before = match (year_number(b[j].0.as_str()), yv) {
            (Some(x), Some(v)) => v == x + 1,
            _ => false,
        };
        if before {
            proof {
                lemma_prev_year_prefix(kb, y@, j + 1);
            }
            return Some(j);
        }
        j = j + 1;
    }
    assert(kb.take(j as int) =~= kb);
    None
}

proof fn lemma_prev_year_prefix(o: Seq<(Seq<char>, i64)>, y: Seq<char>, n: int)
    requires
        0 < n <= o.len(),
        prev_year_index(o.take(n), y) == Some(n - 1),
    ensures
        prev_year_index(o, y) == Some(n - 1),
    decreases o.len() - n,
{
    if n < o.len() {
        assert(o.drop_last().take(n) =~= o.take(n));
        if n < o.len() - 1 {
            lemma_prev_year_prefix(o.drop_last(), y, n);
        } else {
            assert(o.drop_last() =~= o.take(n));
        }
    } else {
        assert(o.take(n) =~= o);
    }
}

/// An amount as the table writes it: digits grouped by thousands with `','`,
/// a `'-'` before a negative amount.
pub open spec fn amount_text(v: i64) -> Seq<char> {
    let digits = grouped(decimal(if v < 0 {
        (-v) as nat
    } else {
        v as nat
    }));
    if v < 0 {
        seq!['-'] + digits
    } else {
        digits
    }
}

/// The characters of `s` other than `','`, in order.
pub open spec fn without_commas(s: Seq<char>) -> Seq<char>
    decreases s.len(),
{
    if s.len() == 0 {
        s
    } else if s.last() == ',' {
        without_commas(s.drop_last())
    } else {
        without_commas(s.drop_last()).push(s.last())
    }
}

proof fn lemma_without_commas_add(a: Seq<char>, b: Seq<char>)
    ensures
        without_commas(a + b) == without_commas(a) + without_commas(b),
    decreases b.len(),
{
    if b.len() == 0 {
        assert(a + b =~= a);
        assert(without_commas(a) + without_commas(b) =~= without_commas(a));
    } else {
        lemma_without_commas_add(a, b.drop_last());
        assert((a + b).drop_last() =~= a + b.drop_last());
        assert((a + b).last() == b.last());
        if b.last() != ',' {
            assert(without_commas(a) + without_commas(b) =~= (without_commas(a) + without_commas(
                b.drop_last(),
            )).push(b.last()));
        }
    }
}

proof fn lemma_grouped_without_commas(ds: Seq<char>)
    ensures
        without_commas(grouped(ds)) == without_commas(ds),
    decreases ds.len(),
{
    if ds.len() > 3 {
        let h = ds.take(ds.len() - 3);
        let t = ds.skip(ds.len() - 3);
        lemma_grouped_without_commas(h);
        lemma_without_commas_add(grouped(h) + seq![','], t);
        lemma_without_commas_add(grouped(h), seq![',']);
        assert(seq![','].drop_last() =~= Seq::<char>::empty());
        assert(without_commas(Seq::<char>::empty()) == Seq::<char>::empty());
        assert(without_commas(seq![',']) =~= Seq::<char>::empty());
        assert(without_commas(grouped(h)) + Seq::<char>::empty() =~= without_commas(grouped(h)));
        lemma_without_commas_add(h, t);
        assert(h + t =~= ds);
    }
}

proof fn lemma_decimal_without_commas(n: nat)
    ensures
        without_commas(decimal(n)) == decimal(n),
    decreases n,
{
    let d = (n % 10) as int;
    assert(digit_char(d) != ',') by {
        assert(48 <= d + 48 < 58);
        assert((d + 48) as char as int == d + 48);
        assert(',' as int == 44);
    }
    if n < 10 {
        assert(decimal(n).drop_last() =~= Seq::<char>::empty());
        assert(without_commas(Seq::<char>::empty()) == Seq::<char>::empty());
        assert(decimal(n) =~= Seq::<char>::empty().push(digit_char(d)));
    } else {
        lemma_decimal_without_commas(n / 10);
        assert(decimal(n).drop_last() =~= decimal(n / 10));
    }
}

/// A written amount is exact: without its commas it is the amount's sign and
/// all its decimal digits.
pub proof fn lemma_amount_text_exact(v: i64)
    ensures
        without_commas(amount_text(v)) == (if v < 0 {
            seq!['-']
        } else {
            Seq::<char>::empty()
        }) + decimal(if v < 0 {
            (-v) as nat
        } else {
            v as nat
        }),
{
    let n: nat = if v < 0 {
        (-v) as nat
    } else {
        v as nat
    };
    lemma_grouped_without_commas(decimal(n));
    lemma_decimal_without_commas(n);
    if v < 0 {
        lemma_without_commas_add(seq!['-'], grouped(decimal(n)));
        assert(seq!['-'].drop_last() =~= Seq::<char>::empty());
        assert(without_commas(Seq::<char>::empty()) == Seq::<char>::empty());
        assert(without_commas(seq!['-']) =~= seq!['-']);
    } else {
        assert(Seq::<char>::empty() + decimal(n) =~= decimal(n));
    }
}

/// Digits in groups: a first group of one to three digits, then groups of
/// exactly three, each after a `','`.
pub open spec fn groups_ok(g: Seq<char>) -> bool
    decreases g.len(),
{
    if g.len() <= 3 {
        1 <= g.len() && all_digits(g)
    } else {
        g[g.len() - 4] == ',' && all_digits(g.skip(g.len() - 3)) && groups_ok(g.take(g.len() - 4))
    }
}

proof fn lemma_grouped_groups(ds: Seq<char>)
    requires
        ds.len() > 0,
        all_digits(ds),
    ensures
        groups_ok(grouped(ds)),
    decreases ds.len(),
{
    if ds.len() > 3 {
        let h = ds.take(ds.len() - 3);
        let t = ds.skip(ds.len() - 3);
        assert(all_digits(h)) by {
            assert forall|k: int| 0 <= k < h.len() implies is_digit(#[trigger] h[k]) by {
                assert(h[k] == ds[k]);
            }
        }
        assert(all_digits(t)) by {
            assert forall|k: int| 0 <= k < t.len() implies is_digit(#[trigger] t[k]) by {
                assert(t[k] == ds[k + ds.len() - 3]);
            }
        }
        lemma_grouped_groups(h);
        let gh = grouped(h);
        let g = grouped(ds);
        assert(g == gh + seq![','] + t);
        assert(g.len() == gh.len() + 4);
        assert(g[g.len() - 4] == ',');
        assert(g.skip(g.len() - 3) =~= t);
        assert(g.take(g.len() - 4) =~= gh);
    }
}

proof fn lemma_decimal_digits(n: nat)
    ensures
        decimal(n).len() > 0,
        all_digits(decimal(n)),
        digits_value(decimal(n)) == n,
        decimal(n)[0] == '0' ==> n == 0,
    decreases n,
{
    let d = (n % 10) as int;
    assert((d + 48) as char as int == d + 48);
    if n < 10 {
        assert(decimal(n).drop_last() =~= Seq::<char>::empty());
        assert(digits_value(Seq::<char>::empty()) == 0);
    } else {
        lemma_decimal_digits(n / 10);
        let p = decimal(n / 10);
        assert(decimal(n).drop_last() =~= p);
        assert(decimal(n)[0] == p[0]);
        assert forall|k: int| 0 <= k < decimal(n).len() implies is_digit(#[trigger] decimal(n)[k]) by {
            if k < p.len() {
                assert(decimal(n)[k] == p[k]);
            }
        }
        assert(n == (n / 10) * 10 + n % 10);
    }
}

/// A written amount reads back as the amount: with its commas removed it
/// parses to the amount; it starts with `'-'` exactly when the amount is
/// negative; its digits come in groups of three after a first group of one to
/// three, with no leading zero unless the amount is 0.
pub proof fn lemma_amount_text_shape(v: i64)
    ensures
        spelled_int(without_commas(amount_text(v))) == Some(v as int),
        (amount_text(v)[0] == '-') == (v < 0),
        groups_ok(if v < 0 {
            amount_text(v).drop_first()
        } else {
            amount_text(v)
        }),
        (if v < 0 {
            amount_text(v)[1]
        } else {
            amount_text(v)[0]
        }) == '0' ==> v == 0,
{
    let n: nat = if v < 0 {
        (-v) as nat
    } else {
        v as nat
    };
    lemma_amount_text_exact(v);
    lemma_decimal_digits(n);
    lemma_grouped_groups(decimal(n));
    let g = grouped(decimal(n));
    assert(g.len() > 0 && g[0] == decimal(n)[0]) by {
        lemma_grouped_first(decimal(n));
    }
    assert(is_digit(decimal(n)[0]));
    if v < 0 {
        assert(amount_text(v) == seq!['-'] + g);
        assert(amount_text(v).drop_first() =~= g);
        assert(amount_text(v)[1] == g[0]);
        let w = seq!['-'] + decimal(n);
        assert(w.drop_first() =~= decimal(n));
    } else {
        assert(Seq::<char>::empty() + decimal(n) =~= decimal(n));
    }
}

proof fn lemma_grouped_first(ds: Seq<char>)
    requires
        ds.len() > 0,
    ensures
        grouped(ds).len() > 0,
        grouped(ds)[0] == ds[0],
    decreases ds.len(),
{
    if ds.len() > 3 {
        let h = ds.take(ds.len() - 3);
        lemma_grouped_first(h);
        assert((grouped(h) + seq![','] + ds.skip(ds.len() - 3))[0] == grouped(h)[0]);
    }
}

/// An amount with thousands separators: `-1234567` becomes `"-1,234,567"`.
pub fn fmt_val(v: i64) -> (r: String)
    ensures
        r@ == amount_text(v),
{
    let mag: u64 = if v < 0 {
        (-(v + 1)) as u64 + 1
    } else {
        v as u64
    };
    let mut ds: Vec<char> = Vec::new();
    push_decimal(&mut ds, mag);
    assert(ds@ =~= decimal(mag as nat));
    let g = group_thousands(&ds);
    if v < 0 {
        let mut out: Vec<char> = Vec::new();
        out.push('-');
        let mut g2 = g;
        out.append(&mut g2);
        let r = string_of(&out);
        assert(r@ =~= amount_text(v));
        r
    } else {
        string_of(&g)
    }
}

/// The raw figure of a year as the table shows it: the first entry of the
/// series in that year written as an amount, and whether it is negative; or
/// `"N/A"`.
pub open spec fn raw_cell_spec(vals: Seq<(Seq<char>, i64)>, year: Seq<char>) -> (Seq<char>, bool) {
    match first_in_year(vals, utf8_bytes(year)) {
        Some(j) => (amount_text(vals[j].1), vals[j].1 < 0),
        None => ("N/A"@, false),
    }
}

/// The text of a raw figure's cell, and whether the cell is red (the figure
/// is negative).
pub fn raw_cell_text(vals: &Vec<(String, i64)>, year: &str) -> (r: (String, bool))
    ensures
        (r.0@, r.1) == raw_cell_spec(keyed(vals@), year@),
{
    match find_in_year(vals, year) {
        Some(j) => (fmt_val(vals[j].1), vals[j].1 < 0),
        None => ("N/A".to_owned(), false),
    }
}

/// The first entry whose date (or year) is exactly `key`.
pub open spec fn first_with_key<T>(s: Seq<(Seq<char>, T)>, key: Seq<char>) -> Option<int>
    decreases s.len(),
{
    if s.len() == 0 {
        None
    } else {
        match first_with_key(s.drop_last(), key) {
            Some(j) => Some(j),
            None => if s.last().0 == key {
                Some(s.len() - 1)
            } else {
                None
            },
        }
    }
}

/// `first_with_key` finds the first entry with the key, and only it.
pub proof fn lemma_first_with_key<T>(s: Seq<(Seq<char>, T)>, key: Seq<char>)
    ensures
        first_with_key(s, key) matches Some(j) ==> 0 <= j < s.len() && s[j].0 == key && forall|k: int|
            0 <= k < j ==> (#[trigger] s[k]).0 != key,
        first_with_key(s, key) is None ==> forall|k: int| 0 <= k < s.len() ==> (#[trigger] s[k]).0 != key,
    decreases s.len(),
{
    if s.len() > 0 {
        let p = s.drop_last();
        lemma_first_with_key(p, key);
        assert forall|k: int| 0 <= k < p.len() implies #[trigger] p[k] == s[k] by {}
        if first_with_key(s, key) is None {
            assert forall|k: int| 0 <= k < s.len() implies (#[trigger] s[k]).0 != key by {
                if k < p.len() {
                    assert(p[k] == s[k]);
                }
            }
        }
        if let Some(j) = first_with_key(s, key) {
            if j < p.len() {
                assert forall|k: int| 0 <= k < j implies (#[trigger] s[k]).0 != key by {
                    assert(p[k] == s[k]);
                }
            } else {
                assert forall|k: int| 0 <= k < j implies (#[trigger] s[k]).0 != key by {
                    assert(p[k] == s[k]);
                }
            }
        }
    }
}

proof fn lemma_first_with_key_prefix<T>(o: Seq<(Seq<char>, T)>, key: Seq<char>, n: int)
    requires
        0 < n <= o.len(),
        first_with_key(o.take(n), key) == Some(n - 1),
    ensures
        first_with_key(o, key) == Some(n - 1),
    decreases o.len() - n,
{
    if n < o.len() {
        assert(o.drop_last().take(n) =~= o.take(n));
        if n < o.len() - 1 {
            lemma_first_with_key_prefix(o.drop_last(), key, n);
        } else {
            assert(o.drop_last() =~= o.take(n));
        }
    } else {
        assert(o.take(n) =~= o);
    }
}

fn find_key<T: Copy>(vals: &Vec<(String, T)>, key: &str) -> (r: Option<usize>)
    ensures
        r matches Some(j) ==> j < vals@.len(),
        (match r {
            Some(j) => Some(j as int),
            None => None,
        }) == first_with_key(keyed(vals@), key@),
{
    let ghost kv = keyed(vals@);
    let mut j: usize = 0;
    while j < vals.len()
        invariant
            j <= vals@.len(),
            kv == keyed(vals@),
            first_with_key(kv.take(j as int), key@) is None,
        decreases vals@.len() - j,
    {
        assert(kv.take(j + 1).drop_last() =~= kv.take(j as int));
        if text_eq(vals[j].0.as_str(), key) {
            proof {
                lemma_first_with_key_prefix(kv, key@, j + 1);
            }
            return Some(j);
        }
        j = j + 1;
    }
    assert(kv.take(j as int) =~= kv);
    None
}

/// The value of the first entry of a ratio series for `year`, if any.
pub fn find_year<T: Copy>(vals: &Vec<(String, T)>, year: &str) -> (r: Option<T>)
    ensures
        r == match first_with_key(keyed(vals@), year@) {
            Some(j) => Some(keyed(vals@)[j].1),
            None => None,
        },
{
    match find_key(vals, year) {
        Some(j) => Some(vals[j].1),
        None => None,
    }
}

/// The DuPont rows: for each year of the net margin series in order that the
/// asset turnover and equity multiplier series also have, (year, margin,
/// turnover, multiplier), the latter two from their first entry of that year.
pub open spec fn dupont_spec<T>(
    npm: Seq<(Seq<char>, T)>,
    at: Seq<(Seq<char>, T)>,
    em: Seq<(Seq<char>, T)>,
) -> Seq<(Seq<char>, T, T, T)>
    decreases npm.len(),
{
    if npm.len() == 0 {
        seq![]
    } else {
        let r = dupont_spec(npm.drop_last(), at, em);
        let (y, v) = npm.last();
        match (first_with_key(at, y), first_with_key(em, y)) {
            (Some(i), Some(j)) => r.push((y, v, at[i].1, em[j].1)),
            _ => r,
        }
    }
}

pub open spec fn quads_view<T>(s: Seq<(String, T, T, T)>) -> Seq<(Seq<char>, T, T, T)> {
    s.map_values(|e: (String, T, T, T)| (e.0@, e.1, e.2, e.3))
}

/// The factors of the DuPont check, year by year.
pub fn dupont<T: Copy>(npm: &Vec<(String, T)>, at: &Vec<(String, T)>, em: &Vec<(String, T)>) -> (r:
    Vec<(String, T, T, T)>)
    ensures
        quads_view(r@) == dupont_spec(keyed(npm@), keyed(at@), keyed(em@)),
{
    let ghost kn = keyed(npm@);
    let mut r: Vec<(String, T, T, T)> = Vec::new();
    let mut i: usize = 0;
    while i < npm.len()
        invariant
            i <= npm@.len(),
            kn == keyed(npm@),
            quads_view(r@) == dupont_spec(kn.take(i as int), keyed(at@), keyed(em@)),
        decreases npm@.len() - i,
    {
        assert(kn.take(i + 1).drop_last() =~= kn.take(i as int));
        assert(kn.take(i + 1).last() == kn[i as int]);
        let y = &npm[i].0;
        match find_key(at, y.as_str()) {
            Some(a) => match find_key(em, y.as_str()) {
                Some(e) => {
                    let ghost old_r = r@;
                    r.push((y.clone(), npm[i].1, at[a].1, em[e].1));
                    assert(quads_view(r@) =~= quads_view(old_r).push(
                        (kn[i as int].0, kn[i as int].1, keyed(at@)[a as int].1, keyed(em@)[e as int].1),
                    ));
                },
                None => {},
            },
            None => {},
        }
        i = i + 1;
    }
    assert(kn.take(i as int) =~= kn);
    r
}

/// The years of the dated entries of a series, in order.
pub open spec fn years_in(s: Seq<(Seq<char>, i64)>) -> Seq<Seq<char>>
    decreases s.len(),
{
    if s.len() == 0 {
        seq![]
    } else {
        let r = years_in(s.drop_last());
        if has_year(s.last().0) {
            r.push(year_of(s.last().0))
        } else {
            r
        }
    }
}

/// The years of a series, in order.
pub fn dated_years(vals: &Vec<(String, i64)>) -> (r: Vec<String>)
    requires
        years_sliceable(keyed(vals@)),
    ensures
        r@.map_values(|y: String| y@) == years_in(keyed(vals@)),
{
    let ghost kv = keyed(vals@);
    let mut r: Vec<String> = Vec::new();
    let mut i: usize = 0;
    while i < vals.len()
        invariant
            i <= vals@.len(),
            kv == keyed(vals@),
            years_sliceable(kv),
            r@.map_values(|y: String| y@) == years_in(kv.take(i as int)),
        decreases vals@.len() - i,
    {
        assert(kv.take(i + 1).drop_last() =~= kv.take(i as int));
        assert(kv.take(i + 1).last() == kv[i as int]);
        assert(year_sliceable(kv[i as int].0));
        match year_prefix(vals[i].0.as_str()) {
            Some(y) => {
                let ghost old_r = r@;
                r.push(y);
                assert(r@.map_values(|y: String| y@) =~= old_r.map_values(|y: String| y@).push(
                    year_of(kv[i as int].0),
                ));
            },
            None => {},
        }
        i = i + 1;
    }
    assert(kv.take(i as int) =~= kv);
    r
}

/// Texts sorted and with repeats removed (`sort` then `dedup`).
pub open spec fn distinct_sorted(ys: Seq<Seq<char>>) -> Seq<Seq<char>> {
    dedup_dates(sorted_asc(ys.map_values(|y: Seq<char>| (y, ())))).map_values(
        |p: (Seq<char>, ())| p.0,
    )
}

/// The years of the table: sorted, each once.
pub fn sorted_years(years: Vec<String>) -> (r: Vec<String>)
    ensures
        r@.map_values(|y: String| y@) == distinct_sorted(years@.map_values(|y: String| y@)),
{
    let ghost yv = years@.map_values(|y: String| y@);
    let mut pairs: Vec<(String, ())> = Vec::new();
    let mut years = years;
    let mut i: usize = 0;
    let ghost orig = years@;
    assert(orig.len() == years.len());
    assert(orig.skip(0) =~= orig);
    while years.len() > 0
        invariant
            i + years@.len() == orig.len(),
            orig.len() <= usize::MAX,
            years@ == orig.skip(i as int),
            yv == orig.map_values(|y: String| y@),
            keyed(pairs@) == yv.map_values(|y: Seq<char>| (y, ())).take(i as int),
        decreases years@.len(),
    {
        let ghost before = years@;
        let y = years.remove(0);
        let ghost old_p = keyed(pairs@);
        pairs.push((y, ()));
        assert(orig[i as int] == before[0]);
        assert(keyed(pairs@) =~= old_p.push((orig[i as int]@, ())));
        assert(keyed(pairs@) =~= yv.map_values(|y: Seq<char>| (y, ())).take(i + 1));
        assert(years@ =~= orig.skip(i + 1));
        i = i + 1;
    }
    assert(yv.map_values(|y: Seq<char>| (y, ())).take(i as int) =~= yv.map_values(
        |y: Seq<char>| (y, ()),
    ));
    let sorted = sort_by_date_asc(pairs);
    let ghost ks = keyed(sorted@);
    let ghost dd = dedup_dates(ks);
    let mut r: Vec<String> = Vec::new();
    let mut k: usize = 0;
    while k < sorted.len()
        invariant
            k <= sorted@.len(),
            ks == keyed(sorted@),
            r@.map_values(|y: String| y@) == dedup_dates(ks.take(k as int)).map_values(
                |p: (Seq<char>, ())| p.0,
            ),
        decreases sorted@.len() - k,
    {
        assert(ks.take(k + 1).drop_last() =~= ks.take(k as int));
        if k == 0 || !text_eq(sorted[k].0.as_str(), sorted[k - 1].0.as_str()) {
            let ghost old_r = r@;
            r.push(sorted[k].0.clone());
            if k == 0 {
                assert(ks.take(1) =~= seq![ks[0]]);
            } else {
                assert(ks.take(k + 1).last() == ks[k as int]);
                assert(ks.take(k + 1)[k - 1] == ks[k - 1]);
                assert(dedup_dates(ks.take(k + 1)) == dedup_dates(ks.take(k as int)).push(ks[k as int]));
            }
            assert(r@.map_values(|y: String| y@) =~= old_r.map_values(|y: String| y@).push(ks[k as int].0));
            assert(r@.map_values(|y: String| y@) =~= dedup_dates(ks.take(k + 1)).map_values(
                |p: (Seq<char>, ())| p.0,
            ));
        }
        k = k + 1;
    }
    assert(ks.take(k as int) =~= ks);
    r
}

} // verus!

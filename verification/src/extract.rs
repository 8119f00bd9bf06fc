//! Where the SEC data of a company is kept, and how a ticker finds its CIK.

use vstd::prelude::*;
use crate::text::{concat_str, decimal, join_path, padded_decimal, path_join, string_of, text_eq, zero_padded};

verus! {

/// The cache directory under a home directory.
pub open spec fn cache_dir(home: Seq<char>) -> Seq<char> {
    path_join(home, "ca_json"@)
}

/// The directory that holds the downloaded JSON files: `ca_json` in `home`.
pub fn directory_path(home: &str) -> (r: String)
    ensures
        r@ == cache_dir(home@),
{
    join_path(home, "ca_json")
}

/// The cached ticker list: `company-tickers.json` in the cache directory.
pub fn ticker_file_path(home: &str) -> (r: String)
    ensures
        r@ == path_join(cache_dir(home@), "company-tickers.json"@),
{
    join_path(directory_path(home).as_str(), "company-tickers.json")
}

/// The cached company facts of a ticker: `<ticker>-facts.json` in the cache
/// directory.
pub fn facts_file_path(home: &str, ticker: &str) -> (r: String)
    ensures
        r@ == path_join(cache_dir(home@), ticker@ + "-facts.json"@),
{
    let name = concat_str(ticker, "-facts.json");
    join_path(directory_path(home).as_str(), name.as_str())
}

/// An entry of the SEC ticker list: its ticker and its CIK, where they are
/// present as a string and as an unsigned integer.
pub struct TickerEntry {
    pub ticker: Option<String>,
    pub cik: Option<u64>,
}

/// A ticker list entry as values: (ticker, CIK).
pub type TickerView = (Option<Seq<char>>, Option<u64>);

pub open spec fn ticker_view(e: TickerEntry) -> TickerView {
    (
        match e.ticker {
            Some(t) => Some(t@),
            None => None,
        },
        e.cik,
    )
}

pub open spec fn tickers_view(es: Seq<TickerEntry>) -> Seq<TickerView> {
    es.map_values(|e: TickerEntry| ticker_view(e))
}

pub open spec fn names_ticker(e: TickerView, tkr: Seq<char>) -> bool {
    e.0 matches Some(t) && t == tkr
}

/// The CIK of the last entry with the given ticker, if any.
pub open spec fn ticker_cik(es: Seq<TickerView>, tkr: Seq<char>) -> Option<u64>
    decreases es.len(),
{
    if es.len() == 0 {
        None
    } else if names_ticker(es.last(), tkr) {
        es.last().1
    } else {
        ticker_cik(es.drop_last(), tkr)
    }
}

/// A CIK as the SEC writes it in URLs: ten digits, zero-padded.
pub open spec fn cik_text(cik: u64) -> Seq<char> {
    zero_padded(decimal(cik as nat), 10)
}

/// Every entry with the ticker has a CIK.
pub open spec fn ciks_present(es: Seq<TickerView>, tkr: Seq<char>) -> bool {
    forall|i: int| 0 <= i < es.len() && names_ticker(#[trigger] es[i], tkr) ==> es[i].1 is Some
}

/// The ten-digit CIK, or empty where no entry has the ticker.
pub open spec fn cik_result(es: Seq<TickerView>, tkr: Seq<char>) -> Seq<char> {
    match ticker_cik(es, tkr) {
        Some(c) => cik_text(c),
        None => seq![],
    }
}

/// The ten-digit CIK of a ticker from the ticker list; empty where no entry
/// has that ticker. Where the ticker repeats, the last entry counts.
pub fn return_ticker(entries: &Vec<TickerEntry>, tkr: &str) -> (r: String)
    requires
        ciks_present(tickers_view(entries@), tkr@),
    ensures
        r@ == cik_result(tickers_view(entries@), tkr@),
{
    let ghost ev = tickers_view(entries@);
    let mut found: Option<u64> = None;
    let mut i: usize = 0;
    while i < entries.len()
        invariant
            i <= entries@.len(),
            ev == tickers_view(entries@),
            found == ticker_cik(ev.take(i as int), tkr@),
            ciks_present(ev, tkr@),
        decreases entries@.len() - i,
    {
        let e = &entries[i];
        assert(ev.take(i + 1).drop_last() =~= ev.take(i as int));
        assert(ev.take(i + 1).last() == ticker_view(*e));
        match &e.ticker {
            Some(t) => {
                if text_eq(t.as_str(), tkr) {
                    found = e.cik;
                }
            },
            None => {},
        }
        i = i + 1;
    }
    assert(ev.take(i as int) =~= ev);
    match found {
        Some(c) => string_of(&padded_decimal(c, 10)),
        None => String::new(),
    }
}

/// What the SEC ticker list holds, read as JSON: `None` where the text is not
/// JSON; else `None` inside where it is no object, and otherwise each of its
/// members in key order, with its `ticker` where that is a string and its
/// `cik_str` where that is a `u64`.
pub uninterp spec fn ticker_json(text: Seq<char>) -> Option<Option<Seq<TickerView>>>;

pub open spec fn found_tickers_view(r: Option<Option<Vec<TickerEntry>>>) -> Option<Option<Seq<TickerView>>> {
    match r {
        Some(Some(es)) => Some(Some(tickers_view(es@))),
        Some(None) => Some(None),
        None => None,
    }
}

/// `serde_json::from_str` into a `serde_json::Value`, then the members of the
/// object (`as_object`, `values`) with their fields picked out (`as_str`,
/// `as_u64`). Claimed: the result is `ticker_json` of the text.
#[verifier::external_body]
fn read_ticker_list(text: &str) -> (r: Option<Option<Vec<TickerEntry>>>)
    ensures
        found_tickers_view(r) == ticker_json(text@),
{
    let v: serde_json::Value = serde_json::from_str(text).ok()?;
    Some(v.as_object().map(|m| m.values().map(|e| TickerEntry {
        ticker: e["ticker"].as_str().map(|t| t.to_string()),
        cik: e["cik_str"].as_u64(),
    }).collect()))
}

/// The ten-digit CIK of a ticker from the text of the SEC ticker list (empty
/// where no entry has the ticker; where it repeats, the last entry counts).
/// `None` where the text is not JSON, is no object, or an entry with the
/// ticker has no CIK.
pub fn cik_of(text: &str, tkr: &str) -> (r: Option<String>)
    ensures
        r is Some <==> (ticker_json(text@) matches Some(Some(es)) && ciks_present(es, tkr@)),
        r matches Some(c) ==> c@ == cik_result(ticker_json(text@)->0->0, tkr@),
{
    let entries = match read_ticker_list(text) {
        Some(Some(es)) => es,
        _ => return None,
    };
    let ghost ev = tickers_view(entries@);
    assert(ticker_json(text@) == Some(Some(ev)));
    let mut i: usize = 0;
    while i < entries.len()
        invariant
            i <= entries@.len(),
            ev == tickers_view(entries@),
            ticker_json(text@) == Some(Some(ev)),
            forall|k: int| 0 <= k < i && names_ticker(#[trigger] ev[k], tkr@) ==> ev[k].1 is Some,
        decreases entries@.len() - i,
    {
        assert(ev[i as int] == ticker_view(entries@[i as int]));
        let named = match &entries[i].ticker {
            Some(t) => text_eq(t.as_str(), tkr),
            None => false,
        };
        if named && entries[i].cik.is_none() {
            assert(names_ticker(ev[i as int], tkr@) && ev[i as int].1 is None);
            assert(!ciks_present(ev, tkr@));
            return None;
        }
        i = i + 1;
    }
    Some(return_ticker(&entries, tkr))
}

} // verus!

//! Finding the XBRL instance in the ZIP archive of an EDINET filing.

use std::io::{Cursor, Read};
use vstd::prelude::*;
use vstd::utf8::decode_utf8;
use vstd::utf8::{is_ascii_chars, valid_utf8};
use zip::ZipArchive;
use crate::text::{ascii_lower, chars_of, contains, ends_with, seq_contains, seq_ends_with};

verus! {

#[verifier::external_type_specification]
#[verifier::external_body]
#[verifier::reject_recursive_types(R)]
pub struct ExZipArchive<R>(ZipArchive<R>);

/// What an archive entry gives: whether it opens without a password (which
/// `by_index` needs in order to return rather than panic); then, through
/// `by_index`, its name and uncompressed size where its header reads, and its
/// contents where they decompress.
pub type EntryView = (bool, Option<(Seq<char>, usize)>, Option<Seq<u8>>);

/// The entries that `ZipArchive::new` reads from `bytes`, or `None` where it
/// refuses them as an archive.
pub uninterp spec fn zip_directory(bytes: Seq<u8>) -> Option<Seq<EntryView>>;

/// The entries of an open archive, in the order of its central directory.
pub uninterp spec fn zip_entries(a: ZipArchive<Cursor<Vec<u8>>>) -> Seq<EntryView>;

/// `str::to_lowercase`.
pub uninterp spec fn unicode_lowercase(s: Seq<char>) -> Seq<char>;

/// `String::from_utf8_lossy`.
pub uninterp spec fn utf8_lossy(b: Seq<u8>) -> Seq<char>;

/// `ZipArchive::new` over a copy of `bytes`. Claimed: it opens exactly when
/// `zip_directory(bytes)` is an archive, and then holds those entries.
#[verifier::external_body]
fn open_zip(bytes: &[u8]) -> (r: Option<ZipArchive<Cursor<Vec<u8>>>>)
    ensures
        r is Some == zip_directory(bytes@) is Some,
        r matches Some(a) ==> zip_entries(a) == zip_directory(bytes@)->0,
{
    ZipArchive::new(Cursor::new(bytes.to_vec())).ok()
}

/// `ZipArchive::len`: the number of entries.
#[verifier::external_body]
fn entry_count(a: &ZipArchive<Cursor<Vec<u8>>>) -> (n: usize)
    ensures
        n == zip_entries(*a).len(),
{
    a.len()
}

/// `ZipArchive::by_index_decrypt` with an empty password, which the crate
/// discards for an entry that is not encrypted: whether it opens the entry.
/// Claimed: the first part of entry `i`; the archive's entries stay as they
/// were. Where this opens an entry, `by_index` does not reach its `unwrap` on
/// it: that `unwrap` fails only for an unencrypted entry with an AES extra
/// field, which this call refuses with `InvalidPassword`.
#[verifier::external_body]
fn entry_opens(a: &mut ZipArchive<Cursor<Vec<u8>>>, i: usize) -> (r: bool)
    requires
        i < zip_entries(*old(a)).len(),
    ensures
        zip_entries(*final(a)) == zip_entries(*old(a)),
        r == zip_entries(*old(a))[i as int].0,
{
    match a.by_index_decrypt(i, b"") {
        Ok(Ok(_)) => true,
        _ => false,
    }
}

/// `ZipArchive::by_index`, then `ZipFile::name` and `ZipFile::size` (as
/// `usize`). Claimed: the header of entry `i`; the archive's entries stay as
/// they were.
#[verifier::external_body]
fn entry_header(a: &mut ZipArchive<Cursor<Vec<u8>>>, i: usize) -> (r: Option<(String, usize)>)
    requires
        i < zip_entries(*old(a)).len(),
        zip_entries(*old(a))[i as int].0,
    ensures
        zip_entries(*final(a)) == zip_entries(*old(a)),
        r.deep_view() == zip_entries(*old(a))[i as int].1,
{
    a.by_index(i).ok().map(|f| (f.name().to_string(), f.size() as usize))
}

/// `ZipArchive::by_index`, then `Read::read_to_end`. Claimed: the contents of
/// entry `i`; the archive's entries stay as they were.
#[verifier::external_body]
fn entry_content(a: &mut ZipArchive<Cursor<Vec<u8>>>, i: usize) -> (r: Option<Vec<u8>>)
    requires
        i < zip_entries(*old(a)).len(),
        zip_entries(*old(a))[i as int].0,
    ensures
        zip_entries(*final(a)) == zip_entries(*old(a)),
        r.deep_view() == zip_entries(*old(a))[i as int].2,
{
    let mut f = a.by_index(i).ok()?;
    let mut raw = Vec::new();
    f.read_to_end(&mut raw).ok()?;
    Some(raw)
}

/// `str::to_lowercase`. Claimed: `unicode_lowercase`, which maps ASCII text to
/// its ASCII lowercase.
#[verifier::external_body]
fn to_lower(s: &str) -> (r: String)
    ensures
        r@ == unicode_lowercase(s@),
        is_ascii_chars(s@) ==> r@ == ascii_lower(s@),
{
    s.to_lowercase()
}

/// `String::from_utf8_lossy`. Claimed: `utf8_lossy`, which decodes valid UTF-8
/// unchanged.
#[verifier::external_body]
fn lossy_text(b: &[u8]) -> (r: String)
    ensures
        r@ == utf8_lossy(b@),
        valid_utf8(b@) ==> r@ == decode_utf8(b@),
{
    String::from_utf8_lossy(b).into_owned()
}

/// The header of an entry as the choice reads it: its name in lowercase, and
/// its size.
pub open spec fn lowered(h: Option<(Seq<char>, usize)>) -> Option<(Seq<char>, usize)> {
    match h {
        Some((n, sz)) => Some((unicode_lowercase(n), sz)),
        None => None,
    }
}

/// The headers of an archive's entries, names in lowercase; none for an entry
/// that does not open without a password.
pub open spec fn lowered_headers(es: Seq<EntryView>) -> Seq<Option<(Seq<char>, usize)>> {
    Seq::new(es.len(), |i: int| if es[i].0 { lowered(es[i].1) } else { None })
}

/// A lowercase entry name that marks an XBRL instance of the annual report
/// itself (not, say, an audit report).
pub open spec fn is_primary_name(l: Seq<char>) -> bool {
    contains(l, "asr"@) || contains(l, "030000"@)
}

/// Entry `i` may be chosen: an XBRL instance (its lowercase name ends in
/// `.xbrl`) that is primary or not empty.
pub open spec fn fits(hs: Seq<Option<(Seq<char>, usize)>>, i: int) -> bool {
    &&& 0 <= i < hs.len()
    &&& hs[i] matches Some((l, sz))
    &&& ends_with(l, ".xbrl"@)
    &&& is_primary_name(l) || sz > 0
}

/// Entry `i` ranks below entry `j`: not primary where `j` is, or smaller
/// where both are alike.
pub open spec fn ranks_below(hs: Seq<Option<(Seq<char>, usize)>>, i: int, j: int) -> bool {
    let (li, si) = hs[i]->0;
    let (lj, sj) = hs[j]->0;
    (!is_primary_name(li) && is_primary_name(lj)) || (is_primary_name(li) == is_primary_name(lj)
        && si < sj)
}

/// Entry `i` is the one chosen: of highest rank, and first among equals.
pub open spec fn is_best(hs: Seq<Option<(Seq<char>, usize)>>, i: int) -> bool {
    &&& fits(hs, i)
    &&& forall|j: int| fits(hs, j) ==> !ranks_below(hs, i, j)
    &&& forall|j: int| 0 <= j < i && fits(hs, j) ==> ranks_below(hs, j, i)
}

/// The chosen entry is determined: no two entries are both the best.
pub proof fn lemma_best_unique(hs: Seq<Option<(Seq<char>, usize)>>, i: int, j: int)
    requires
        is_best(hs, i),
        is_best(hs, j),
    ensures
        i == j,
{
    if i < j {
        assert(ranks_below(hs, i, j));
        assert(!ranks_below(hs, i, j));
    } else if j < i {
        assert(ranks_below(hs, j, i));
        assert(!ranks_below(hs, j, i));
    }
}

/// The text of an entry, where its contents could be read.
pub open spec fn entry_text(es: Seq<EntryView>, i: int) -> Option<Seq<char>> {
    match es[i].2 {
        Some(d) => Some(utf8_lossy(d)),
        None => None,
    }
}

pub open spec fn text_view(r: Option<String>) -> Option<Seq<char>> {
    match r {
        Some(s) => Some(s@),
        None => None,
    }
}

fn is_primary(l: &Vec<char>) -> (r: bool)
    ensures
        r == is_primary_name(l@),
{
    seq_contains(l, &chars_of("asr")) || seq_contains(l, &chars_of("030000"))
}

/// The entry to take from entry headers whose names are in lowercase: among
/// those whose name ends in `.xbrl`, one of the annual report itself if there
/// is one, the largest, the first of equals; `None` where none fits.
pub fn best_entry(hs: &Vec<Option<(String, usize)>>) -> (r: Option<usize>)
    ensures
        match r {
            None => forall|i: int| !fits(hs.deep_view(), i),
            Some(b) => is_best(hs.deep_view(), b as int),
        },
{
    let ghost v = hs.deep_view();
    let mut best_i: Option<usize> = None;
    let mut best_sz: usize = 0;
    let mut best_pri = false;
    let mut i: usize = 0;
    while i < hs.len()
        invariant
            i <= hs@.len(),
            v == hs.deep_view(),
            best_i is None ==> !best_pri && best_sz == 0 && forall|j: int| 0 <= j < i ==> !fits(v, j),
            best_i matches Some(b) ==> {
                &&& b < i
                &&& fits(v, b as int)
                &&& (v[b as int]->0).1 == best_sz
                &&& is_primary_name((v[b as int]->0).0) == best_pri
                &&& forall|j: int| 0 <= j < i && fits(v, j) ==> !ranks_below(v, b as int, j)
                &&& forall|j: int| 0 <= j < b && fits(v, j) ==> ranks_below(v, j, b as int)
            },
        decreases hs@.len() - i,
    {
        assert(v[i as int] == hs@[i as int].deep_view());
        match &hs[i] {
            Some((name, sz)) => {
                let lc = chars_of(name.as_str());
                if seq_ends_with(&lc, &chars_of(".xbrl")) {
                    let pri = is_primary(&lc);
                    if (pri && !best_pri) || (pri == best_pri && *sz > best_sz) {
                        best_i = Some(i);
                        best_sz = *sz;
                        best_pri = pri;
                    }
                }
            },
            None => {},
        }
        i = i + 1;
    }
    match best_i {
        Some(b) => Some(b),
        None => {
            assert forall|j: int| !fits(v, j) by {}
            None
        },
    }
}

/// The text of the XBRL instance in a filing's archive: the best entry by
/// [`best_entry`] over the entries' headers, names in lowercase. `None` where
/// the bytes are no archive, no entry fits, or the chosen one does not
/// decompress.
pub fn xbrl_from_zip(bytes: &[u8]) -> (r: Option<String>)
    ensures
        match zip_directory(bytes@) {
            None => r is None,
            Some(es) => {
                &&& (forall|i: int| !fits(lowered_headers(es), i)) ==> r is None
                &&& (exists|i: int| fits(lowered_headers(es), i)) ==> exists|i: int|
                    is_best(lowered_headers(es), i) && text_view(r) == entry_text(es, i)
            },
        },
{
    let mut arc = match open_zip(bytes) {
        Some(a) => a,
        None => return None,
    };
    let ghost es = zip_entries(arc);
    let ghost lh = lowered_headers(es);
    let n = entry_count(&arc);
    let mut hs: Vec<Option<(String, usize)>> = Vec::new();
    let mut i: usize = 0;
    while i < n
        invariant
            i <= n == es.len(),
            es == zip_entries(arc),
            es == zip_directory(bytes@)->0,
            lh == lowered_headers(es),
            hs.deep_view() == lh.take(i as int),
        decreases n - i,
    {
        let ghost before = hs.deep_view();
        let header = if entry_opens(&mut arc, i) {
            entry_header(&mut arc, i)
        } else {
            None
        };
        match header {
            Some((name, sz)) => {
                let l = to_lower(name.as_str());
                hs.push(Some((l, sz)));
            },
            None => {
                hs.push(None);
            },
        }
        assert(hs.deep_view() =~= before.push(lh[i as int]));
        assert(lh.take(i + 1) =~= lh.take(i as int).push(lh[i as int]));
        i = i + 1;
    }
    assert(lh.take(i as int) =~= lh);
    let b = match best_entry(&hs) {
        Some(b) => b,
        None => return None,
    };
    let raw = match entry_content(&mut arc, b) {
        Some(raw) => raw,
        None => {
            assert(entry_text(es, b as int) is None);
            return None;
        },
    };
    let text = lossy_text(raw.as_slice());
    assert(raw.deep_view() =~= raw@);
    assert(text_view(Some(text)) == entry_text(es, b as int));
    Some(text)
}

} // verus!

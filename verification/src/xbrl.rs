//! Reading the financial figures of an EDINET annual report out of its XBRL
//! instance: which elements count, how a context is ranked, how a reported
//! value is scaled, and which value wins for each item.

use vstd::prelude::*;
use crate::text::{
    ascii_lower, chars_of, contains, parse_int, parsed_int, seq_contains, spelled_int, text_eq,
    to_ascii_lower, trim, trim_chars,
};
use crate::xml_events::{next_event, open_xml, pending_events, stops_once_at_end, xml_events, XmlEvent, XmlEventView};


verus! {

/// Element names that report revenue.
pub open spec fn rev_tags() -> Seq<Seq<char>> {
    seq![
        "NetSales"@,
        "NetSalesAndRevenues"@,
        "Revenue"@,
        "Revenues"@,
        "NetSalesSummaryOfBusinessResults"@,
    ]
}

/// Element names that report operating income.
pub open spec fn ope_tags() -> Seq<Seq<char>> {
    seq!["OperatingIncome"@, "OperatingProfit"@, "OperatingProfitLoss"@, "OperatingIncomeLoss"@]
}

/// Element names that report net income.
pub open spec fn net_tags() -> Seq<Seq<char>> {
    seq![
        "ProfitAttributableToOwnersOfParent"@,
        "ProfitLossAttributableToOwnersOfParent"@,
        "NetIncome"@,
        "NetIncomeLoss"@,
        "ProfitLoss"@,
    ]
}

/// Element names that report total assets.
pub open spec fn ast_tags() -> Seq<Seq<char>> {
    seq!["Assets"@, "TotalAssets"@]
}

/// Element names that report liabilities.
pub open spec fn lia_tags() -> Seq<Seq<char>> {
    seq!["Liabilities"@, "TotalLiabilities"@]
}

/// Element names that report equity.
pub open spec fn eqt_tags() -> Seq<Seq<char>> {
    seq![
        "EquityAttributableToOwnersOfParent"@,
        "NetAssets"@,
        "TotalNetAssets"@,
        "StockholdersEquity"@,
    ]
}

/// The six groups of element names, in the order of a report row.
pub open spec fn tag_groups() -> Seq<Seq<Seq<char>>> {
    seq![rev_tags(), ope_tags(), net_tags(), ast_tags(), lia_tags(), eqt_tags()]
}

/// The texts of a list of names.
pub open spec fn str_views(v: Seq<&str>) -> Seq<Seq<char>> {
    v.map_values(|s: &str| s@)
}

/// The element names that report revenue, in the order they are searched.
pub fn rev_list() -> (v: Vec<&'static str>)
    ensures
        str_views(v@) == rev_tags(),
{
    let v = vec![
        "NetSales",
        "NetSalesAndRevenues",
        "Revenue",
        "Revenues",
        "NetSalesSummaryOfBusinessResults",
    ];
    assert(str_views(v@) =~= rev_tags());
    v
}

/// The element names that report operating income, in the order they are searched.
pub fn ope_list() -> (v: Vec<&'static str>)
    ensures
        str_views(v@) == ope_tags(),
{
    let v = vec!["OperatingIncome", "OperatingProfit", "OperatingProfitLoss", "OperatingIncomeLoss"];
    assert(str_views(v@) =~= ope_tags());
    v
}

/// The element names that report net income, in the order they are searched.
pub fn net_list() -> (v: Vec<&'static str>)
    ensures
        str_views(v@) == net_tags(),
{
    let v = vec![
        "ProfitAttributableToOwnersOfParent",
        "ProfitLossAttributableToOwnersOfParent",
        "NetIncome",
        "NetIncomeLoss",
        "ProfitLoss",
    ];
    assert(str_views(v@) =~= net_tags());
    v
}

/// The element names that report total assets, in the order they are searched.
pub fn ast_list() -> (v: Vec<&'static str>)
    ensures
        str_views(v@) == ast_tags(),
{
    let v = vec!["Assets", "TotalAssets"];
    assert(str_views(v@) =~= ast_tags());
    v
}

/// The element names that report liabilities, in the order they are searched.
pub fn lia_list() -> (v: Vec<&'static str>)
    ensures
        str_views(v@) == lia_tags(),
{
    let v = vec!["Liabilities", "TotalLiabilities"];
    assert(str_views(v@) =~= lia_tags());
    v
}

/// The element names that report equity, in the order they are searched.
pub fn eqt_list() -> (v: Vec<&'static str>)
    ensures
        str_views(v@) == eqt_tags(),
{
    let v = vec!["EquityAttributableToOwnersOfParent", "NetAssets", "TotalNetAssets", "StockholdersEquity"];
    assert(str_views(v@) =~= eqt_tags());
    v
}

/// An element whose figure the report reads.
pub open spec fn is_target_name(n: Seq<char>) -> bool {
    exists|g: int| 0 <= g < 6 && (#[trigger] tag_groups()[g]).contains(n)
}

fn in_list(n: &str, list: &Vec<&'static str>) -> (r: bool)
    ensures
        r == str_views(list@).contains(n@),
{
    let mut i: usize = 0;
    while i < list.len()
        invariant
            i <= list@.len(),
            forall|k: int| 0 <= k < i ==> list@[k]@ != n@,
        decreases list@.len() - i,
    {
        if text_eq(list[i], n) {
            assert(str_views(list@)[i as int] == n@);
            return true;
        }
        i = i + 1;
    }
    assert forall|k: int| 0 <= k < str_views(list@).len() implies str_views(list@)[k] != n@ by {
        assert(str_views(list@)[k] == list@[k]@);
    }
    false
}

/// Whether an element name is one of the names that the report reads.
pub fn is_target(n: &str) -> (r: bool)
    ensures
        r == is_target_name(n@),
{
    let r = in_list(n, &rev_list()) || in_list(n, &ope_list()) || in_list(n, &net_list())
        || in_list(n, &ast_list()) || in_list(n, &lia_list()) || in_list(n, &eqt_list());
    proof {
        if r {
            if tag_groups()[0].contains(n@) {
            } else if tag_groups()[1].contains(n@) {
            } else if tag_groups()[2].contains(n@) {
            } else if tag_groups()[3].contains(n@) {
            } else if tag_groups()[4].contains(n@) {
            } else {
                assert(tag_groups()[5].contains(n@));
            }
        } else {
            assert forall|g: int| 0 <= g < 6 implies !(#[trigger] tag_groups()[g]).contains(n@) by {
                if g == 0 {
                } else if g == 1 {
                } else if g == 2 {
                } else if g == 3 {
                } else if g == 4 {
                } else {
                }
            }
        }
    }
    r
}

/// How well a context fits the figure wanted: the current year, consolidated,
/// scores higher; prior years, non-consolidated figures and segments lower.
pub open spec fn context_score(c: Seq<char>) -> int {
    let l = ascii_lower(c);
    (if contains(l, "currentyear"@) { 100int } else { 0int }) + (if contains(l, "consolidated"@) {
        30int
    } else {
        0int
    }) - (if contains(l, "prior"@) || contains(l, "previous"@) {
        300int
    } else {
        0int
    }) - (if contains(l, "nonconsolidated"@) || contains(l, "individual"@) {
        100int
    } else {
        0int
    }) - (if contains(l, "segment"@) {
        50int
    } else {
        0int
    })
}

/// The score of a context reference.
pub fn ctx_score(c: &str) -> (s: i32)
    ensures
        s == context_score(c@),
{
    let l = to_ascii_lower(&chars_of(c));
    let mut s: i32 = 0;
    if seq_contains(&l, &chars_of("currentyear")) {
        s = s + 100;
    }
    if seq_contains(&l, &chars_of("consolidated")) {
        s = s + 30;
    }
    if seq_contains(&l, &chars_of("prior")) || seq_contains(&l, &chars_of("previous")) {
        s = s - 300;
    }
    if seq_contains(&l, &chars_of("nonconsolidated")) || seq_contains(&l, &chars_of("individual")) {
        s = s - 100;
    }
    if seq_contains(&l, &chars_of("segment")) {
        s = s - 50;
    }
    s
}

/// Ten to the power `e`.
pub open spec fn pow10(e: nat) -> int
    decreases e,
{
    if e == 0 {
        1
    } else {
        10 * pow10((e - 1) as nat)
    }
}

/// The power of ten by which a value reported with `decimals = dec` is
/// multiplied: `-dec` (which wraps around for `i32::MIN`), kept within `-18..=18`.
pub open spec fn scale_exponent(dec: i32) -> int {
    let n: int = if dec == i32::MIN {
        dec as int
    } else {
        -dec
    };
    if n < -18 {
        -18
    } else if n > 18 {
        18
    } else {
        n
    }
}

/// `x` brought into the range of `i64`, as saturating arithmetic does.
pub open spec fn saturate(x: int) -> i64 {
    if x > i64::MAX {
        i64::MAX
    } else if x < i64::MIN {
        i64::MIN
    } else {
        x as i64
    }
}

/// Integer division rounding toward zero, as `/` on Rust integers.
pub open spec fn div_toward_zero(a: int, b: int) -> int {
    if a >= 0 {
        a / b
    } else {
        -((-a) / b)
    }
}

/// A raw reported value brought to units by its `decimals` attribute.
pub open spec fn scaled(raw: i64, dec: i32) -> i64 {
    let e = scale_exponent(dec);
    if e > 0 {
        saturate(raw * pow10(e as nat))
    } else if e < 0 {
        div_toward_zero(raw as int, pow10((-e) as nat)) as i64
    } else {
        raw
    }
}

proof fn lemma_pow10_mono(a: nat, b: nat)
    requires
        a <= b,
    ensures
        1 <= pow10(a) <= pow10(b),
    decreases b,
{
    if b > a {
        lemma_pow10_mono(a, (b - 1) as nat);
    } else if a > 0 {
        lemma_pow10_mono((a - 1) as nat, (a - 1) as nat);
    }
}

proof fn lemma_pow10_bounds(e: nat)
    ensures
        1 <= pow10(e),
        e <= 18 ==> pow10(e) <= 1_000_000_000_000_000_000,
{
    if e <= 18 {
        lemma_pow10_mono(e, 18);
        reveal_with_fuel(pow10, 19);
    } else {
        lemma_pow10_mono(e, e);
    }
}

fn ten_to(e: u32) -> (p: i64)
    requires
        e <= 18,
    ensures
        p == pow10(e as nat),
{
    let mut p: i64 = 1;
    let mut k: u32 = 0;
    while k < e
        invariant
            k <= e <= 18,
            p == pow10(k as nat),
        decreases e - k,
    {
        proof {
            lemma_pow10_bounds(k as nat);
            lemma_pow10_bounds((k + 1) as nat);
        }
        p = p * 10;
        k = k + 1;
    }
    p
}

/// A raw value scaled by its `decimals` attribute, saturating on overflow.
pub fn apply_scale(raw: i64, dec: i32) -> (r: i64)
    ensures
        r == scaled(raw, dec),
{
    let n: i32 = if dec == i32::MIN {
        dec
    } else {
        -dec
    };
    let e: i32 = if n < -18 {
        -18
    } else if n > 18 {
        18
    } else {
        n
    };
    if e > 0 {
        let p = ten_to(e as u32);
        proof {
            lemma_pow10_bounds(e as nat);
        }
        match raw.checked_mul(p) {
            Some(v) => v,
            None => {
                if raw > 0 {
                    assert(raw * p > 0) by (nonlinear_arith)
                        requires
                            raw > 0,
                            p > 0,
                    ;
                    i64::MAX
                } else {
                    assert(raw * p <= 0) by (nonlinear_arith)
                        requires
                            raw <= 0,
                            p > 0,
                    ;
                    i64::MIN
                }
            },
        }
    } else if e < 0 {
        let p = ten_to((-e) as u32);
        proof {
            lemma_pow10_bounds((-e) as nat);
        }
        let a: i128 = raw as i128;
        let q: i128 = if a >= 0 {
            a / (p as i128)
        } else {
            -((-a) / (p as i128))
        };
        q as i64
    } else {
        raw
    }
}


/// A figure read from the instance: element name, context reference, value.
pub struct XbrlFact {
    pub name: String,
    pub context: String,
    pub value: i64,
}

impl View for XbrlFact {
    type V = (Seq<char>, Seq<char>, i64);

    open spec fn view(&self) -> (Seq<char>, Seq<char>, i64) {
        (self.name@, self.context@, self.value)
    }
}

pub open spec fn facts_view(v: Seq<XbrlFact>) -> Seq<(Seq<char>, Seq<char>, i64)> {
    v.map_values(|f: XbrlFact| f@)
}

/// The attributes of a start tag as the reading uses them: the context
/// reference, the `decimals` value (0 where it does not parse as an `i32`) and
/// whether the value is nil; where a key repeats, the last one counts;
/// malformed attributes are skipped.
pub open spec fn attr_info(attrs: Seq<Option<(Seq<char>, Seq<char>)>>) -> (Seq<char>, i32, bool)
    decreases attrs.len(),
{
    if attrs.len() == 0 {
        (seq![], 0i32, false)
    } else {
        let acc = attr_info(attrs.drop_last());
        let (k, v) = match attrs.last() {
            Some(kv) => kv,
            None => (seq![], seq![]),
        };
        if attrs.last() is None {
            acc
        } else if k == "contextRef"@ {
            (v, acc.1, acc.2)
        } else if k == "decimals"@ {
            (
                acc.0,
                match parsed_int(v, i32::MIN as int, i32::MAX as int) {
                    Some(d) => d as i32,
                    None => 0i32,
                },
                acc.2,
            )
        } else if k == "nil"@ {
            (acc.0, acc.1, v == "true"@)
        } else {
            acc
        }
    }
}

/// The element being read (name, context, decimals), if any, and the facts so far.
pub type ReadState = (Option<(Seq<char>, Seq<char>, i32)>, Seq<(Seq<char>, Seq<char>, i64)>);

/// How one event changes the reading: a start tag of a wanted element with a
/// context and no nil opens it; text of an open element that parses as an
/// `i64` records a fact (scaled) and closes it, other non-empty text closes it;
/// an end tag closes it; all else leaves the state as it is.
pub open spec fn read_step(st: ReadState, ev: XmlEventView) -> ReadState {
    match ev {
        XmlEventView::Start(name, attrs) => {
            let (ctx, dec, nil) = attr_info(attrs);
            if is_target_name(name) && !nil && ctx.len() > 0 {
                (Some((name, ctx, dec)), st.1)
            } else {
                st
            }
        },
        XmlEventView::Text(t) => match st.0 {
            None => st,
            Some((name, ctx, dec)) => {
                let text = match t {
                    Some(s) => trim(s),
                    None => seq![],
                };
                if text.len() == 0 {
                    st
                } else {
                    match parsed_int(text, i64::MIN as int, i64::MAX as int) {
                        Some(raw) => (None, st.1.push((name, ctx, scaled(raw as i64, dec)))),
                        None => (None, st.1),
                    }
                }
            },
        },
        XmlEventView::End => (None, st.1),
        _ => st,
    }
}

/// Text of an open wanted element whose trimmed form is an integer in the
/// range of `i64`, negative or not, records that value (scaled by the
/// element's `decimals`) as a fact of the element and its context, and closes
/// the element.
pub proof fn lemma_value_recorded(st: ReadState, s: Seq<char>, raw: int)
    requires
        st.0 is Some,
        spelled_int(trim(s)) == Some(raw),
        i64::MIN <= raw <= i64::MAX,
    ensures
        read_step(st, XmlEventView::Text(Some(s))) == (
            None::<(Seq<char>, Seq<char>, i32)>,
            st.1.push(((st.0->0).0, (st.0->0).1, scaled(raw as i64, (st.0->0).2))),
        ),
{
    assert(trim(s).len() > 0);
}

/// The state after the first `n` events.
pub open spec fn read_events(evs: Seq<XmlEventView>, n: nat) -> ReadState
    decreases n,
{
    if n == 0 {
        (None, seq![])
    } else {
        read_step(read_events(evs, (n - 1) as nat), evs[n - 1])
    }
}

/// The facts of an XBRL instance, in document order.
pub open spec fn xbrl_facts(xml: Seq<char>) -> Seq<(Seq<char>, Seq<char>, i64)> {
    let evs = xml_events(xml);
    read_events(evs, (evs.len() - 1) as nat).1
}

fn attributes_of(attrs: &Vec<Option<(String, String)>>) -> (r: (String, i32, bool))
    ensures
        (r.0@, r.1, r.2) == attr_info(attrs.deep_view()),
{
    let mut ctx = String::new();
    let mut dec: i32 = 0;
    let mut nil = false;
    let mut i: usize = 0;
    while i < attrs.len()
        invariant
            i <= attrs@.len(),
            (ctx@, dec, nil) == attr_info(attrs.deep_view().take(i as int)),
        decreases attrs@.len() - i,
    {
        assert(attrs.deep_view().take(i + 1).drop_last() =~= attrs.deep_view().take(i as int));
        assert(attrs.deep_view().take(i + 1).last() == attrs.deep_view()[i as int]);
        let (k, v) = match &attrs[i] {
            Some(kv) => (&kv.0, &kv.1),
            None => {
                i = i + 1;
                continue;
            },
        };
        if text_eq(k.as_str(), "contextRef") {
            ctx = v.clone();
        } else if text_eq(k.as_str(), "decimals") {
            dec = match parse_int(&chars_of(v.as_str()), i32::MIN as i64, i32::MAX as i64) {
                Some(d) => d as i32,
                None => 0,
            };
        } else if text_eq(k.as_str(), "nil") {
            nil = text_eq(v.as_str(), "true");
        }
        i = i + 1;
    }
    assert(attrs.deep_view().take(i as int) =~= attrs.deep_view());
    (ctx, dec, nil)
}

pub open spec fn current_view(c: Option<(String, String, i32)>) -> Option<(Seq<char>, Seq<char>, i32)> {
    match c {
        Some((n, x, d)) => Some((n@, x@, d)),
        None => None,
    }
}

/// The reading of an instance's events, one at a time.
pub struct FactReader {
    /// The element being read, if any: (name, context, decimals).
    pub current: Option<(String, String, i32)>,
    /// The facts read so far.
    pub facts: Vec<XbrlFact>,
}

impl FactReader {
    pub open spec fn state(&self) -> ReadState {
        (current_view(self.current), facts_view(self.facts@))
    }

    /// A reading that has seen no event.
    pub fn new() -> (r: FactReader)
        ensures
            r.state() == read_events(seq![], 0),
    {
        let r = FactReader { current: None, facts: Vec::new() };
        assert(r.state().1 =~= seq![]);
        r
    }

    /// Takes in one event, as [`read_step`] says.
    pub fn read(&mut self, ev: XmlEvent)
        ensures
            final(self).state() == read_step(old(self).state(), ev@),
    {
        let ghost before = self.state();
        match ev {
            XmlEvent::Start(local, attrs) => {
                if is_target(local.as_str()) {
                    let (ctx, dec, nil) = attributes_of(&attrs);
                    if !nil && !ctx.as_str().is_empty() {
                        self.current = Some((local, ctx, dec));
                    }
                }
            },
            XmlEvent::Text(t) => {
                if self.current.is_some() {
                    let text = match &t {
                        Some(s) => trim_chars(&chars_of(s.as_str())),
                        None => Vec::new(),
                    };
                    if text.len() > 0 {
                        match parse_int(&text, i64::MIN, i64::MAX) {
                            Some(raw) => {
                                let (name, ctx, dec) = self.current.take().unwrap();
                                let value = apply_scale(raw, dec);
                                self.facts.push(XbrlFact { name, context: ctx, value });
                                assert(facts_view(self.facts@) =~= before.1.push(self.facts@.last()@));
                            },
                            None => {
                                self.current = None;
                            },
                        }
                    }
                }
            },
            XmlEvent::End => {
                self.current = None;
            },
            XmlEvent::Other => {},
            XmlEvent::Stop => {},
        }
    }
}

/// The facts of an XBRL instance: each wanted element with a context, not nil,
/// whose trimmed text parses as an `i64`, scaled by its `decimals`.
pub fn parse_xbrl(xml: &str) -> (facts: Vec<XbrlFact>)
    ensures
        facts_view(facts@) == xbrl_facts(xml@),
{
    let mut rdr = open_xml(xml);
    let ghost evs = pending_events(rdr);
    let mut reader = FactReader::new();
    let ghost mut n: nat = 0;
    assert(evs.skip(0) =~= evs);
    loop
        invariant_except_break
            n < evs.len(),
            pending_events(rdr) == evs.skip(n as int),
            reader.state() == read_events(evs, n),
        invariant
            evs == xml_events(xml@),
            stops_once_at_end(evs),
        ensures
            reader.state().1 == read_events(evs, (evs.len() - 1) as nat).1,
        decreases evs.len() - n,
    {
        let ev = next_event(&mut rdr);
        assert(ev@ == evs[n as int]);
        if let XmlEvent::Stop = ev {
            assert(n == evs.len() - 1);
            break;
        }
        reader.read(ev);
        proof {
            n = n + 1;
            assert(evs.skip(n - 1).drop_first() =~= evs.skip(n as int));
        }
    }
    reader.facts
}

/// The facts about element `t`, in order.
pub open spec fn facts_named(facts: Seq<(Seq<char>, Seq<char>, i64)>, t: Seq<char>) -> Seq<
    (Seq<char>, Seq<char>, i64),
>
    decreases facts.len(),
{
    if facts.len() == 0 {
        seq![]
    } else {
        let r = facts_named(facts.drop_last(), t);
        if facts.last().0 == t {
            r.push(facts.last())
        } else {
            r
        }
    }
}

/// The candidates for one item of the row: for each of its element names in
/// order, the facts about that element in order.
pub open spec fn candidates(facts: Seq<(Seq<char>, Seq<char>, i64)>, tags: Seq<Seq<char>>) -> Seq<
    (Seq<char>, Seq<char>, i64),
>
    decreases tags.len(),
{
    if tags.len() == 0 {
        seq![]
    } else {
        candidates(facts, tags.drop_last()) + facts_named(facts, tags.last())
    }
}

/// The index of the last candidate whose context scores highest.
pub open spec fn best_index(c: Seq<(Seq<char>, Seq<char>, i64)>) -> int
    decreases c.len(),
{
    if c.len() <= 1 {
        0
    } else {
        let b = best_index(c.drop_last());
        if context_score(c.last().1) >= context_score(c[b].1) {
            c.len() - 1
        } else {
            b
        }
    }
}

/// The value chosen for an item: that of its best-scored candidate, if any.
pub open spec fn picked(facts: Seq<(Seq<char>, Seq<char>, i64)>, tags: Seq<Seq<char>>) -> Option<
    i64,
> {
    let c = candidates(facts, tags);
    if c.len() == 0 {
        None
    } else {
        Some(c[best_index(c)].2)
    }
}

/// The chosen candidate is the last one of highest context score.
pub proof fn lemma_best_index(c: Seq<(Seq<char>, Seq<char>, i64)>)
    requires
        c.len() > 0,
    ensures
        0 <= best_index(c) < c.len(),
        forall|j: int|
            0 <= j < c.len() ==> context_score(#[trigger] c[j].1) <= context_score(
                c[best_index(c)].1,
            ),
        forall|j: int|
            best_index(c) < j < c.len() ==> context_score(#[trigger] c[j].1) < context_score(
                c[best_index(c)].1,
            ),
    decreases c.len(),
{
    if c.len() > 1 {
        let d = c.drop_last();
        lemma_best_index(d);
        assert forall|j: int| 0 <= j < d.len() implies d[j] == c[j] by {}
    }
}

/// The value of the best-scored fact about the given element names, if any:
/// ties go to the later candidate.
pub fn pick(facts: &Vec<XbrlFact>, tags: &Vec<&'static str>) -> (r: Option<i64>)
    ensures
        r == picked(facts_view(facts@), str_views(tags@)),
{
    let ghost fv = facts_view(facts@);
    let ghost tv = str_views(tags@);
    let mut best: Option<(i32, i64)> = None;
    let ghost mut seen: Seq<(Seq<char>, Seq<char>, i64)> = seq![];
    let mut ti: usize = 0;
    while ti < tags.len()
        invariant
            ti <= tags@.len(),
            fv == facts_view(facts@),
            tv == str_views(tags@),
            seen == candidates(fv, tv.take(ti as int)),
            seen.len() == 0 ==> best is None,
            seen.len() > 0 ==> best == Some(
                (
                    context_score(seen[best_index(seen)].1) as i32,
                    seen[best_index(seen)].2,
                ),
            ),
        decreases tags@.len() - ti,
    {
        let tag = tags[ti];
        let ghost before = seen;
        let mut fi: usize = 0;
        while fi < facts.len()
            invariant
                fi <= facts@.len(),
                fv == facts_view(facts@),
                seen == before + facts_named(fv.take(fi as int), tag@),
                seen.len() == 0 ==> best is None,
                seen.len() > 0 ==> best == Some(
                    (
                        context_score(seen[best_index(seen)].1) as i32,
                        seen[best_index(seen)].2,
                    ),
                ),
            decreases facts@.len() - fi,
        {
            let f = &facts[fi];
            assert(fv.take(fi + 1).drop_last() =~= fv.take(fi as int));
            assert(fv.take(fi + 1).last() == f@);
            if text_eq(f.name.as_str(), tag) {
                let sc = ctx_score(f.context.as_str());
                let ghost old_seen = seen;
                proof {
                    seen = seen.push(f@);
                    assert(seen == before + facts_named(fv.take(fi + 1), tag@));
                    if old_seen.len() > 0 {
                        assert(seen.drop_last() =~= old_seen);
                        lemma_best_index(old_seen);
                        let b = best_index(old_seen);
                        assert(seen[b] == old_seen[b]);
                        assert(best_index(seen) == if context_score(f@.1) >= context_score(
                            old_seen[b].1,
                        ) {
                            seen.len() - 1
                        } else {
                            b
                        });
                    } else {
                        assert(best_index(seen) == 0);
                    }
                }
                match best {
                    Some((bs, _)) => {
                        if sc >= bs {
                            best = Some((sc, f.value));
                        }
                    },
                    None => {
                        best = Some((sc, f.value));
                    },
                }
            }
            fi = fi + 1;
        }
        proof {
            assert(fv.take(fi as int) =~= fv);
            assert(tv.take(ti + 1).drop_last() =~= tv.take(ti as int));
            assert(tv.take(ti + 1).last() == tag@);
        }
        ti = ti + 1;
    }
    assert(tv.take(ti as int) =~= tv);
    match best {
        Some((_, v)) => Some(v),
        None => None,
    }
}

/// One year's figures from an annual report.
pub struct ReportRow {
    pub revenue: i64,
    pub operating_income: i64,
    pub net_income: i64,
    pub assets: i64,
    pub liabilities: i64,
    pub equity: i64,
}

pub open spec fn or_zero(o: Option<i64>) -> i64 {
    match o {
        Some(v) => v,
        None => 0,
    }
}

/// The row of a report: revenue must be found; any other item not found is 0.
pub open spec fn row_of(facts: Seq<(Seq<char>, Seq<char>, i64)>) -> Option<ReportRow> {
    match picked(facts, rev_tags()) {
        None => None,
        Some(rev) => Some(
            ReportRow {
                revenue: rev,
                operating_income: or_zero(picked(facts, ope_tags())),
                net_income: or_zero(picked(facts, net_tags())),
                assets: or_zero(picked(facts, ast_tags())),
                liabilities: or_zero(picked(facts, lia_tags())),
                equity: or_zero(picked(facts, eqt_tags())),
            },
        ),
    }
}

/// The figures of an XBRL instance, or `None` where it reports no revenue.
pub fn xbrl_to_row(xml: &str) -> (r: Option<ReportRow>)
    ensures
        r == row_of(xbrl_facts(xml@)),
{
    let d = parse_xbrl(xml);
    let rev = match pick(&d, &rev_list()) {
        Some(v) => v,
        None => return None,
    };
    Some(
        ReportRow {
            revenue: rev,
            operating_income: pick(&d, &ope_list()).unwrap_or(0),
            net_income: pick(&d, &net_list()).unwrap_or(0),
            assets: pick(&d, &ast_list()).unwrap_or(0),
            liabilities: pick(&d, &lia_list()).unwrap_or(0),
            equity: pick(&d, &eqt_list()).unwrap_or(0),
        },
    )
}

} // verus!

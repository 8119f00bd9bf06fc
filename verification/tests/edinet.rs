use company_analyzer::extract_edinet::{EdinetDoc, ReportSearch, SEARCH_DAYS, WANTED_REPORTS};
use company_analyzer::parse::Data;
use company_analyzer::report_archive::{best_entry, xbrl_from_zip};
use company_analyzer::xbrl::{
    apply_scale, ctx_score, is_target, parse_xbrl, pick, rev_list, xbrl_to_row, FactReader,
    ReportRow, XbrlFact,
};
use company_analyzer::xml_events::XmlEvent;
use std::io::Write;

fn s(x: &str) -> String {
    x.to_string()
}

#[test]
fn apply_scale_by_decimals() {
    assert_eq!(apply_scale(123, -3), 123000);
    assert_eq!(apply_scale(123456, 3), 123);
    assert_eq!(apply_scale(-1500, 3), -1);
    assert_eq!(apply_scale(5, 0), 5);
    assert_eq!(apply_scale(i64::MAX, -1), i64::MAX);
    assert_eq!(apply_scale(i64::MIN, -2), i64::MIN);
    assert_eq!(apply_scale(1, -25), 1_000_000_000_000_000_000);
    assert_eq!(apply_scale(5_000_000_000_000_000_000, 25), 5);
    assert_eq!(apply_scale(5_000_000_000_000_000_000, i32::MIN), 5);
    assert_eq!(apply_scale(2, i32::MAX), 0);
}

#[test]
fn ctx_score_ranks_contexts() {
    assert_eq!(ctx_score("CurrentYearDuration"), 100);
    assert_eq!(ctx_score("CurrentYearDuration_ConsolidatedMember"), 130);
    assert_eq!(ctx_score("CurrentYearInstant_NonConsolidatedMember"), 30);
    assert_eq!(ctx_score("Prior1YearDuration"), -300);
    assert_eq!(ctx_score("PreviousYear"), -300);
    assert_eq!(ctx_score("CurrentYearDuration_ReportableSegmentMember"), 50);
    assert_eq!(ctx_score("IndividualMember"), -100);
    assert_eq!(ctx_score(""), 0);
}

#[test]
fn is_target_knows_the_element_names() {
    assert!(is_target("NetSales"));
    assert!(is_target("OperatingProfitLoss"));
    assert!(is_target("ProfitAttributableToOwnersOfParent"));
    assert!(is_target("TotalAssets"));
    assert!(is_target("TotalLiabilities"));
    assert!(is_target("NetAssets"));
    assert!(!is_target("netsales"));
    assert!(!is_target("CashAndDeposits"));
}

const INSTANCE: &str = r#"<?xml version="1.0" encoding="UTF-8"?>
<xbrli:xbrl xmlns:xbrli="http://www.xbrl.org/2003/instance" xmlns:jppfs="p" xmlns:xsi="i">
  <jppfs:NetSales contextRef="Prior1YearDuration" decimals="0">500</jppfs:NetSales>
  <jppfs:NetSales contextRef="CurrentYearDuration" decimals="-3">1200</jppfs:NetSales>
  <jppfs:OperatingIncome contextRef="CurrentYearDuration" decimals="0"> 300 </jppfs:OperatingIncome>
  <jppfs:Assets contextRef="CurrentYearInstant" xsi:nil="true"></jppfs:Assets>
  <jppfs:Assets contextRef="CurrentYearInstant" decimals="0">9000</jppfs:Assets>
  <jppfs:Liabilities contextRef="CurrentYearInstant_NonConsolidatedMember" decimals="0">100</jppfs:Liabilities>
  <jppfs:Liabilities contextRef="CurrentYearInstant" decimals="0">4000</jppfs:Liabilities>
  <jppfs:NetIncome decimals="0">77</jppfs:NetIncome>
  <jppfs:ProfitLoss contextRef="CurrentYearDuration">n/a</jppfs:ProfitLoss>
  <jppfs:CashAndDeposits contextRef="CurrentYearInstant">66</jppfs:CashAndDeposits>
</xbrli:xbrl>"#;

#[test]
fn parse_xbrl_reads_the_facts() {
    let facts = parse_xbrl(INSTANCE);
    let got: Vec<(String, String, i64)> =
        facts.iter().map(|f| (f.name.clone(), f.context.clone(), f.value)).collect();
    assert_eq!(
        got,
        vec![
            (s("NetSales"), s("Prior1YearDuration"), 500),
            (s("NetSales"), s("CurrentYearDuration"), 1200000),
            (s("OperatingIncome"), s("CurrentYearDuration"), 300),
            (s("Assets"), s("CurrentYearInstant"), 9000),
            (s("Liabilities"), s("CurrentYearInstant_NonConsolidatedMember"), 100),
            (s("Liabilities"), s("CurrentYearInstant"), 4000),
        ]
    );
}

#[test]
fn xbrl_to_row_picks_best_contexts() {
    let row = xbrl_to_row(INSTANCE).unwrap();
    assert_eq!(row.revenue, 1200000);
    assert_eq!(row.operating_income, 300);
    assert_eq!(row.net_income, 0);
    assert_eq!(row.assets, 9000);
    assert_eq!(row.liabilities, 4000);
    assert_eq!(row.equity, 0);
}

#[test]
fn xbrl_to_row_needs_revenue() {
    let xml = r#"<x><a:Assets contextRef="CurrentYearInstant">5</a:Assets></x>"#;
    assert!(xbrl_to_row(xml).is_none());
    assert!(xbrl_to_row("not xml <<").is_none());
    assert!(parse_xbrl("").is_empty());
}

fn fact(name: &str, ctx: &str, value: i64) -> XbrlFact {
    XbrlFact { name: s(name), context: s(ctx), value }
}

#[test]
fn pick_takes_the_last_of_the_best() {
    let facts = vec![
        fact("Revenue", "CurrentYearDuration", 1),
        fact("NetSales", "CurrentYearDuration", 2),
        fact("NetSales", "Prior1YearDuration", 3),
        fact("Assets", "CurrentYearInstant", 4),
    ];
    assert_eq!(pick(&facts, &rev_list()), Some(1));
    assert_eq!(pick(&facts, &vec!["NetSales"]), Some(2));
    assert_eq!(pick(&facts, &vec!["OperatingIncome"]), None);
    assert_eq!(pick(&vec![], &rev_list()), None);
}

fn zip_of(entries: &[(&str, &[u8])]) -> Vec<u8> {
    let mut w = zip::ZipWriter::new(std::io::Cursor::new(Vec::new()));
    for (name, data) in entries {
        w.start_file(*name, zip::write::FileOptions::default()).unwrap();
        w.write_all(data).unwrap();
    }
    w.finish().unwrap().into_inner()
}

#[test]
fn xbrl_from_zip_prefers_the_annual_report() {
    let bytes = zip_of(&[
        ("XBRL/AuditDoc/jpaud-aar-cn-001.xbrl", b"audit report, which is the larger one".as_slice()),
        ("XBRL/PublicDoc/jpcrp030000-asr-001.XBRL", b"main".as_slice()),
        ("XBRL/PublicDoc/manifest.xml", b"<manifest/>".as_slice()),
    ]);
    assert_eq!(xbrl_from_zip(&bytes), Some(s("main")));
}

#[test]
fn xbrl_from_zip_takes_the_largest_otherwise() {
    let bytes = zip_of(&[
        ("a.xbrl", b"small".as_slice()),
        ("b.xbrl", b"the largest one".as_slice()),
        ("c.xbrl", b"middle one".as_slice()),
        ("d.xbrl", b"".as_slice()),
    ]);
    assert_eq!(xbrl_from_zip(&bytes), Some(s("the largest one")));
}

#[test]
fn xbrl_from_zip_refuses_what_it_cannot_use() {
    assert_eq!(xbrl_from_zip(b"hello"), None);
    assert_eq!(xbrl_from_zip(&zip_of(&[("readme.txt", b"x".as_slice())])), None);
    assert_eq!(xbrl_from_zip(&zip_of(&[("empty.xbrl", b"".as_slice())])), None);
}

#[test]
fn xbrl_from_zip_reads_bytes_lossily() {
    let bytes = zip_of(&[("x-asr.xbrl", b"ok\xffok".as_slice())]);
    assert_eq!(xbrl_from_zip(&bytes), Some(s("ok\u{fffd}ok")));
}

fn doc(form: &str, sec: &str, id: &str, end: &str) -> EdinetDoc {
    EdinetDoc {
        form_code: Some(s(form)),
        sec_code: Some(s(sec)),
        doc_id: Some(s(id)),
        period_end: Some(s(end)),
    }
}

#[test]
fn report_search_collects_one_report_a_year() {
    let mut search = ReportSearch::new("7203");
    assert_eq!(search.pending_day(), Some(0));
    search.step(&vec![
        doc("030000", "72030", "S1", "2024-03-31"),
        doc("030000", "72030", "S2", "2024-06-30"),
        doc("120000", "72030", "Q1", "2023-12-31"),
        doc("030000", "99990", "X1", "2023-03-31"),
        doc("030000", "7203", "", "2022-03-31"),
        doc("030000", "7203", "S9", "24"),
        EdinetDoc { form_code: None, sec_code: Some(s("72030")), doc_id: Some(s("N")), period_end: Some(s("2021-03-31")) },
    ]);
    assert_eq!(search.found, vec![(s("2024-03-31"), s("S1"))]);
    assert_eq!(search.day, 1);
    assert_eq!(search.pending_day(), Some(1));
    search.step(&vec![]);
    search.step(&vec![
        doc("030000", "7203", "S3", "2022-03-31"),
        doc("030000", "72030", "S4", "2023-03-31"),
        doc("030000", "72030", "S5", "2020-03-31"),
    ]);
    assert_eq!(search.pending_day(), Some(3));
    search.step(&vec![
        doc("030000", "72030", "S6", "2021-03-31"),
        doc("030000", "72030", "S7", "2019-03-31"),
    ]);
    assert_eq!(search.found.len(), 6);
    assert_eq!(search.pending_day(), None);
    assert_eq!(
        search.finish(),
        vec![
            (s("S1"), s("2024-03-31")),
            (s("S4"), s("2023-03-31")),
            (s("S3"), s("2022-03-31")),
            (s("S6"), s("2021-03-31")),
            (s("S5"), s("2020-03-31")),
        ]
    );
}

#[test]
fn report_search_gives_up_after_its_days() {
    let mut search = ReportSearch::new("1234");
    let mut days = 0u64;
    while let Some(d) = search.pending_day() {
        assert_eq!(d, days);
        search.step(&vec![]);
        days += 1;
    }
    assert_eq!(days, SEARCH_DAYS);
    assert_eq!(WANTED_REPORTS, 5);
    assert!(search.finish().is_empty());
}

fn row(revenue: i64, assets: i64, liabilities: i64, equity: i64) -> ReportRow {
    ReportRow { revenue, operating_income: revenue / 10, net_income: revenue / 20, assets, liabilities, equity }
}

#[test]
fn from_reports_sorts_latest_first_and_fills_equity() {
    let rows = vec![
        (s("2023-03-31"), row(1000, 500, 300, 0)),
        (s("2024-03-31"), row(2000, 800, 500, 250)),
        (s("2022-03-31"), row(900, 0, 100, 0)),
    ];
    let d = Data::from_reports(&rows);
    let dates: Vec<String> = d.revenues.iter().map(|e| e.0.clone()).collect();
    assert_eq!(dates, vec![s("2024-03-31"), s("2023-03-31"), s("2022-03-31")]);
    assert_eq!(d.revenues.iter().map(|e| e.1).collect::<Vec<_>>(), vec![2000, 1000, 900]);
    assert_eq!(d.operatingincomeloss.iter().map(|e| e.1).collect::<Vec<_>>(), vec![200, 100, 90]);
    assert_eq!(d.netincomeloss.iter().map(|e| e.1).collect::<Vec<_>>(), vec![100, 50, 45]);
    assert_eq!(d.assets.iter().map(|e| e.1).collect::<Vec<_>>(), vec![800, 500, 0]);
    assert_eq!(d.liabilities.iter().map(|e| e.1).collect::<Vec<_>>(), vec![500, 300, 100]);
    assert_eq!(d.stockholdersequity.iter().map(|e| e.1).collect::<Vec<_>>(), vec![250, 200, 0]);
}

#[test]
fn empty_data_has_no_figures() {
    let d = Data::empty();
    assert!(d.revenues.is_empty() && d.assets.is_empty() && d.stockholdersequity.is_empty());
}

fn attr(k: &str, v: &str) -> Option<(String, String)> {
    Some((s(k), s(v)))
}

fn read_facts(events: Vec<XmlEvent>) -> Vec<(String, String, i64)> {
    let mut r = FactReader::new();
    for ev in events {
        r.read(ev);
    }
    r.facts.iter().map(|f| (f.name.clone(), f.context.clone(), f.value)).collect()
}

#[test]
fn fact_reader_follows_the_events() {
    let got = read_facts(vec![
        XmlEvent::Start(s("NetSales"), vec![attr("contextRef", "CurrentYearDuration"), None, attr("decimals", "-3")]),
        XmlEvent::Text(Some(s(" 12 "))),
        XmlEvent::Text(Some(s("13"))),
        XmlEvent::Start(s("Assets"), vec![attr("contextRef", "X"), attr("nil", "true")]),
        XmlEvent::Text(Some(s("5"))),
        XmlEvent::Start(s("Assets"), vec![attr("contextRef", "X")]),
        XmlEvent::Text(None),
        XmlEvent::Other,
        XmlEvent::End,
        XmlEvent::Text(Some(s("7"))),
        XmlEvent::Start(s("Liabilities"), vec![attr("contextRef", "C"), attr("decimals", "x")]),
        XmlEvent::Text(Some(s("abc"))),
        XmlEvent::Text(Some(s("8"))),
        XmlEvent::Start(s("Liabilities"), vec![attr("contextRef", "C"), attr("contextRef", "D")]),
        XmlEvent::Text(Some(s("9"))),
        XmlEvent::Start(s("Unknown"), vec![attr("contextRef", "C")]),
        XmlEvent::Text(Some(s("10"))),
        XmlEvent::Stop,
    ]);
    assert_eq!(
        got,
        vec![
            (s("NetSales"), s("CurrentYearDuration"), 12000),
            (s("Liabilities"), s("D"), 9),
        ]
    );
}

#[test]
fn fact_reader_keeps_element_open_until_a_value() {
    let got = read_facts(vec![
        XmlEvent::Start(s("Assets"), vec![attr("contextRef", "X"), attr("decimals", "2")]),
        XmlEvent::Start(s("Unknown"), vec![]),
        XmlEvent::Text(Some(s("   "))),
        XmlEvent::Text(Some(s("12345"))),
    ]);
    assert_eq!(got, vec![(s("Assets"), s("X"), 123)]);
}

fn header(name: &str, size: usize) -> Option<(String, usize)> {
    Some((s(name), size))
}

#[test]
fn best_entry_ranks_headers() {
    let hs = vec![header("a.xbrl", 5), None, header("x-asr.xbrl", 0), header("b.xbrl", 9)];
    assert_eq!(best_entry(&hs), Some(2));
    let hs = vec![header("a.xbrl", 5), header("b.xbrl", 5), header("c.txt", 100)];
    assert_eq!(best_entry(&hs), Some(0));
    let hs = vec![header("a.xbrl", 5), header("jpcrp030000-1.xbrl", 1), header("z-asr.xbrl", 2)];
    assert_eq!(best_entry(&hs), Some(2));
    assert_eq!(best_entry(&vec![]), None);
    assert_eq!(best_entry(&vec![header("empty.xbrl", 0), None]), None);
    assert_eq!(best_entry(&vec![header("A.XBRL", 5)]), None);
}

#[test]
fn from_reports_net_assets_wrap_around() {
    let rows = vec![(s("2024-03-31"), row(1, i64::MAX, -1, 0))];
    let d = Data::from_reports(&rows);
    assert_eq!(d.stockholdersequity, vec![(s("2024-03-31"), i64::MIN)]);
}

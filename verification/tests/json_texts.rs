use company_analyzer::extract::cik_of;
use company_analyzer::extract_edinet::{cached_reports, day_documents, index_text};
use company_analyzer::parse::Data;
use company_analyzer::xbrl::ReportRow;

fn s(x: &str) -> String {
    x.to_string()
}

fn series(v: &[(&str, i64)]) -> Vec<(String, i64)> {
    v.iter().map(|(d, x)| (d.to_string(), *x)).collect()
}

const FACTS: &str = r#"{"cik":1,"entityName":"X","facts":{"dei":{},"us-gaap":{
  "Assets":{"units":{"USD":[
    {"end":"2022-12-31","val":90,"form":"10-K","fp":"FY"},
    {"end":"2023-12-31","val":100,"form":"10-K","fp":"FY"},
    {"end":"2023-06-30","val":95,"form":"10-Q","fp":"Q2"}]}},
  "Liabilities":{"units":{"USD":[{"end":"2023-12-31","val":40,"form":"10-K","fp":"FY"}]}},
  "Revenues":{"units":{"EUR":[{"end":"2023-12-31","val":7,"form":"10-K","fp":"FY"}]}},
  "NetIncomeLoss":{"units":{"USD":[{"end":"2023-12-31","val":1.5,"form":"10-K","fp":"FY"}]}}
}}}"#;

#[test]
fn from_facts_text_reads_the_company_facts() {
    let d = Data::from_facts_text(FACTS).unwrap();
    assert_eq!(d.assets, series(&[("2023-12-31", 100), ("2022-12-31", 90)]));
    assert_eq!(d.liabilities, series(&[("2023-12-31", 40)]));
    assert_eq!(d.stockholdersequity, series(&[("2023-12-31", 60)]));
    assert!(d.revenues.is_empty());
    assert_eq!(d.netincomeloss, series(&[("2023-12-31", 0)]));
}

#[test]
fn from_facts_text_without_us_gaap_is_empty() {
    let d = Data::from_facts_text(r#"{"facts":{"us-gaap":[1,2]}}"#).unwrap();
    assert!(d.assets.is_empty() && d.revenues.is_empty() && d.stockholdersequity.is_empty());
    assert!(Data::from_facts_text("{}").is_some());
    assert!(Data::from_facts_text("not json").is_none());
}

const TICKERS: &str = r#"{"0":{"cik_str":320193,"ticker":"AAPL","title":"Apple Inc."},
"1":{"cik_str":789019,"ticker":"MSFT","title":"Microsoft"},
"2":{"ticker":"NOCIK"}}"#;

#[test]
fn cik_of_reads_the_ticker_list() {
    assert_eq!(cik_of(TICKERS, "AAPL"), Some(s("0000320193")));
    assert_eq!(cik_of(TICKERS, "MSFT"), Some(s("0000789019")));
    assert_eq!(cik_of(TICKERS, "NVDA"), Some(s("")));
    assert_eq!(cik_of(TICKERS, "NOCIK"), None);
    assert_eq!(cik_of("[1]", "AAPL"), None);
    assert_eq!(cik_of("{", "AAPL"), None);
}

#[test]
fn load_cache_keeps_well_formed_pairs() {
    let text = r#"{"revenues":[["2024-03-31",2000,"x"],["2023-03-31",1000],[1,2],"x",["2022-03-31","n"],[7]],
        "assets":[["2024-03-31",5]],"liabilities":null}"#;
    let d = Data::load_cache(text).unwrap();
    assert_eq!(d.revenues, series(&[("2024-03-31", 2000), ("2023-03-31", 1000)]));
    assert_eq!(d.assets, series(&[("2024-03-31", 5)]));
    assert!(d.liabilities.is_empty() && d.netincomeloss.is_empty());
    assert!(d.operatingincomeloss.is_empty() && d.stockholdersequity.is_empty());
}

#[test]
fn load_cache_refuses_what_it_cannot_read() {
    assert!(Data::load_cache("nope").is_none());
    assert!(Data::load_cache(r#"{"revenues":[[]]}"#).is_none());
    assert!(Data::load_cache(r#"{"assets":[["2024-03-31"]]}"#).is_none());
    assert!(Data::load_cache("[]").is_some());
}

#[test]
fn cache_text_reads_back() {
    let row = ReportRow { revenue: 10, operating_income: 2, net_income: 1, assets: 50, liabilities: 20, equity: 0 };
    let d = Data::from_reports(&vec![(s("2024-03-31"), row)]);
    let text = d.cache_text().unwrap();
    assert!(text.starts_with(r#"{"assets":[["2024-03-31",50]]"#));
    let back = Data::load_cache(&text).unwrap();
    assert_eq!(back.revenues, d.revenues);
    assert_eq!(back.operatingincomeloss, d.operatingincomeloss);
    assert_eq!(back.netincomeloss, d.netincomeloss);
    assert_eq!(back.assets, d.assets);
    assert_eq!(back.liabilities, d.liabilities);
    assert_eq!(back.stockholdersequity, series(&[("2024-03-31", 30)]));
}

#[test]
fn index_cache_texts() {
    let found = vec![(s("S1"), s("2024-03-31")), (s("S2"), s("2023-03-31"))];
    let text = index_text(&found).unwrap();
    assert_eq!(text, r#"[["S1","2024-03-31"],["S2","2023-03-31"]]"#);
    assert_eq!(cached_reports(&text), Some(found));
    assert_eq!(cached_reports("[]"), None);
    assert_eq!(cached_reports(r#"[["a"]]"#), None);
    assert_eq!(cached_reports("x"), None);
}

#[test]
fn day_documents_reads_the_list() {
    let text = r#"{"metadata":{},"results":[
        {"docID":"S1","formCode":"030000","secCode":"72030","periodEnd":"2024-03-31"},
        {"docID":null,"formCode":30000}]}"#;
    let docs = day_documents(text);
    assert_eq!(docs.len(), 2);
    assert_eq!(docs[0].doc_id, Some(s("S1")));
    assert_eq!(docs[0].form_code, Some(s("030000")));
    assert_eq!(docs[0].sec_code, Some(s("72030")));
    assert_eq!(docs[0].period_end, Some(s("2024-03-31")));
    assert!(docs[1].doc_id.is_none() && docs[1].form_code.is_none());
    assert!(docs[1].sec_code.is_none() && docs[1].period_end.is_none());
    assert!(day_documents(r#"{"results":null}"#).is_empty());
    assert!(day_documents("bad").is_empty());
}

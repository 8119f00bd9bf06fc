use company_analyzer::calculate::{
    dated_years, dupont, find_year, match_years, raw_cell_text, sorted_years, yoy_growth,
};
use company_analyzer::dated::{in_year, same_year, sort_by_date_asc, sort_by_date_desc, year_prefix};
use company_analyzer::parse::{extract_latest, Concept, Data, FactRecord};

fn s(x: &str) -> String {
    x.to_string()
}

fn series(v: &[(&str, i64)]) -> Vec<(String, i64)> {
    v.iter().map(|(d, x)| (d.to_string(), *x)).collect()
}

fn annual(end: &str, val: i64) -> FactRecord {
    FactRecord { form: Some(s("10-K")), fp: Some(s("FY")), end: Some(s(end)), val: Some(val) }
}

fn concept(name: &str, recs: Vec<FactRecord>) -> Concept {
    Concept { name: s(name), usd: Some(recs) }
}

#[test]
fn extract_latest_keeps_five_latest_annual_values() {
    let recs = vec![
        annual("2021-12-31", 1),
        FactRecord { form: Some(s("10-Q")), fp: Some(s("Q1")), end: Some(s("2022-03-31")), val: Some(99) },
        annual("2022-12-31", 2),
        annual("2022-12-31", 22),
        annual("2019-12-31", -5),
        FactRecord { form: Some(s("10-K")), fp: Some(s("FY")), end: Some(s("2020-12-31")), val: None },
        annual("2018-12-31", 7),
        annual("2017-12-31", 8),
        FactRecord { form: Some(s("10-K")), fp: Some(s("Q4")), end: Some(s("2023-12-31")), val: Some(9) },
    ];
    let cs = vec![concept("Other", vec![annual("2030-12-31", 5)]), concept("NetIncomeLoss", recs)];
    let r = extract_latest(&cs, "NetIncomeLoss");
    assert_eq!(
        r,
        series(&[
            ("2022-12-31", 2),
            ("2021-12-31", 1),
            ("2020-12-31", 0),
            ("2019-12-31", -5),
            ("2018-12-31", 7),
        ])
    );
}

#[test]
fn extract_latest_of_missing_concept_is_empty() {
    let cs = vec![
        concept("Assets", vec![annual("2022-12-31", 1)]),
        Concept { name: s("Liabilities"), usd: None },
    ];
    assert!(extract_latest(&cs, "Revenues").is_empty());
    assert!(extract_latest(&cs, "Liabilities").is_empty());
    assert!(extract_latest(&vec![], "Assets").is_empty());
}

#[test]
fn extract_latest_missing_end_sorts_first() {
    let recs = vec![
        annual("2022-12-31", 2),
        FactRecord { form: Some(s("10-K")), fp: Some(s("FY")), end: None, val: Some(3) },
    ];
    let r = extract_latest(&vec![concept("Assets", recs)], "Assets");
    assert_eq!(r, series(&[("2022-12-31", 2), ("", 3)]));
}

#[test]
fn data_new_takes_the_concept_with_latest_data() {
    let cs = vec![
        concept("Revenues", vec![annual("2019-12-31", 10), annual("2020-12-31", 11)]),
        concept(
            "RevenueFromContractWithCustomerExcludingAssessedTax",
            vec![annual("2022-12-31", 30), annual("2023-12-31", 31)],
        ),
        concept("NetIncomeLoss", vec![annual("2023-12-31", 5)]),
        concept("NetIncomeLossAvailableToCommonStockholdersBasic", vec![annual("2023-12-31", 4)]),
        concept("OperatingLoss", vec![annual("2023-12-31", -3)]),
        concept("Assets", vec![annual("2023-12-31", 100), annual("2022-12-31", 90)]),
        concept("LiabilitiesCurrent", vec![annual("2023-12-31", 40)]),
        concept("Liabilities", vec![annual("2022-12-31", 50)]),
    ];
    let d = Data::new(&cs);
    assert_eq!(d.revenues, series(&[("2023-12-31", 31), ("2022-12-31", 30)]));
    assert_eq!(d.netincomeloss, series(&[("2023-12-31", 5)]));
    assert_eq!(d.operatingincomeloss, series(&[("2023-12-31", -3)]));
    assert_eq!(d.assets, series(&[("2023-12-31", 100), ("2022-12-31", 90)]));
    assert_eq!(d.liabilities, series(&[("2023-12-31", 40)]));
    assert_eq!(d.stockholdersequity, series(&[("2023-12-31", 60)]));
}

#[test]
fn data_new_prefers_reported_equity() {
    let cs = vec![
        concept("Assets", vec![annual("2023-12-31", 100)]),
        concept("Liabilities", vec![annual("2023-12-31", 40)]),
        concept("StockholdersEquity", vec![annual("2023-12-31", 55)]),
    ];
    let d = Data::new(&cs);
    assert_eq!(d.stockholdersequity, series(&[("2023-12-31", 55)]));
    assert!(d.revenues.is_empty());
}

#[test]
fn data_new_equity_saturates() {
    let cs = vec![
        concept("Assets", vec![annual("2023-12-31", i64::MAX)]),
        concept("Liabilities", vec![annual("2023-12-31", -10)]),
    ];
    let d = Data::new(&cs);
    assert_eq!(d.stockholdersequity, series(&[("2023-12-31", i64::MAX)]));
}

#[test]
fn match_years_pairs_by_year() {
    let base = series(&[("2023-12-31", 10), ("2022-12-31", 20), ("19", 5), ("2021-12-31", 7)]);
    let other = series(&[("2022-06-30", 200), ("2023-01-01", 100), ("2023-12-31", 999)]);
    assert_eq!(
        match_years(&base, &other),
        vec![(s("2023"), 10, 100), (s("2022"), 20, 200)]
    );
}

#[test]
fn yoy_growth_pairs_consecutive_years() {
    let vals = series(&[("2023-12-31", 150), ("2021-12-31", 100), ("2022-12-31", 120)]);
    assert_eq!(yoy_growth(&vals), vec![(s("2022"), 120, 100), (s("2023"), 150, 120)]);
    let same = series(&[("2022-12-31", 2), ("2022-06-30", 1), ("2023-12-31", 4)]);
    assert_eq!(yoy_growth(&same), vec![(s("2023"), 4, 2)]);
    assert!(yoy_growth(&series(&[("2023-12-31", 1)])).is_empty());
    assert!(yoy_growth(&vec![]).is_empty());
}

#[test]
fn yoy_growth_needs_the_year_before() {
    let gap = series(&[("2020-12-31", 100), ("2022-12-31", 150)]);
    assert!(yoy_growth(&gap).is_empty());
    let vals = series(&[("2019-12-31", 10), ("2021-12-31", 30), ("2022-12-31", 33), ("abcd", 7)]);
    assert_eq!(yoy_growth(&vals), vec![(s("2022"), 33, 30)]);
    let century = series(&[("1999-12-31", 5), ("2000-12-31", 6)]);
    assert_eq!(yoy_growth(&century), vec![(s("2000"), 6, 5)]);
}

#[test]
fn dupont_joins_three_series() {
    let npm = vec![(s("2023"), 1.0f64), (s("2022"), 2.0)];
    let at = vec![(s("2022"), 3.0f64)];
    let em = vec![(s("2022"), 4.0f64), (s("2022"), 5.0)];
    assert_eq!(dupont(&npm, &at, &em), vec![(s("2022"), 2.0, 3.0, 4.0)]);
}

#[test]
fn raw_cell_text_writes_the_amount() {
    let vals = series(&[("2023-12-31", -1234), ("2023-06-30", 5), ("2022-12-31", 1234567)]);
    assert_eq!(raw_cell_text(&vals, "2023"), (s("-1,234"), true));
    assert_eq!(raw_cell_text(&vals, "2022"), (s("1,234,567"), false));
    assert_eq!(raw_cell_text(&vals, "2020"), (s("N/A"), false));
}

#[test]
fn find_year_finds_first_entry() {
    let v = vec![(s("2023"), 1.5f64), (s("2023"), 2.5), (s("2022"), 3.5)];
    assert_eq!(find_year(&v, "2023"), Some(1.5));
    assert_eq!(find_year(&v, "2022"), Some(3.5));
    assert_eq!(find_year(&v, "2021"), None);
}

#[test]
fn years_of_the_table() {
    let vals = series(&[("2023-12-31", 1), ("ab", 2), ("2021-01-01", 3)]);
    assert_eq!(dated_years(&vals), vec![s("2023"), s("2021")]);
    assert_eq!(
        sorted_years(vec![s("2023"), s("2021"), s("2023"), s("2022")]),
        vec![s("2021"), s("2022"), s("2023")]
    );
    assert!(sorted_years(vec![]).is_empty());
}

#[test]
fn sorting_by_date_is_stable() {
    let v = vec![(s("b"), 1), (s("a"), 2), (s("b"), 3)];
    assert_eq!(sort_by_date_asc(v.clone()), vec![(s("a"), 2), (s("b"), 1), (s("b"), 3)]);
    assert_eq!(sort_by_date_desc(v), vec![(s("b"), 1), (s("b"), 3), (s("a"), 2)]);
}

#[test]
fn years_of_dates() {
    assert_eq!(year_prefix("2023-01-01"), Some(s("2023")));
    assert_eq!(year_prefix("abc"), None);
    assert!(in_year("2023-05-01", "2023"));
    assert!(!in_year("2023-05-01", "2022"));
    assert!(!in_year("202", "202"));
    assert!(same_year("2023-01-01", "2023-12-31"));
    assert!(!same_year("2023", "202"));
}

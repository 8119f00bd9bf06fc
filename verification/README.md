# company_analyzer

Five-year financial analysis of listed companies: US companies from the SEC
EDGAR company facts, Japanese companies (`JP:<code>`) from the annual reports
filed on EDINET. The program prints the raw figures, growth rates,
profitability and stability ratios and a DuPont decomposition as a table.

## Layout

- `src/` — the library, verified with Verus:
  - `text.rs`: string order, decimal digits, thousands grouping, integer parsing, paths;
  - `calendar.rs`: Unix timestamps to `YYYY-MM-DD` dates;
  - `dated.rs`: years of dates, stable sorting of dated series;
  - `parse.rs`: the five latest annual values of a US-GAAP concept, the choice of
    concept per item, equity from assets and liabilities, and reading the
    company facts JSON (through `serde_json`);
  - `extract.rs`: the SEC cache paths and the ticker-to-CIK lookup in the
    ticker list JSON;
  - `xml_events.rs`, `xbrl.rs`: reading the figures of an XBRL instance
    (through `quick-xml`), ranking contexts, scaling by `decimals`;
  - `report_archive.rs`: finding the XBRL instance in a filing's ZIP archive
    (through `zip`);
  - `extract_edinet.rs`: the EDINET cache paths and files, the daily document
    lists, the day-by-day search for a company's annual reports, and the
    series built from their rows;
  - `calculate.rs`: values paired by year, year-over-year pairs, DuPont rows,
    the years of the table and the written amounts.
- `app/` — the command-line program: HTTP (`reqwest`), reading and writing
  files, the floating-point ratios and the table (`comfy-table`).
- `tests/` — tests of the library on concrete values.

Set `EDINET_API_KEY` to query EDINET. Downloaded files are kept in
`~/ca_json/` and fetched again once they are a day old.

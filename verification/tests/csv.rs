use momentum_backtest::{first_read_error, parse_price_table, PriceRow, PriceTable, ReadError};

fn chars(s: &str) -> Vec<char> {
    s.chars().collect()
}

fn row(line: usize, date: &str, price: &str) -> PriceRow {
    PriceRow { line, date: chars(date), price: chars(price) }
}

#[test]
fn reads_rows_after_header() {
    let t = parse_price_table("date,price\n2020-01-02,100.5\n2020-01-03,101.25\n");
    assert_eq!(
        t,
        PriceTable {
            rows: vec![row(2, "2020-01-02", "100.5"), row(3, "2020-01-03", "101.25")],
            missing_price_line: None,
        }
    );
}

#[test]
fn empty_text_and_header_only_give_no_rows() {
    assert_eq!(parse_price_table(""), PriceTable { rows: vec![], missing_price_line: None });
    assert_eq!(
        parse_price_table("date,price"),
        PriceTable { rows: vec![], missing_price_line: None }
    );
    // the header is skipped even when it has no comma or is blank
    assert_eq!(
        parse_price_table("\nd,1"),
        PriceTable { rows: vec![row(2, "d", "1")], missing_price_line: None }
    );
}

#[test]
fn blank_lines_are_skipped_and_counted() {
    let t = parse_price_table("h\n\n  \t\nd1,1\n\nd2,2");
    assert_eq!(t.rows, vec![row(4, "d1", "1"), row(6, "d2", "2")]);
    assert_eq!(t.missing_price_line, None);
}

#[test]
fn fields_are_trimmed_and_crlf_is_harmless() {
    let t = parse_price_table("date,price\r\n  2020-01-02 ,  100.5 \r\n\u{a0}d\u{2003},\t7\r\n");
    assert_eq!(t.rows, vec![row(2, "2020-01-02", "100.5"), row(3, "d", "7")]);
}

#[test]
fn extra_fields_are_ignored() {
    let t = parse_price_table("h\nd,1,extra,more\nd2,,x");
    assert_eq!(t.rows, vec![row(2, "d", "1"), row(3, "d2", "")]);
}

#[test]
fn first_line_without_price_stops_reading() {
    let t = parse_price_table("h\nd1,1\nd2\nd3,3\nd4\n");
    assert_eq!(
        t,
        PriceTable { rows: vec![row(2, "d1", "1")], missing_price_line: Some(3) }
    );
}

#[test]
fn final_newline_is_optional() {
    assert_eq!(parse_price_table("h\na,1\nb,2"), parse_price_table("h\na,1\nb,2\n"));
}

#[test]
fn price_text_is_not_validated() {
    let t = parse_price_table("h\nd,abc\n");
    assert_eq!(t.rows, vec![row(2, "d", "abc")]);
}

#[test]
fn read_error_prefers_first_bad_price() {
    let t = parse_price_table("h\nd1,abc\nd2\n");
    assert_eq!(t.missing_price_line, Some(3));
    assert_eq!(first_read_error(&t, &[false]), Some(ReadError::BadPrice { line: 2 }));
    assert_eq!(first_read_error(&t, &[true]), Some(ReadError::MissingPrice));
}

#[test]
fn read_error_none_when_all_prices_parse() {
    let t = parse_price_table("h\nd1,1\n\nd2,2\n");
    assert_eq!(first_read_error(&t, &[true, true]), None);
    assert_eq!(first_read_error(&t, &[true, false]), Some(ReadError::BadPrice { line: 4 }));
    assert_eq!(first_read_error(&t, &[false, false]), Some(ReadError::BadPrice { line: 2 }));
}

#[test]
fn white_space_set_matches_std() {
    for n in 0..=0x10ffffu32 {
        if let Some(c) = char::from_u32(n) {
            assert_eq!(momentum_backtest::csv::char_is_white_space(c), c.is_whitespace(), "{:#x}", n);
        }
    }
}

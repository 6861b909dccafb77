use pharmacy_stock::decimal::Decimal;
use pharmacy_stock::fetcher::{
    history_from_fields, parse_history_response, parse_quote_response, quote_from_fields,
    FetchError,
};

const WBA_QUOTE: &str = r#"{"Global Quote": {"01. symbol": "WBA", "02. open": "22.9000",
    "05. price": "23.4500", "09. change": "0.5500", "10. change percent": "2.3500%"}}"#;

const QUOTA_NOTICE: &str = r#"{"Information": "Thank you for using the service. Our standard API rate limit is 25 requests per day."}"#;

const SERIES: &str = r#"{"Meta Data": {"2. Symbol": "CVS"},
    "Time Series (Daily)": {
        "2024-01-09": {"1. open": "70.0", "4. close": "71.00"},
        "2024-01-08": {"4. close": "70.10"},
        "2024-01-05": {"4. close": "68.50"},
        "2024-01-04": {"4. close": "67.25"},
        "2024-01-03": {"4. close": "66.00"},
        "2024-01-02": {"4. close": "65.32"}
    }}"#;

fn text(s: &str) -> Option<String> {
    Some(s.to_string())
}

#[test]
fn quote_answer_gives_its_numbers() {
    let q = parse_quote_response("WBA", WBA_QUOTE).unwrap();
    assert_eq!(q.symbol, "WBA");
    assert_eq!(q.current_price, Decimal { micros: 23_450_000 });
    assert_eq!(q.change, Decimal { micros: 550_000 });
    assert_eq!(q.change_percent, Decimal { micros: 2_350_000 });
}

#[test]
fn quote_symbol_falls_back_to_the_one_asked_for() {
    let body = r#"{"Global Quote": {"05. price": "1.5", "09. change": "-0.25", "10. change percent": "-14.2857%"}}"#;
    let q = parse_quote_response("CVS", body).unwrap();
    assert_eq!(q.symbol, "CVS");
    assert_eq!(q.current_price, Decimal { micros: 1_500_000 });
    assert_eq!(q.change, Decimal { micros: -250_000 });
    assert_eq!(q.change_percent, Decimal { micros: -14_285_700 });
}

#[test]
fn quota_notice_is_a_rate_limit_and_not_a_zero_quote() {
    assert_eq!(parse_quote_response("WBA", QUOTA_NOTICE), Err(FetchError::RateLimited));
    assert_eq!(parse_history_response(QUOTA_NOTICE), Err(FetchError::RateLimited));
}

#[test]
fn quote_without_numbers_is_malformed() {
    let missing = r#"{"Global Quote": {"01. symbol": "WBA", "09. change": "0.55", "10. change percent": "2.35%"}}"#;
    assert_eq!(parse_quote_response("WBA", missing), Err(FetchError::MalformedResponse));
    let bad = r#"{"Global Quote": {"05. price": "n/a", "09. change": "0.55", "10. change percent": "2.35%"}}"#;
    assert_eq!(parse_quote_response("WBA", bad), Err(FetchError::MalformedResponse));
    assert_eq!(parse_quote_response("WBA", "{}"), Err(FetchError::MalformedResponse));
}

#[test]
fn answer_that_is_not_json_is_malformed() {
    assert_eq!(parse_quote_response("WBA", "<html>busy</html>"), Err(FetchError::MalformedResponse));
    assert_eq!(parse_history_response("[1, 2"), Err(FetchError::MalformedResponse));
    assert_eq!(parse_quote_response("WBA", "[]"), Err(FetchError::MalformedResponse));
}

#[test]
fn quote_fields_are_judged_from_plain_text() {
    let top = Some(vec!["Global Quote".to_string()]);
    let q = quote_from_fields("WBA", &top, text("WBA"), text("23.45"), text("0.55"), text("2.35%")).unwrap();
    assert_eq!(q.current_price.micros, 23_450_000);
    assert_eq!(q.change_percent.micros, 2_350_000);
    let marked = Some(vec!["Information".to_string()]);
    assert_eq!(
        quote_from_fields("WBA", &marked, text("WBA"), text("23.45"), text("0.55"), text("2.35%")),
        Err(FetchError::RateLimited)
    );
    assert_eq!(
        quote_from_fields("WBA", &None, None, text("23.45"), text("0.55"), text("2.35%")),
        Err(FetchError::MalformedResponse)
    );
    assert_eq!(
        quote_from_fields("WBA", &top, None, text("23.45"), None, text("2.35%")),
        Err(FetchError::MalformedResponse)
    );
}

#[test]
fn series_keeps_the_first_five_dates_the_answer_yields() {
    let h = parse_history_response(SERIES).unwrap();
    assert_eq!(h.dates, vec!["2024-01-09", "2024-01-08", "2024-01-05", "2024-01-04", "2024-01-03"]);
    let prices: Vec<i64> = h.prices.iter().map(|p| p.micros).collect();
    assert_eq!(prices, vec![71_000_000, 70_100_000, 68_500_000, 67_250_000, 66_000_000]);
}

#[test]
fn series_needs_every_kept_close() {
    let body = r#"{"Time Series (Daily)": {"2024-01-02": {"4. close": "65.32"}, "2024-01-03": {"1. open": "66"}}}"#;
    assert_eq!(parse_history_response(body), Err(FetchError::MalformedResponse));
    let none = r#"{"Global Quote": {"05. price": "23.45"}}"#;
    assert_eq!(parse_history_response(none), Err(FetchError::MalformedResponse));
}

#[test]
fn empty_series_is_an_empty_history() {
    let h = parse_history_response(r#"{"Time Series (Daily)": {}}"#).unwrap();
    assert!(h.dates.is_empty());
    assert!(h.prices.is_empty());
}

#[test]
fn series_fields_are_judged_from_plain_text() {
    let top = Some(vec!["Time Series (Daily)".to_string()]);
    let dates = Some(vec!["2024-01-02".to_string(), "2024-01-03".to_string()]);
    let h = history_from_fields(&top, dates.clone(), &vec![text("1.25"), text("2")]).unwrap();
    assert_eq!(h.dates, vec!["2024-01-02", "2024-01-03"]);
    assert_eq!(h.prices, vec![Decimal { micros: 1_250_000 }, Decimal { micros: 2_000_000 }]);
    assert_eq!(
        history_from_fields(&top, dates.clone(), &vec![text("1.25")]),
        Err(FetchError::MalformedResponse)
    );
    assert_eq!(
        history_from_fields(&top, dates, &vec![text("1.25"), None]),
        Err(FetchError::MalformedResponse)
    );
}

#[test]
fn series_dates_with_pointer_marks_are_looked_up_escaped() {
    let body = r#"{"Time Series (Daily)": {"01/02/2024": {"4. close": "65.32"}, "a~b": {"4. close": "1e1"}}}"#;
    let h = parse_history_response(body).unwrap();
    assert_eq!(h.dates, vec!["01/02/2024", "a~b"]);
    assert_eq!(h.prices, vec![Decimal { micros: 65_320_000 }, Decimal { micros: 10_000_000 }]);
}

#[test]
fn quote_numbers_in_exponent_form_are_data() {
    let body = r#"{"Global Quote": {"01. symbol": "WBA", "05. price": "1e2", "09. change": ".5", "10. change percent": "0.5%"}}"#;
    let q = parse_quote_response("WBA", body).unwrap();
    assert_eq!(q.current_price, Decimal { micros: 100_000_000 });
    assert_eq!(q.change, Decimal { micros: 500_000 });
    assert_eq!(q.change_percent, Decimal { micros: 500_000 });
}

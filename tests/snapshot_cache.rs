use pharmacy_stock::cache::{judge_history_answer, judge_quote_answer, StockService, SymbolAnswers};
use pharmacy_stock::codec::{decode_entries, encode_entries, DecodeError};
use pharmacy_stock::decimal::Decimal;
use pharmacy_stock::fetcher::FetchError;
use pharmacy_stock::stock::{StockData, StockHistoricalData, StockQuote, FRESHNESS_SECS};

const WBA_QUOTE: &str = r#"{"Global Quote": {"01. symbol": "WBA", "05. price": "23.45", "09. change": "0.55", "10. change percent": "2.35%"}}"#;
const CVS_QUOTE: &str = r#"{"Global Quote": {"01. symbol": "CVS", "05. price": "65.32", "09. change": "-1.23", "10. change percent": "-1.88%"}}"#;
const WBA_SERIES: &str = r#"{"Time Series (Daily)": {"2024-01-02": {"4. close": "22.90"}, "2024-01-03": {"4. close": "23.45"}}}"#;
const CVS_SERIES: &str = r#"{"Time Series (Daily)": {"2024-01-02": {"4. close": "66.55"}, "2024-01-03": {"4. close": "65.32"}}}"#;

fn watched_symbols() -> Vec<String> {
    vec!["WBA".to_string(), "CVS".to_string()]
}

fn good_answers() -> Vec<SymbolAnswers> {
    vec![
        SymbolAnswers { quote: Ok(WBA_QUOTE.to_string()), history: Ok(WBA_SERIES.to_string()) },
        SymbolAnswers { quote: Ok(CVS_QUOTE.to_string()), history: Ok(CVS_SERIES.to_string()) },
    ]
}

fn dec(micros: i64) -> Decimal {
    Decimal { micros }
}

fn entry(symbol: &str, price: i64, at: u64) -> StockData {
    StockData {
        quote: StockQuote {
            symbol: symbol.to_string(),
            current_price: dec(price),
            change: dec(-1_230_000),
            change_percent: dec(-1_880_000),
        },
        historical_data: StockHistoricalData {
            dates: vec!["2024-01-02".to_string(), "2024-01-03".to_string()],
            prices: vec![dec(66_550_000), dec(price)],
        },
        fetched_at: at,
    }
}

#[test]
fn cold_cache_asks_the_provider() {
    let s = StockService::new(watched_symbols());
    assert!(s.get_stock_data(1_000).is_none());
}

#[test]
fn second_get_after_refetch_is_a_hit() {
    let mut s = StockService::new(watched_symbols());
    assert_eq!(s.fetch_stock_data(&good_answers(), 5_000), Ok(()));
    let first = s.get_stock_data(5_000).expect("fresh snapshot");
    let second = s.get_stock_data(5_001).expect("still fresh");
    assert!(std::ptr::eq(first, second));
    assert_eq!(first.len(), 2);
    assert_eq!(first[0].fetched_at, 5_000);
}

#[test]
fn snapshot_is_served_until_its_day_is_out() {
    let mut s = StockService::new(watched_symbols());
    s.fetch_stock_data(&good_answers(), 10).unwrap();
    assert!(s.get_stock_data(10 + FRESHNESS_SECS - 1).is_some());
    assert!(s.get_stock_data(10 + FRESHNESS_SECS).is_none());
    assert!(s.get_stock_data(10 + FRESHNESS_SECS + 1).is_none());
}

#[test]
fn failed_refetch_keeps_the_old_snapshot() {
    let mut s = StockService::new(watched_symbols());
    s.fetch_stock_data(&good_answers(), 10).unwrap();
    let before = s.cached_data.clone();
    let mut answers = good_answers();
    answers[1].quote = Err(FetchError::Transport);
    answers[0].history = Ok(r#"{"Information": "rate limit"}"#.to_string());
    assert_eq!(s.fetch_stock_data(&answers, 100_000), Err(FetchError::RateLimited));
    assert_eq!(s.cached_data, before);
    let mut answers = good_answers();
    answers[1].quote = Err(FetchError::Transport);
    assert_eq!(s.fetch_stock_data(&answers, 100_000), Err(FetchError::Transport));
    assert_eq!(s.cached_data, before);
    assert!(s.get_stock_data(100_000).is_none());
}

#[test]
fn answers_for_other_symbols_are_refused() {
    let mut s = StockService::new(watched_symbols());
    let answers = vec![good_answers().remove(0)];
    assert_eq!(s.fetch_stock_data(&answers, 10), Err(FetchError::MalformedResponse));
    assert!(s.cached_data.is_none());
}

#[test]
fn stored_form_reads_back_the_same_entries() {
    let entries = vec![entry("WBA", 23_450_000, 900), entry("CVS", 65_320_000, 1_000)];
    let bytes = encode_entries(&entries, 1_700_000_000, 1_000);
    let back = decode_entries(&bytes).unwrap();
    assert_eq!(back.len(), 2);
    assert_eq!(back[0].quote, entries[0].quote);
    assert_eq!(back[1].historical_data, entries[1].historical_data);
    assert_eq!(back[0].fetched_at_timestamp, 1_699_999_900);
    assert_eq!(back[1].fetched_at_timestamp, 1_700_000_000);
    let later = back[0].clone().to_stock_data(1_700_000_500, 1_500).unwrap();
    assert_eq!(later, entries[0]);
}

#[test]
fn stored_form_keeps_text_beyond_ascii() {
    let mut e = entry("WBA", 1, 0);
    e.quote.symbol = "Ünïcødé €".to_string();
    let bytes = encode_entries(&vec![e.clone()], 50, 0);
    let back = decode_entries(&bytes).unwrap();
    assert_eq!(back[0].quote.symbol, "Ünïcødé €");
}

#[test]
fn cut_or_padded_bytes_are_corrupt() {
    let entries = vec![entry("WBA", 23_450_000, 900)];
    let bytes = encode_entries(&entries, 2_000, 1_000);
    for cut in [0, 1, 7, 8, 20, bytes.len() - 1] {
        assert_eq!(decode_entries(&bytes[..cut].to_vec()), Err(DecodeError::Corrupt));
    }
    let mut padded = bytes.clone();
    padded.push(0);
    assert_eq!(decode_entries(&padded), Err(DecodeError::Corrupt));
    let mut bad_text = bytes.clone();
    bad_text[8 + 8] = 0xff;
    assert_eq!(decode_entries(&bad_text), Err(DecodeError::Corrupt));
}

#[test]
fn corrupt_file_leaves_the_cache_as_it_was() {
    let mut s = StockService::new(watched_symbols());
    s.fetch_stock_data(&good_answers(), 10).unwrap();
    let before = s.cached_data.clone();
    assert_eq!(s.load_cache(&vec![1, 2, 3], 5_000, 20), Err(DecodeError::Corrupt));
    assert_eq!(s.cached_data, before);
    let mut cold = StockService::new(watched_symbols());
    assert_eq!(cold.load_cache(&Vec::new(), 5_000, 20), Err(DecodeError::Corrupt));
    assert!(cold.cached_data.is_none());
}

#[test]
fn stored_snapshot_of_other_symbols_is_refused() {
    let bytes = encode_entries(&vec![entry("CVS", 1, 5), entry("WBA", 2, 5)], 1_000, 10);
    let mut s = StockService::new(watched_symbols());
    assert_eq!(s.load_cache(&bytes, 1_000, 10), Err(DecodeError::UntrackedSymbols));
    assert!(s.cached_data.is_none());
}

#[test]
fn stored_snapshot_older_than_the_clock_is_refused() {
    let bytes = encode_entries(&vec![entry("WBA", 1, 0), entry("CVS", 2, 0)], 1_000, 0);
    let mut s = StockService::new(watched_symbols());
    assert_eq!(s.load_cache(&bytes, 1_500, 499), Err(DecodeError::TooOld));
    assert!(s.cached_data.is_none());
    assert_eq!(s.load_cache(&bytes, 1_500, 500), Ok(()));
    assert_eq!(s.cached_data.unwrap()[0].fetched_at, 0);
}

#[test]
fn sample_quotes() {
    let s = StockService::new(watched_symbols());
    let w = s.get_stock_quote("WBA");
    assert_eq!((w.current_price.micros, w.change.micros, w.change_percent.micros), (23_450_000, 550_000, 2_350_000));
    let c = s.get_stock_quote("CVS");
    assert_eq!((c.current_price.micros, c.change.micros, c.change_percent.micros), (65_320_000, -1_230_000, -1_880_000));
    let o = s.get_stock_quote("XYZ");
    assert_eq!(o.symbol, "XYZ");
    assert_eq!((o.current_price.micros, o.change.micros, o.change_percent.micros), (0, 0, 0));
}

#[test]
fn wba_and_cvs_end_to_end() {
    let mut s = StockService::new(watched_symbols());
    assert!(s.get_stock_data(100).is_none());
    s.fetch_stock_data(&good_answers(), 100).unwrap();
    let snap = s.get_stock_data(100).unwrap().clone();
    assert_eq!(snap[0].quote.symbol, "WBA");
    assert_eq!(snap[0].quote.current_price, dec(23_450_000));
    assert_eq!(snap[0].quote.change, dec(550_000));
    assert_eq!(snap[0].quote.change_percent, dec(2_350_000));
    assert_eq!(snap[1].quote.symbol, "CVS");
    assert_eq!(snap[1].quote.current_price, dec(65_320_000));
    assert_eq!(snap[1].quote.change, dec(-1_230_000));
    assert_eq!(snap[1].quote.change_percent, dec(-1_880_000));

    let bytes = s.cache_bytes(1_700_000_000, 100).unwrap();
    let mut restarted = StockService::new(watched_symbols());
    restarted.load_cache(&bytes, 1_700_000_000, 100).unwrap();
    assert_eq!(restarted.cached_data.as_ref().unwrap(), &snap);

    let again = s.get_stock_data(100 + 3_600).unwrap();
    assert_eq!(again, &snap);
    assert!(std::ptr::eq(again, s.get_stock_data(100 + 7_200).unwrap()));
}

#[test]
fn answers_may_stop_at_the_first_failure() {
    let mut s = StockService::new(watched_symbols());
    let answers = vec![SymbolAnswers {
        quote: Ok(r#"{"Information": "quota"}"#.to_string()),
        history: Err(FetchError::RateLimited),
    }];
    assert_eq!(s.fetch_stock_data(&answers, 10), Err(FetchError::RateLimited));
    assert!(s.cached_data.is_none());
}

#[test]
fn quote_for_another_symbol_is_malformed() {
    assert_eq!(judge_quote_answer("CVS", &Ok(WBA_QUOTE.to_string())), Err(FetchError::MalformedResponse));
    assert_eq!(judge_quote_answer("WBA", &Err(FetchError::Transport)), Err(FetchError::Transport));
    assert_eq!(judge_quote_answer("WBA", &Ok(WBA_QUOTE.to_string())).unwrap().current_price, dec(23_450_000));
    assert_eq!(judge_history_answer(&Ok(WBA_SERIES.to_string())).unwrap().prices, vec![dec(22_900_000), dec(23_450_000)]);
    let mut s = StockService::new(watched_symbols());
    let mut answers = good_answers();
    answers.swap(0, 1);
    assert_eq!(s.fetch_stock_data(&answers, 10), Err(FetchError::MalformedResponse));
}

#[test]
fn clocks_a_second_apart_move_a_capture_by_at_most_a_second() {
    let entries = vec![entry("WBA", 23_450_000, 400)];
    let bytes = encode_entries(&entries, 1_000, 500);
    let back = decode_entries(&bytes).unwrap();
    assert_eq!(back[0].fetched_at_timestamp, 900);
    let later = back[0].clone().to_stock_data(1_101, 600).unwrap();
    assert_eq!(later.fetched_at, 399);
    assert_eq!(later.quote, entries[0].quote);
}

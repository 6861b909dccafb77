use vstd::prelude::*;
use vstd::string::StringExecFns;

use crate::decimal::{decimal_micros, parse_decimal, parse_percent, percent_micros, Decimal};
use crate::stock::{texts, HistoryView, QuoteView, StockHistoricalData, StockQuote, HISTORY_WINDOW};

verus! {

/// Why fresh data could not be had from the provider.
#[derive(Clone, Copy, Debug, PartialEq, Eq, Structural)]
pub enum FetchError {
    /// The request did not complete: no connection, or it timed out.
    Transport,
    /// The provider answered with a notice that the quota is used up.
    RateLimited,
    /// The answer lacks a field the data needs, or a number does not parse.
    MalformedResponse,
}

/// The string at a JSON pointer of a JSON document: `None` when the text
/// is not JSON or no string stands there.
pub uninterp spec fn json_string_at(body: Seq<char>, pointer: Seq<char>) -> Option<Seq<char>>;

/// The member names of the object at a JSON pointer of a JSON document, in
/// the order in which they first stand in the text: `None` when the text is
/// not JSON or no object stands there.
pub uninterp spec fn json_keys_at(body: Seq<char>, pointer: Seq<char>) -> Option<
    Seq<Seq<char>>,
>;

/// Relies on `serde_json::from_str`, `Value::pointer` and `Value::as_str`:
/// the string found at `pointer` in the parsed `body`.
#[verifier::external_body]
fn string_at(body: &str, pointer: &str) -> (r: Option<String>)
    ensures
        r is Some <==> json_string_at(body@, pointer@) is Some,
        r matches Some(s) ==> s@ == json_string_at(body@, pointer@)->0,
{
    let v: serde_json::Value = serde_json::from_str(body).ok()?;
    v.pointer(pointer)?.as_str().map(|s| s.to_owned())
}

/// Relies on `serde_json::from_str`, `Value::pointer` and `Value::as_object`:
/// the member names of the object found at `pointer` in the parsed `body`,
/// kept in document order by the `preserve_order` feature.
#[verifier::external_body]
fn keys_at(body: &str, pointer: &str) -> (r: Option<Vec<String>>)
    ensures
        r is Some <==> json_keys_at(body@, pointer@) is Some,
        r matches Some(k) ==> texts(k@) == json_keys_at(body@, pointer@)->0,
{
    let v: serde_json::Value = serde_json::from_str(body).ok()?;
    v.pointer(pointer)?.as_object().map(|m| m.keys().cloned().collect())
}

/// The top-level member whose presence marks a quota notice.
pub open spec fn rate_limit_marker() -> Seq<char> {
    "Information"@
}

pub open spec fn opt_text(o: Option<String>) -> Option<Seq<char>> {
    match o {
        Some(s) => Some(s@),
        None => None,
    }
}

pub open spec fn opt_texts(o: Option<Vec<String>>) -> Option<Seq<Seq<char>>> {
    match o {
        Some(v) => Some(texts(v@)),
        None => None,
    }
}

pub open spec fn number_of(t: Option<Seq<char>>) -> Option<int> {
    match t {
        Some(s) => decimal_micros(s),
        None => None,
    }
}

pub open spec fn percent_of(t: Option<Seq<char>>) -> Option<int> {
    match t {
        Some(s) => percent_micros(s),
        None => None,
    }
}

/// How a quote answer is judged, from its top-level member names and the
/// text of its fields: not a JSON object is malformed; a quota notice is a
/// rate limit; otherwise the three numbers must parse. The symbol falls back
/// to the one asked for.
pub open spec fn quote_from_parts(
    symbol: Seq<char>,
    top: Option<Seq<Seq<char>>>,
    symbol_field: Option<Seq<char>>,
    price: Option<Seq<char>>,
    change: Option<Seq<char>>,
    change_percent: Option<Seq<char>>,
) -> Result<QuoteView, FetchError> {
    match top {
        None => Err(FetchError::MalformedResponse),
        Some(keys) => if keys.contains(rate_limit_marker()) {
            Err(FetchError::RateLimited)
        } else if number_of(price) is Some && number_of(change) is Some && percent_of(
            change_percent,
        ) is Some {
            Ok(
                QuoteView {
                    symbol: match symbol_field {
                        Some(s) => s,
                        None => symbol,
                    },
                    current_price: number_of(price)->0 as i64,
                    change: number_of(change)->0 as i64,
                    change_percent: percent_of(change_percent)->0 as i64,
                },
            )
        } else {
            Err(FetchError::MalformedResponse)
        },
    }
}

/// How the quote answer `body` to a request for `symbol` is judged.
pub open spec fn quote_outcome(symbol: Seq<char>, body: Seq<char>) -> Result<
    QuoteView,
    FetchError,
> {
    quote_from_parts(
        symbol,
        json_keys_at(body, ""@),
        json_string_at(body, "/Global Quote/01. symbol"@),
        json_string_at(body, "/Global Quote/05. price"@),
        json_string_at(body, "/Global Quote/09. change"@),
        json_string_at(body, "/Global Quote/10. change percent"@),
    )
}

/// How one character stands in a JSON pointer token: `~` as `~0`, `/` as
/// `~1`, any other as itself.
pub open spec fn escaped_char(c: char) -> Seq<char> {
    if c == '~' {
        "~0"@
    } else if c == '/' {
        "~1"@
    } else {
        seq![c]
    }
}

/// Text as one token of a JSON pointer.
pub open spec fn pointer_token(t: Seq<char>) -> Seq<char>
    decreases t.len(),
{
    if t.len() == 0 {
        Seq::empty()
    } else {
        pointer_token(t.drop_last()) + escaped_char(t.last())
    }
}

pub open spec fn close_pointer(date: Seq<char>) -> Seq<char> {
    "/Time Series (Daily)/"@ + pointer_token(date) + "/4. close"@
}

/// The dates that a series keeps: the first `HISTORY_WINDOW` that the
/// answer yields.
pub open spec fn window(all: Seq<Seq<char>>) -> Seq<Seq<char>> {
    if all.len() <= HISTORY_WINDOW {
        all
    } else {
        all.subrange(0, HISTORY_WINDOW as int)
    }
}

/// How a series answer is judged, from its top-level member names, the dates
/// of its series and the text of the closing price of each kept date: not a
/// JSON object is malformed; a quota notice is a rate limit; the series must
/// be there, and each kept date must have a closing price that parses.
pub open spec fn history_from_parts(
    top: Option<Seq<Seq<char>>>,
    series: Option<Seq<Seq<char>>>,
    closes: Seq<Option<Seq<char>>>,
) -> Result<HistoryView, FetchError> {
    match top {
        None => Err(FetchError::MalformedResponse),
        Some(keys) => if keys.contains(rate_limit_marker()) {
            Err(FetchError::RateLimited)
        } else {
            match series {
                None => Err(FetchError::MalformedResponse),
                Some(all) => {
                    let d = window(all);
                    if closes.len() == d.len() && forall|i: int|
                        0 <= i < d.len() ==> #[trigger] number_of(closes[i]) is Some {
                        Ok(
                            HistoryView {
                                dates: d,
                                prices: Seq::new(d.len(), |i: int| number_of(closes[i])->0 as i64),
                            },
                        )
                    } else {
                        Err(FetchError::MalformedResponse)
                    }
                },
            }
        },
    }
}

/// The text of the closing price of `date` in the series answer `body`.
pub open spec fn close_text(body: Seq<char>, date: Seq<char>) -> Option<Seq<char>> {
    json_string_at(body, close_pointer(date))
}

pub open spec fn closes_of(body: Seq<char>, series: Option<Seq<Seq<char>>>) -> Seq<
    Option<Seq<char>>,
> {
    match series {
        Some(all) => Seq::new(window(all).len(), |i: int| close_text(body, window(all)[i])),
        None => Seq::empty(),
    }
}

/// How the series answer `body` is judged.
pub open spec fn history_outcome(body: Seq<char>) -> Result<HistoryView, FetchError> {
    let series = json_keys_at(body, "/Time Series (Daily)"@);
    history_from_parts(json_keys_at(body, ""@), series, closes_of(body, series))
}

fn contains_text(keys: &Vec<String>, t: &str) -> (r: bool)
    ensures
        r == texts(keys@).contains(t@),
{
    let target = String::from_str(t);
    let mut i: usize = 0;
    while i < keys.len()
        invariant
            0 <= i <= keys.len(),
            target@ == t@,
            forall|j: int| 0 <= j < i ==> texts(keys@)[j] != t@,
        decreases keys.len() - i,
    {
        if keys[i] == target {
            assert(texts(keys@)[i as int] == t@);
            return true;
        }
        i = i + 1;
    }
    false
}

/// Judges a quote answer from its top-level member names and the text of its
/// symbol, price, change and percent-change fields.
pub fn quote_from_fields(
    symbol: &str,
    top_keys: &Option<Vec<String>>,
    symbol_field: Option<String>,
    price: Option<String>,
    change: Option<String>,
    change_percent: Option<String>,
) -> (r: Result<StockQuote, FetchError>)
    ensures
        match quote_from_parts(
            symbol@,
            opt_texts(*top_keys),
            opt_text(symbol_field),
            opt_text(price),
            opt_text(change),
            opt_text(change_percent),
        ) {
            Ok(v) => r matches Ok(q) && q@ == v,
            Err(e) => r == Err::<StockQuote, FetchError>(e),
        },
{
    let keys = match top_keys {
        None => {
            return Err(FetchError::MalformedResponse);
        },
        Some(k) => k,
    };
    proof {
        reveal_strlit("Information");
    }
    if contains_text(keys, "Information") {
        return Err(FetchError::RateLimited);
    }
    let current_price = match price {
        Some(t) => parse_decimal(t.as_str()),
        None => None,
    };
    let change = match change {
        Some(t) => parse_decimal(t.as_str()),
        None => None,
    };
    let change_percent = match change_percent {
        Some(t) => parse_percent(t.as_str()),
        None => None,
    };
    match (current_price, change, change_percent) {
        (Some(current_price), Some(change), Some(change_percent)) => {
            let symbol = match symbol_field {
                Some(s) => s,
                None => String::from_str(symbol),
            };
            Ok(StockQuote { symbol, current_price, change, change_percent })
        },
        _ => Err(FetchError::MalformedResponse),
    }
}

/// Judges the quote answer `body` to a request for `symbol`.
pub fn parse_quote_response(symbol: &str, body: &str) -> (r: Result<StockQuote, FetchError>)
    ensures
        match quote_outcome(symbol@, body@) {
            Ok(v) => r matches Ok(q) && q@ == v,
            Err(e) => r == Err::<StockQuote, FetchError>(e),
        },
{
    let top = keys_at(body, "");
    let symbol_field = string_at(body, "/Global Quote/01. symbol");
    let price = string_at(body, "/Global Quote/05. price");
    let change = string_at(body, "/Global Quote/09. change");
    let change_percent = string_at(body, "/Global Quote/10. change percent");
    quote_from_fields(symbol, &top, symbol_field, price, change, change_percent)
}


pub open spec fn opt_texts_seq(v: Seq<Option<String>>) -> Seq<Option<Seq<char>>> {
    v.map_values(|o: Option<String>| opt_text(o))
}

/// Judges a series answer from its top-level member names, the dates of its
/// series, and the text of the closing price of each kept date.
pub fn history_from_fields(
    top_keys: &Option<Vec<String>>,
    series_keys: Option<Vec<String>>,
    closes: &Vec<Option<String>>,
) -> (r: Result<StockHistoricalData, FetchError>)
    ensures
        match history_from_parts(opt_texts(*top_keys), opt_texts(series_keys), opt_texts_seq(closes@)) {
            Ok(v) => r matches Ok(h) && h@ == v && h.wf(),
            Err(e) => r == Err::<StockHistoricalData, FetchError>(e),
        },
{
    let keys = match top_keys {
        None => {
            return Err(FetchError::MalformedResponse);
        },
        Some(k) => k,
    };
    proof {
        reveal_strlit("Information");
    }
    if contains_text(keys, "Information") {
        return Err(FetchError::RateLimited);
    }
    let ghost sk = opt_texts(series_keys);
    let all = match series_keys {
        None => {
            return Err(FetchError::MalformedResponse);
        },
        Some(a) => a,
    };
    let ghost d = window(texts(all@));
    let n: usize = if all.len() <= HISTORY_WINDOW {
        all.len()
    } else {
        HISTORY_WINDOW
    };
    assert(d.len() == n);
    if closes.len() != n {
        return Err(FetchError::MalformedResponse);
    }
    let ghost cl = opt_texts_seq(closes@);
    let mut dates: Vec<String> = Vec::new();
    let mut prices: Vec<Decimal> = Vec::new();
    let mut i: usize = 0;
    while i < n
        invariant
            0 <= i <= n,
            n == d.len() == closes.len() == cl.len(),
            n <= all.len(),
            d == window(texts(all@)),
            cl == opt_texts_seq(closes@),
            sk == Some(texts(all@)),
            opt_texts(*top_keys) == Some(texts(keys@)),
            !texts(keys@).contains(rate_limit_marker()),
            dates.len() == i,
            prices.len() == i,
            texts(dates@) == d.subrange(0, i as int),
            forall|j: int| 0 <= j < i ==> number_of(#[trigger] cl[j]) is Some,
            forall|j: int| 0 <= j < i ==> prices@[j].micros == number_of(#[trigger] cl[j])->0,
        decreases n - i,
    {
        let price = match &closes[i] {
            Some(t) => parse_decimal(t.as_str()),
            None => None,
        };
        match price {
            None => {
                assert(cl[i as int] == opt_text(closes@[i as int]));
                assert(number_of(cl[i as int]) is None);
                assert(!(forall|j: int| 0 <= j < d.len() ==> #[trigger] number_of(cl[j]) is Some));
                return Err(FetchError::MalformedResponse);
            },
            Some(p) => {
                let ghost t0 = texts(dates@);
                dates.push(all[i].clone());
                prices.push(p);
                assert(texts(dates@) =~= t0.push(all@[i as int]@));
                assert(d.subrange(0, i + 1) =~= d.subrange(0, i as int).push(d[i as int]));
            },
        }
        i = i + 1;
    }
    let h = StockHistoricalData { dates, prices };
    assert(h@.dates =~= d);
    assert(h@.prices =~= Seq::new(d.len(), |j: int| number_of(cl[j])->0 as i64));
    Ok(h)
}

/// Appends `t` to `out` as one token of a JSON pointer.
fn push_pointer_token(out: &mut String, t: &str)
    ensures
        final(out)@ == old(out)@ + pointer_token(t@),
{
    let ghost start = old(out)@;
    let n = t.unicode_len();
    let mut i: usize = 0;
    while i < n
        invariant
            0 <= i <= n,
            n == t@.len(),
            out@ == start + pointer_token(t@.subrange(0, i as int)),
        decreases n - i,
    {
        let c = t.get_char(i);
        if c == '~' {
            out.append("~0");
        } else if c == '/' {
            out.append("~1");
        } else {
            let one = t.substring_char(i, i + 1);
            assert(one@ =~= seq![c]);
            out.append(one);
        }
        assert(t@.subrange(0, i + 1).drop_last() =~= t@.subrange(0, i as int));
        assert(out@ =~= start + pointer_token(t@.subrange(0, i + 1)));
        i = i + 1;
    }
    assert(t@.subrange(0, n as int) =~= t@);
}

/// Judges the series answer `body`.
pub fn parse_history_response(body: &str) -> (r: Result<StockHistoricalData, FetchError>)
    ensures
        match history_outcome(body@) {
            Ok(v) => r matches Ok(h) && h@ == v && h.wf(),
            Err(e) => r == Err::<StockHistoricalData, FetchError>(e),
        },
{
    let top = keys_at(body, "");
    let series = keys_at(body, "/Time Series (Daily)");
    let mut closes: Vec<Option<String>> = Vec::new();
    match &series {
        None => {},
        Some(all) => {
            let ghost d = window(texts(all@));
            let n: usize = if all.len() <= HISTORY_WINDOW {
                all.len()
            } else {
                HISTORY_WINDOW
            };
            let mut i: usize = 0;
            while i < n
                invariant
                    0 <= i <= n,
                    n == d.len(),
                    n <= all.len(),
                    d == window(texts(all@)),
                    closes.len() == i,
                    forall|j: int| 0 <= j < i ==> #[trigger] opt_text(closes@[j]) == close_text(body@, d[j]),
                decreases n - i,
            {
                let date = &all[i];
                assert(date@ == d[i as int]);
                let mut pointer = String::from_str("/Time Series (Daily)/");
                push_pointer_token(&mut pointer, date.as_str());
                pointer.append("/4. close");
                assert(pointer@ =~= close_pointer(d[i as int]));
                let close = string_at(body, pointer.as_str());
                closes.push(close);
                i = i + 1;
            }
            assert(opt_texts_seq(closes@) =~= closes_of(body@, opt_texts(series)));
        },
    }
    assert(opt_texts_seq(closes@) =~= closes_of(body@, opt_texts(series)));
    history_from_fields(&top, series, &closes)
}


/// An answer that carries the quota notice is a rate limit, never data: not
/// a quote and not a series.
pub proof fn lemma_rate_limit_is_no_data(symbol: Seq<char>, body: Seq<char>)
    requires
        json_keys_at(body, ""@) matches Some(keys) && keys.contains(rate_limit_marker()),
    ensures
        quote_outcome(symbol, body) == Err::<QuoteView, FetchError>(FetchError::RateLimited),
        history_outcome(body) == Err::<HistoryView, FetchError>(FetchError::RateLimited),
{
}

} // verus!

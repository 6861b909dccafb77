use vstd::prelude::*;

use crate::decimal::Decimal;

verus! {

/// Number of most recent daily points that a historical series keeps.
pub const HISTORY_WINDOW: usize = 5;

/// Seconds that a captured snapshot stays fresh: one day.
pub const FRESHNESS_SECS: u64 = 86400;

/// The latest quote of one symbol.
#[derive(Clone, Debug, PartialEq)]
pub struct StockQuote {
    pub symbol: String,
    pub current_price: Decimal,
    pub change: Decimal,
    pub change_percent: Decimal,
}

/// Daily closing prices, in the order the provider gave them.
#[derive(Clone, Debug, PartialEq)]
pub struct StockHistoricalData {
    pub dates: Vec<String>,
    pub prices: Vec<Decimal>,
}

/// A quote and its series, captured at `fetched_at` seconds on the
/// process's monotonic clock.
#[derive(Clone, Debug, PartialEq)]
pub struct StockData {
    pub quote: StockQuote,
    pub historical_data: StockHistoricalData,
    pub fetched_at: u64,
}

/// The durable form of a `StockData`: its capture time is a wall-clock
/// timestamp, in seconds since the Unix epoch.
#[derive(Clone, Debug, PartialEq)]
pub struct SerializableStockData {
    pub quote: StockQuote,
    pub historical_data: StockHistoricalData,
    pub fetched_at_timestamp: u64,
}

/// What a quote holds, as plain values.
pub struct QuoteView {
    pub symbol: Seq<char>,
    pub current_price: i64,
    pub change: i64,
    pub change_percent: i64,
}

/// What a historical series holds, as plain values.
pub struct HistoryView {
    pub dates: Seq<Seq<char>>,
    pub prices: Seq<i64>,
}

/// What a cache entry holds; `at` is its capture time on whichever clock
/// the entry's form uses.
pub struct EntryView {
    pub quote: QuoteView,
    pub history: HistoryView,
    pub at: u64,
}

pub open spec fn texts(v: Seq<String>) -> Seq<Seq<char>> {
    v.map_values(|s: String| s@)
}

pub open spec fn micros_of(v: Seq<Decimal>) -> Seq<i64> {
    v.map_values(|d: Decimal| d.micros)
}

impl View for StockQuote {
    type V = QuoteView;

    open spec fn view(&self) -> QuoteView {
        QuoteView {
            symbol: self.symbol@,
            current_price: self.current_price.micros,
            change: self.change.micros,
            change_percent: self.change_percent.micros,
        }
    }
}

impl View for StockHistoricalData {
    type V = HistoryView;

    open spec fn view(&self) -> HistoryView {
        HistoryView { dates: texts(self.dates@), prices: micros_of(self.prices@) }
    }
}

impl View for StockData {
    type V = EntryView;

    open spec fn view(&self) -> EntryView {
        EntryView { quote: self.quote@, history: self.historical_data@, at: self.fetched_at }
    }
}

impl View for SerializableStockData {
    type V = EntryView;

    open spec fn view(&self) -> EntryView {
        EntryView {
            quote: self.quote@,
            history: self.historical_data@,
            at: self.fetched_at_timestamp,
        }
    }
}

impl HistoryView {
    /// Dates and prices pair up, and there are at most `HISTORY_WINDOW` of them.
    pub open spec fn wf(self) -> bool {
        &&& self.dates.len() == self.prices.len()
        &&& self.prices.len() <= HISTORY_WINDOW
    }
}

impl StockHistoricalData {
    pub open spec fn wf(&self) -> bool {
        self@.wf()
    }
}

pub open spec fn entries_view(v: Seq<StockData>) -> Seq<EntryView> {
    v.map_values(|e: StockData| e@)
}

pub open spec fn durable_view(v: Seq<SerializableStockData>) -> Seq<EntryView> {
    v.map_values(|e: SerializableStockData| e@)
}

/// Seconds from `at` to `now`, or zero when `at` is not earlier.
pub open spec fn age_secs(at: u64, now: u64) -> u64 {
    if at <= now {
        (now - at) as u64
    } else {
        0
    }
}

/// Whether an entry captured at `at` is still fresh at `now`.
pub open spec fn is_fresh_at(at: u64, now: u64) -> bool {
    age_secs(at, now) < FRESHNESS_SECS
}

/// The wall-clock time of monotonic reading `at`, given that the wall
/// clock reads `now_wall` while the monotonic one reads `now_mono`; zero
/// when that would lie before the Unix epoch.
pub open spec fn wall_time(at: u64, now_wall: u64, now_mono: u64) -> u64 {
    if age_secs(at, now_mono) <= now_wall {
        (now_wall - age_secs(at, now_mono)) as u64
    } else {
        0
    }
}

/// The monotonic reading of wall-clock timestamp `ts`, given both clocks
/// read now; `None` when it lies before the monotonic clock's origin.
pub open spec fn monotonic_time(ts: u64, now_wall: u64, now_mono: u64) -> Option<u64> {
    if age_secs(ts, now_wall) <= now_mono {
        Some((now_mono - age_secs(ts, now_wall)) as u64)
    } else {
        None
    }
}

/// The entries with their capture times moved to the wall clock.
pub open spec fn on_wall_clock(es: Seq<EntryView>, now_wall: u64, now_mono: u64) -> Seq<EntryView> {
    es.map_values(|e: EntryView| EntryView { at: wall_time(e.at, now_wall, now_mono), ..e })
}

impl SerializableStockData {
    /// The entry with its capture time moved to the monotonic clock, given
    /// both clocks read now; `None` when that time lies before the monotonic
    /// clock's origin.
    pub fn to_stock_data(self, now_wall: u64, now_mono: u64) -> (r: Option<StockData>)
        ensures
            r is Some <==> monotonic_time(self.fetched_at_timestamp, now_wall, now_mono) is Some,
            r matches Some(d) ==> d@ == (EntryView {
                at: monotonic_time(self.fetched_at_timestamp, now_wall, now_mono)->0,
                ..self@
            }),
    {
        let age: u64 = if self.fetched_at_timestamp <= now_wall {
            now_wall - self.fetched_at_timestamp
        } else {
            0
        };
        if age <= now_mono {
            Some(
                StockData {
                    quote: self.quote,
                    historical_data: self.historical_data,
                    fetched_at: now_mono - age,
                },
            )
        } else {
            None
        }
    }
}

impl StockData {
    /// The wall-clock time of this entry's capture.
    pub fn wall_time(&self, now_wall: u64, now_mono: u64) -> (r: u64)
        ensures
            r == wall_time(self.fetched_at, now_wall, now_mono),
    {
        let age: u64 = if self.fetched_at <= now_mono {
            now_mono - self.fetched_at
        } else {
            0
        };
        if age <= now_wall {
            now_wall - age
        } else {
            0
        }
    }

    /// Puts a quote and its series together with their capture time.
    pub fn new(
        quote: StockQuote,
        historical_data: StockHistoricalData,
        fetched_at: u64,
    ) -> (r: StockData)
        ensures
            r.quote == quote,
            r.historical_data == historical_data,
            r.fetched_at == fetched_at,
    {
        StockData { quote, historical_data, fetched_at }
    }

    /// Whether this entry is still fresh at `now` on the monotonic clock.
    pub fn is_fresh(&self, now: u64) -> (r: bool)
        ensures
            r == is_fresh_at(self.fetched_at, now),
    {
        let age: u64 = if self.fetched_at <= now {
            now - self.fetched_at
        } else {
            0
        };
        age < FRESHNESS_SECS
    }
}

} // verus!

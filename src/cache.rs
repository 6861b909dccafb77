use vstd::prelude::*;
use vstd::string::StringExecFns;

use crate::codec::{
    decode_entries,
    encode_entries,
    entries_bytes,
    lemma_entries_bytes_unique,
    storable,
    storable_entry,
    DecodeError,
};
use crate::decimal::Decimal;
use crate::fetcher::{
    history_outcome,
    parse_history_response,
    parse_quote_response,
    quote_outcome,
    FetchError,
};
use crate::stock::{
    durable_view,
    entries_view,
    is_fresh_at,
    monotonic_time,
    on_wall_clock,
    texts,
    EntryView,
    FRESHNESS_SECS,
    HistoryView,
    QuoteView,
    StockData,
    StockHistoricalData,
    StockQuote,
};

verus! {

/// What the provider answered for one symbol: the body of its quote request
/// and of its series request, or the failure of the request.
pub struct SymbolAnswers {
    pub quote: Result<String, FetchError>,
    pub history: Result<String, FetchError>,
}

/// How the quote answer for `symbol` is judged: a failed request keeps its
/// error, and a quote for another symbol is malformed.
pub open spec fn quote_answer_outcome(symbol: Seq<char>, a: Result<String, FetchError>) -> Result<
    QuoteView,
    FetchError,
> {
    match a {
        Err(e) => Err(e),
        Ok(body) => match quote_outcome(symbol, body@) {
            Err(e) => Err(e),
            Ok(q) => if q.symbol == symbol {
                Ok(q)
            } else {
                Err(FetchError::MalformedResponse)
            },
        },
    }
}

/// How the series answer is judged: a failed request keeps its error.
pub open spec fn history_answer_outcome(a: Result<String, FetchError>) -> Result<
    HistoryView,
    FetchError,
> {
    match a {
        Err(e) => Err(e),
        Ok(body) => history_outcome(body@),
    }
}

/// How the answers for `symbol` are judged: the quote first, then the series.
pub open spec fn answers_outcome(symbol: Seq<char>, a: SymbolAnswers) -> Result<
    (QuoteView, HistoryView),
    FetchError,
> {
    match quote_answer_outcome(symbol, a.quote) {
        Err(e) => Err(e),
        Ok(q) => match history_answer_outcome(a.history) {
            Err(e) => Err(e),
            Ok(h) => Ok((q, h)),
        },
    }
}

/// The first failure among the answers for the first `n` symbols.
pub open spec fn first_failure(
    symbols: Seq<Seq<char>>,
    answers: Seq<SymbolAnswers>,
    n: nat,
) -> Option<FetchError>
    decreases n,
{
    if n == 0 {
        None
    } else {
        match first_failure(symbols, answers, (n - 1) as nat) {
            Some(e) => Some(e),
            None => match answers_outcome(symbols[n - 1], answers[n - 1]) {
                Err(e) => Some(e),
                Ok(_) => None,
            },
        }
    }
}

/// The snapshot built from answers that all succeeded, captured at `now`.
pub open spec fn fetched_snapshot(
    symbols: Seq<Seq<char>>,
    answers: Seq<SymbolAnswers>,
    now: u64,
) -> Seq<EntryView> {
    Seq::new(
        symbols.len(),
        |i: int|
            EntryView {
                quote: answers_outcome(symbols[i], answers[i])->Ok_0.0,
                history: answers_outcome(symbols[i], answers[i])->Ok_0.1,
                at: now,
            },
    )
}

/// The entries that `b` is the stored form of, if it is one.
pub open spec fn stored_entries(b: Seq<u8>) -> Option<Seq<EntryView>> {
    if exists|es: Seq<EntryView>| storable(es) && #[trigger] entries_bytes(es) == b {
        Some(choose|es: Seq<EntryView>| storable(es) && #[trigger] entries_bytes(es) == b)
    } else {
        None
    }
}

/// The entries are those of `symbols`, in their order.
pub open spec fn tracks(es: Seq<EntryView>, symbols: Seq<Seq<char>>) -> bool {
    &&& es.len() == symbols.len()
    &&& forall|i: int| 0 <= i < es.len() ==> #[trigger] es[i].quote.symbol == symbols[i]
}

/// Every entry's wall-clock capture time has a monotonic reading.
pub open spec fn placeable(es: Seq<EntryView>, now_wall: u64, now_mono: u64) -> bool {
    forall|i: int| 0 <= i < es.len() ==> #[trigger] monotonic_time(es[i].at, now_wall, now_mono) is Some
}

/// The entries with their capture times moved to the monotonic clock.
pub open spec fn on_monotonic_clock(es: Seq<EntryView>, now_wall: u64, now_mono: u64) -> Seq<
    EntryView,
> {
    es.map_values(
        |e: EntryView| EntryView { at: monotonic_time(e.at, now_wall, now_mono)->0, ..e },
    )
}

/// Whether a snapshot of `entries` is served at `now`: every entry is fresh.
pub open spec fn fresh_snapshot(entries: Seq<StockData>, now: u64) -> bool {
    forall|i: int| 0 <= i < entries.len() ==> is_fresh_at(#[trigger] entries[i].fetched_at, now)
}

proof fn lemma_first_failure_stays(symbols: Seq<Seq<char>>, answers: Seq<SymbolAnswers>, k: nat, n: nat)
    requires
        k <= n,
        first_failure(symbols, answers, k) is Some,
    ensures
        first_failure(symbols, answers, n) == first_failure(symbols, answers, k),
    decreases n,
{
    if k < n {
        lemma_first_failure_stays(symbols, answers, k, (n - 1) as nat);
    }
}

/// Judges the quote answer for `symbol`. Its owner can stop asking the
/// provider at the first failure.
pub fn judge_quote_answer(symbol: &str, a: &Result<String, FetchError>) -> (r: Result<
    StockQuote,
    FetchError,
>)
    ensures
        match quote_answer_outcome(symbol@, *a) {
            Ok(v) => r matches Ok(q) && q@ == v,
            Err(e) => r == Err::<StockQuote, FetchError>(e),
        },
{
    match a {
        Err(e) => Err(*e),
        Ok(body) => match parse_quote_response(symbol, body.as_str()) {
            Err(e) => Err(e),
            Ok(q) => {
                let wanted = String::from_str(symbol);
                if q.symbol == wanted {
                    Ok(q)
                } else {
                    Err(FetchError::MalformedResponse)
                }
            },
        },
    }
}

/// Judges a series answer. Its owner can stop asking the provider at the
/// first failure.
pub fn judge_history_answer(a: &Result<String, FetchError>) -> (r: Result<
    StockHistoricalData,
    FetchError,
>)
    ensures
        match history_answer_outcome(*a) {
            Ok(v) => r matches Ok(h) && h@ == v && h.wf(),
            Err(e) => r == Err::<StockHistoricalData, FetchError>(e),
        },
{
    match a {
        Err(e) => Err(*e),
        Ok(body) => parse_history_response(body.as_str()),
    }
}

/// Judges the answers for `symbol` and, when both hold good data, makes the
/// entry captured at `now`.
fn entry_from_answers(symbol: &str, a: &SymbolAnswers, now: u64) -> (r: Result<StockData, FetchError>)
    ensures
        match answers_outcome(symbol@, *a) {
            Ok((q, h)) => r matches Ok(d) && d@ == (EntryView { quote: q, history: h, at: now })
                && d.historical_data.dates.len() == d.historical_data.prices.len(),
            Err(e) => r == Err::<StockData, FetchError>(e),
        },
{
    let quote = match judge_quote_answer(symbol, &a.quote) {
        Err(e) => {
            return Err(e);
        },
        Ok(q) => q,
    };
    let history = match judge_history_answer(&a.history) {
        Err(e) => {
            return Err(e);
        },
        Ok(h) => h,
    };
    Ok(StockData::new(quote, history, now))
}

/// The cache in front of the quote provider: the tracked symbols and the
/// last complete snapshot, one entry per tracked symbol.
///
/// It decides; its owner does the waiting. The owner keeps it behind a lock,
/// asks `get_stock_data`, and when that finds no fresh snapshot, releases the
/// lock, fetches the answers, and hands them to `fetch_stock_data` under the
/// lock again. Two callers that both find the snapshot stale each fetch.
/// A failed refetch returns its error: the stale snapshot is kept, for the
/// next attempt, but not served.
pub struct StockService {
    pub symbols: Vec<String>,
    pub cached_data: Option<Vec<StockData>>,
}

impl StockService {
    /// A snapshot holds one entry per tracked symbol, and each series pairs
    /// its dates with its prices.
    pub open spec fn wf(&self) -> bool {
        self.cached_data matches Some(v) ==> {
            &&& v.len() == self.symbols.len()
            &&& forall|i: int|
                0 <= i < v.len() ==> (#[trigger] v@[i]).historical_data.dates.len()
                    == v@[i].historical_data.prices.len()
        }
    }

    /// Whether the cache answers at `now` without asking the provider.
    pub open spec fn serves_at(&self, now: u64) -> bool {
        self.cached_data matches Some(v) && fresh_snapshot(v@, now)
    }

    /// A cache for `symbols` that holds nothing yet.
    pub fn new(symbols: Vec<String>) -> (r: StockService)
        ensures
            r.symbols == symbols,
            r.cached_data is None,
            r.wf(),
    {
        StockService { symbols, cached_data: None }
    }

    /// The snapshot, when it is fresh at `now` on the monotonic clock.
    /// `None` means that the provider must be asked.
    pub fn get_stock_data(&self, now: u64) -> (r: Option<&Vec<StockData>>)
        ensures
            r is Some <==> self.serves_at(now),
            r matches Some(v) ==> self.cached_data == Some(*v),
    {
        match &self.cached_data {
            None => None,
            Some(v) => {
                let mut i: usize = 0;
                while i < v.len()
                    invariant
                        0 <= i <= v.len(),
                        self.cached_data == Some(*v),
                        forall|j: int| 0 <= j < i ==> is_fresh_at(#[trigger] v@[j].fetched_at, now),
                    decreases v.len() - i,
                {
                    if !v[i].is_fresh(now) {
                        assert(!fresh_snapshot(v@, now));
                        return None;
                    }
                    i = i + 1;
                }
                Some(v)
            },
        }
    }

    /// Takes the provider's answers for the tracked symbols, in order; they
    /// may stop after the first failure. When there is one answer for each
    /// symbol and all hold good data, the snapshot is replaced as a whole by
    /// one captured at `now`. Otherwise the first failure is returned, or
    /// `MalformedResponse` when answers are missing without one, and the
    /// cache is left as it was.
    pub fn fetch_stock_data(&mut self, answers: &Vec<SymbolAnswers>, now: u64) -> (r: Result<
        (),
        FetchError,
    >)
        requires
            old(self).wf(),
        ensures
            final(self).wf(),
            final(self).symbols == old(self).symbols,
            match first_failure(
                texts(old(self).symbols@),
                answers@,
                if answers.len() <= old(self).symbols.len() {
                    answers.len() as nat
                } else {
                    old(self).symbols.len() as nat
                },
            ) {
                Some(e) => r == Err::<(), FetchError>(e),
                None => if answers.len() == old(self).symbols.len() {
                    r is Ok
                } else {
                    r == Err::<(), FetchError>(FetchError::MalformedResponse)
                },
            },
            r is Err ==> *final(self) == *old(self),
            r is Ok ==> (final(self).cached_data matches Some(v) && entries_view(v@)
                == fetched_snapshot(texts(old(self).symbols@), answers@, now)),
    {
        let n: usize = if answers.len() <= self.symbols.len() {
            answers.len()
        } else {
            self.symbols.len()
        };
        let ghost syms = texts(self.symbols@);
        let mut fresh: Vec<StockData> = Vec::new();
        let mut i: usize = 0;
        while i < n
            invariant
                0 <= i <= n,
                n <= self.symbols.len(),
                n <= answers.len(),
                n == self.symbols.len() || n == answers.len(),
                *self == *old(self),
                self.wf(),
                syms == texts(self.symbols@),
                fresh.len() == i,
                first_failure(syms, answers@, i as nat) is None,
                entries_view(fresh@) == fetched_snapshot(syms, answers@, now).subrange(0, i as int),
                forall|j: int|
                    0 <= j < i ==> (#[trigger] fresh@[j]).historical_data.dates.len()
                        == fresh@[j].historical_data.prices.len(),
            decreases n - i,
        {
            let d = match entry_from_answers(self.symbols[i].as_str(), &answers[i], now) {
                Err(e) => {
                    proof {
                        assert(first_failure(syms, answers@, (i + 1) as nat) == Some(e));
                        lemma_first_failure_stays(syms, answers@, (i + 1) as nat, n as nat);
                    }
                    return Err(e);
                },
                Ok(d) => d,
            };
            let ghost f0 = entries_view(fresh@);
            fresh.push(d);
            proof {
                let full = fetched_snapshot(syms, answers@, now);
                assert(entries_view(fresh@) =~= f0.push(fresh@[i as int]@));
                assert(full.subrange(0, i + 1) =~= full.subrange(0, i as int).push(full[i as int]));
            }
            i = i + 1;
        }
        if answers.len() != self.symbols.len() {
            return Err(FetchError::MalformedResponse);
        }
        proof {
            assert(fetched_snapshot(syms, answers@, now).subrange(0, n as int) =~= fetched_snapshot(
                syms,
                answers@,
                now,
            ));
        }
        self.cached_data = Some(fresh);
        Ok(())
    }

    /// Seeds the cache from the stored form `bytes`, given that the wall clock
    /// reads `now_wall` and the monotonic one `now_mono`. The entries must be
    /// those of the tracked symbols, in order, and each capture time must
    /// have a monotonic reading. On any failure the cache is left as it was.
    pub fn load_cache(&mut self, bytes: &Vec<u8>, now_wall: u64, now_mono: u64) -> (r: Result<
        (),
        DecodeError,
    >)
        requires
            old(self).wf(),
        ensures
            final(self).wf(),
            final(self).symbols == old(self).symbols,
            r is Err ==> *final(self) == *old(self),
            match stored_entries(bytes@) {
                None => r == Err::<(), DecodeError>(DecodeError::Corrupt),
                Some(es) => if !tracks(es, texts(old(self).symbols@)) {
                    r == Err::<(), DecodeError>(DecodeError::UntrackedSymbols)
                } else if !placeable(es, now_wall, now_mono) {
                    r == Err::<(), DecodeError>(DecodeError::TooOld)
                } else {
                    r is Ok && (final(self).cached_data matches Some(v) && entries_view(v@)
                        == on_monotonic_clock(es, now_wall, now_mono))
                },
            },
    {
        let mut durable = match decode_entries(bytes) {
            Err(e) => {
                assert(stored_entries(bytes@) is None);
                return Err(e);
            },
            Ok(v) => v,
        };
        let ghost es = durable_view(durable@);
        assert(stored_entries(bytes@) == Some(es));
        let ghost syms = texts(self.symbols@);
        let n = self.symbols.len();
        if durable.len() != n {
            return Err(DecodeError::UntrackedSymbols);
        }
        let mut i: usize = 0;
        while i < n
            invariant
                0 <= i <= n,
                n == self.symbols.len() == durable.len(),
                *self == *old(self),
                self.wf(),
                syms == texts(self.symbols@),
                es == durable_view(durable@),
                stored_entries(bytes@) == Some(es),
                forall|j: int| 0 <= j < i ==> #[trigger] es[j].quote.symbol == syms[j],
            decreases n - i,
        {
            if durable[i].quote.symbol != self.symbols[i] {
                assert(es[i as int].quote.symbol == durable@[i as int].quote.symbol@);
                assert(syms[i as int] == self.symbols@[i as int]@);
                assert(es[i as int].quote.symbol != syms[i as int]);
                assert(!tracks(es, syms));
                return Err(DecodeError::UntrackedSymbols);
            }
            i = i + 1;
        }
        assert(tracks(es, syms));
        let ghost target = on_monotonic_clock(es, now_wall, now_mono);
        let mut placed: Vec<StockData> = Vec::new();
        let mut i: usize = 0;
        while i < n
            invariant
                0 <= i <= n,
                n == es.len(),
                *self == *old(self),
                self.wf(),
                storable(es),
                stored_entries(bytes@) == Some(es),
                tracks(es, texts(old(self).symbols@)),
                durable@.len() == n - i,
                forall|j: int| 0 <= j < n - i ==> (#[trigger] durable@[j])@ == es[j + i],
                forall|j: int| 0 <= j < i ==> #[trigger] monotonic_time(es[j].at, now_wall, now_mono) is Some,
                target == on_monotonic_clock(es, now_wall, now_mono),
                placed.len() == i,
                entries_view(placed@) == target.subrange(0, i as int),
                forall|j: int|
                    0 <= j < i ==> (#[trigger] placed@[j]).historical_data.dates.len()
                        == placed@[j].historical_data.prices.len(),
            decreases n - i,
        {
            let e = durable.remove(0);
            assert(e@ == es[i as int]);
            let ghost at = e.fetched_at_timestamp;
            assert(crate::codec::storable_entry(es[i as int]));
            match e.to_stock_data(now_wall, now_mono) {
                None => {
                    assert(monotonic_time(es[i as int].at, now_wall, now_mono) is None);
                    assert(!placeable(es, now_wall, now_mono));
                    return Err(DecodeError::TooOld);
                },
                Some(d) => {
                    let ghost p0 = entries_view(placed@);
                    placed.push(d);
                    assert(entries_view(placed@) =~= p0.push(d@));
                    assert(target.subrange(0, i + 1) =~= target.subrange(0, i as int).push(target[i as int]));
                },
            }
            i = i + 1;
        }
        assert(target.subrange(0, n as int) =~= target);
        self.cached_data = Some(placed);
        Ok(())
    }

    /// A fixed sample quote, for showing the screens without the provider:
    /// WBA at 23.45 (+0.55, +2.35%), CVS at 65.32 (-1.23, -1.88%), and zero
    /// for any other symbol.
    pub fn get_stock_quote(&self, symbol: &str) -> (r: StockQuote)
        ensures
            r.symbol@ == symbol@,
            symbol@ == "WBA"@ ==> r.current_price.micros == 23450000 && r.change.micros == 550000
                && r.change_percent.micros == 2350000,
            symbol@ == "CVS"@ ==> r.current_price.micros == 65320000 && r.change.micros
                == -1230000 && r.change_percent.micros == -1880000,
            symbol@ != "WBA"@ && symbol@ != "CVS"@ ==> r.current_price.micros == 0
                && r.change.micros == 0 && r.change_percent.micros == 0,
    {
        let name = String::from_str(symbol);
        proof {
            reveal_strlit("WBA");
            reveal_strlit("CVS");
            assert("WBA"@[0] != "CVS"@[0]);
        }
        let (price, change, percent): (i64, i64, i64) = if name == String::from_str("WBA") {
            (23450000, 550000, 2350000)
        } else if name == String::from_str("CVS") {
            (65320000, -1230000, -1880000)
        } else {
            (0, 0, 0)
        };
        StockQuote {
            symbol: name,
            current_price: Decimal::from_micros(price),
            change: Decimal::from_micros(change),
            change_percent: Decimal::from_micros(percent),
        }
    }

    /// The stored form of the snapshot, with capture times on the wall
    /// clock, given both clocks read now; `None` when nothing is cached.
    pub fn cache_bytes(&self, now_wall: u64, now_mono: u64) -> (r: Option<Vec<u8>>)
        requires
            self.wf(),
        ensures
            match self.cached_data {
                None => r is None,
                Some(v) => r matches Some(b) && b@ == entries_bytes(
                    on_wall_clock(entries_view(v@), now_wall, now_mono),
                ),
            },
    {
        match &self.cached_data {
            None => None,
            Some(v) => Some(encode_entries(v, now_wall, now_mono)),
        }
    }
}


/// Storing a snapshot and loading it back gives the same snapshot: its stored
/// form is the stored form of no other entries, and each capture time, moved
/// to the wall clock and back, is unchanged when both clocks have advanced
/// alike in between.
pub proof fn lemma_store_load_round_trip(
    es: Seq<EntryView>,
    wall_then: u64,
    mono_then: u64,
    wall_now: u64,
    mono_now: u64,
)
    requires
        storable(es),
        entries_bytes(on_wall_clock(es, wall_then, mono_then)).len() <= u64::MAX,
        forall|i: int|
            0 <= i < es.len() ==> #[trigger] es[i].at <= mono_then && mono_then - es[i].at
                <= wall_then,
        wall_then <= wall_now,
        mono_then <= mono_now,
        wall_now - wall_then == mono_now - mono_then,
    ensures
        stored_entries(entries_bytes(on_wall_clock(es, wall_then, mono_then))) == Some(
            on_wall_clock(es, wall_then, mono_then),
        ),
        placeable(on_wall_clock(es, wall_then, mono_then), wall_now, mono_now),
        on_monotonic_clock(on_wall_clock(es, wall_then, mono_then), wall_now, mono_now) == es,
{
    let ws = on_wall_clock(es, wall_then, mono_then);
    assert forall|i: int| 0 <= i < ws.len() implies #[trigger] storable_entry(ws[i]) by {
        assert(storable_entry(es[i]));
    }
    let b = entries_bytes(ws);
    assert(storable(ws) && entries_bytes(ws) == b);
    let c = choose|c: Seq<EntryView>| storable(c) && #[trigger] entries_bytes(c) == b;
    assert(b.subrange(0, b.len() as int) =~= b);
    lemma_entries_bytes_unique(ws, c);
    assert(on_monotonic_clock(ws, wall_now, mono_now) =~= es);
}

/// Once a refetch has stored a snapshot captured at `now`, the cache serves
/// it, without asking the provider again, at every moment of the day that
/// follows.
pub proof fn lemma_served_after_refetch(
    s: StockService,
    answers: Seq<SymbolAnswers>,
    now: u64,
    later: u64,
)
    requires
        s.cached_data matches Some(v) && entries_view(v@) == fetched_snapshot(
            texts(s.symbols@),
            answers,
            now,
        ),
        now <= later,
        later - now < FRESHNESS_SECS,
    ensures
        s.serves_at(later),
{
    let v = s.cached_data->0;
    assert forall|i: int| 0 <= i < v@.len() implies is_fresh_at(#[trigger] v@[i].fetched_at, later) by {
        let f = fetched_snapshot(texts(s.symbols@), answers, now);
        assert(entries_view(v@).len() == v@.len());
        assert(f[i].at == now);
        assert(entries_view(v@)[i] == v@[i]@);
    }
}

/// The edge of freshness: a snapshot captured at `at` is served one second
/// before its day is out, and refetched one second after.
pub proof fn lemma_freshness_edge(s: StockService, at: u64)
    requires
        s.cached_data matches Some(v) && v.len() > 0 && forall|i: int|
            0 <= i < v.len() ==> (#[trigger] v@[i]).fetched_at == at,
        at + FRESHNESS_SECS + 1 <= u64::MAX,
    ensures
        s.serves_at((at + FRESHNESS_SECS - 1) as u64),
        !s.serves_at((at + FRESHNESS_SECS + 1) as u64),
{
    let v = s.cached_data->0;
    assert(v@[0].fetched_at == at);
}


/// A stored snapshot cut short is the stored form of nothing, so loading it
/// fails as corrupt and leaves the cache as it was.
pub proof fn lemma_cut_short_is_corrupt(es: Seq<EntryView>, k: int)
    requires
        storable(es),
        entries_bytes(es).len() <= u64::MAX,
        0 <= k < entries_bytes(es).len(),
    ensures
        stored_entries(entries_bytes(es).subrange(0, k)) is None,
{
    let cut = entries_bytes(es).subrange(0, k);
    if exists|c: Seq<EntryView>| storable(c) && #[trigger] entries_bytes(c) == cut {
        let c = choose|c: Seq<EntryView>| storable(c) && #[trigger] entries_bytes(c) == cut;
        lemma_entries_bytes_unique(es, c);
    }
}


/// Storing a snapshot and loading it back when the two clocks have drifted
/// apart by at most one second in between gives the same quotes and series,
/// with each capture time within one second of the original.
pub proof fn lemma_store_load_within_a_second(
    es: Seq<EntryView>,
    wall_then: u64,
    mono_then: u64,
    wall_now: u64,
    mono_now: u64,
)
    requires
        storable(es),
        entries_bytes(on_wall_clock(es, wall_then, mono_then)).len() <= u64::MAX,
        forall|i: int|
            0 <= i < es.len() ==> 1 <= #[trigger] es[i].at <= mono_then && mono_then - es[i].at
                <= wall_then,
        wall_then <= wall_now,
        mono_then <= mono_now,
        -1 <= (wall_now - wall_then) - (mono_now - mono_then) <= 1,
    ensures
        stored_entries(entries_bytes(on_wall_clock(es, wall_then, mono_then))) == Some(
            on_wall_clock(es, wall_then, mono_then),
        ),
        placeable(on_wall_clock(es, wall_then, mono_then), wall_now, mono_now),
        forall|i: int|
            0 <= i < es.len() ==> {
                let back = #[trigger] on_monotonic_clock(
                    on_wall_clock(es, wall_then, mono_then),
                    wall_now,
                    mono_now,
                )[i];
                &&& back.quote == es[i].quote
                &&& back.history == es[i].history
                &&& -1 <= back.at - es[i].at <= 1
            },
{
    let ws = on_wall_clock(es, wall_then, mono_then);
    assert forall|i: int| 0 <= i < ws.len() implies #[trigger] storable_entry(ws[i]) by {
        assert(storable_entry(es[i]));
    }
    let b = entries_bytes(ws);
    assert(storable(ws) && entries_bytes(ws) == b);
    let c = choose|c: Seq<EntryView>| storable(c) && #[trigger] entries_bytes(c) == b;
    assert(b.subrange(0, b.len() as int) =~= b);
    lemma_entries_bytes_unique(ws, c);
    assert forall|i: int| 0 <= i < ws.len() implies #[trigger] monotonic_time(
        ws[i].at,
        wall_now,
        mono_now,
    ) is Some by {
        assert(es[i].at >= 1);
    }
}

} // verus!

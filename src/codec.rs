use vstd::prelude::*;
use vstd::slice::slice_subrange;
use vstd::slice::slice_to_vec;
use vstd::utf8::decode_utf8;
use vstd::utf8::encode_utf8;
use vstd::utf8::valid_utf8;

use crate::decimal::Decimal;
use crate::stock::{
    durable_view,
    entries_view,
    micros_of,
    on_wall_clock,
    texts,
    wall_time,
    EntryView,
    HistoryView,
    QuoteView,
    SerializableStockData,
    StockData,
    StockHistoricalData,
    StockQuote,
};

verus! {

/// Why stored cache bytes could not be taken back.
#[derive(Clone, Copy, Debug, PartialEq, Eq, Structural)]
pub enum DecodeError {
    /// The bytes are not the encoding of any list of entries.
    Corrupt,
    /// The entries are not those of the tracked symbols, in their order.
    UntrackedSymbols,
    /// An entry is older than anything the monotonic clock can express.
    TooOld,
}

// ----- the format -----

/// Eight bytes, least significant first.
pub open spec fn u64_bytes(x: u64) -> Seq<u8> {
    seq![
        x as u8,
        (x >> 8u64) as u8,
        (x >> 16u64) as u8,
        (x >> 24u64) as u8,
        (x >> 32u64) as u8,
        (x >> 40u64) as u8,
        (x >> 48u64) as u8,
        (x >> 56u64) as u8,
    ]
}

pub open spec fn u64_of_bytes(b: Seq<u8>) -> u64 {
    (b[0] as u64) | ((b[1] as u64) << 8u64) | ((b[2] as u64) << 16u64) | ((b[3] as u64) << 24u64)
        | ((b[4] as u64) << 32u64) | ((b[5] as u64) << 40u64) | ((b[6] as u64) << 48u64) | ((
    b[7] as u64) << 56u64)
}

pub open spec fn i64_bytes(x: i64) -> Seq<u8> {
    u64_bytes(x as u64)
}

/// Text: its UTF-8 length, then its UTF-8 bytes.
pub open spec fn text_bytes(t: Seq<char>) -> Seq<u8> {
    u64_bytes(encode_utf8(t).len() as u64) + encode_utf8(t)
}

pub open spec fn quote_bytes(q: QuoteView) -> Seq<u8> {
    text_bytes(q.symbol) + i64_bytes(q.current_price) + i64_bytes(q.change) + i64_bytes(
        q.change_percent,
    )
}

/// The first `n` points of a series, each a date then a price.
pub open spec fn points_bytes(d: Seq<Seq<char>>, p: Seq<i64>, n: nat) -> Seq<u8>
    decreases n,
{
    if n == 0 {
        Seq::empty()
    } else {
        points_bytes(d, p, (n - 1) as nat) + text_bytes(d[n - 1]) + i64_bytes(p[n - 1])
    }
}

pub open spec fn history_bytes(h: HistoryView) -> Seq<u8> {
    u64_bytes(h.dates.len() as u64) + points_bytes(h.dates, h.prices, h.dates.len())
}

pub open spec fn entry_bytes(e: EntryView) -> Seq<u8> {
    quote_bytes(e.quote) + history_bytes(e.history) + u64_bytes(e.at)
}

/// The first `n` entries, one after another.
pub open spec fn list_bytes(es: Seq<EntryView>, n: nat) -> Seq<u8>
    decreases n,
{
    if n == 0 {
        Seq::empty()
    } else {
        list_bytes(es, (n - 1) as nat) + entry_bytes(es[n - 1])
    }
}

/// The stored form of a list of entries: their count, then each entry.
pub open spec fn entries_bytes(es: Seq<EntryView>) -> Seq<u8> {
    u64_bytes(es.len() as u64) + list_bytes(es, es.len())
}

/// Entries that the format can hold: each series pairs dates with prices and
/// every length fits in 64 bits.
pub open spec fn storable(es: Seq<EntryView>) -> bool {
    &&& es.len() <= u64::MAX
    &&& forall|i: int| 0 <= i < es.len() ==> #[trigger] storable_entry(es[i])
}

pub open spec fn storable_entry(e: EntryView) -> bool {
    &&& e.history.dates.len() == e.history.prices.len()
    &&& e.history.dates.len() <= u64::MAX
}

/// `e` stands in `b` from `pos` on.
pub open spec fn holds_at(b: Seq<u8>, pos: int, e: Seq<u8>) -> bool {
    0 <= pos && pos + e.len() <= b.len() && b.subrange(pos, pos + e.len()) == e
}

// ----- lemmas -----

proof fn lemma_u64_round_trip(x: u64)
    ensures
        u64_of_bytes(u64_bytes(x)) == x,
{
    let b = u64_bytes(x);
    assert(((x as u8) as u64) | ((((x >> 8u64) as u8) as u64) << 8u64) | ((((x >> 16u64) as u8)
        as u64) << 16u64) | ((((x >> 24u64) as u8) as u64) << 24u64) | ((((x >> 32u64) as u8)
        as u64) << 32u64) | ((((x >> 40u64) as u8) as u64) << 40u64) | ((((x >> 48u64) as u8)
        as u64) << 48u64) | ((((x >> 56u64) as u8) as u64) << 56u64) == x) by (bit_vector);
}

proof fn lemma_u64_bytes_of(b: Seq<u8>)
    requires
        b.len() == 8,
    ensures
        u64_bytes(u64_of_bytes(b)) == b,
{
    let (b0, b1, b2, b3, b4, b5, b6, b7) = (b[0], b[1], b[2], b[3], b[4], b[5], b[6], b[7]);
    let v = u64_of_bytes(b);
    assert(v == (b0 as u64) | ((b1 as u64) << 8u64) | ((b2 as u64) << 16u64) | ((b3 as u64)
        << 24u64) | ((b4 as u64) << 32u64) | ((b5 as u64) << 40u64) | ((b6 as u64) << 48u64) | ((
    b7 as u64) << 56u64));
    assert(v as u8 == b0 && (v >> 8u64) as u8 == b1 && (v >> 16u64) as u8 == b2 && (v >> 24u64)
        as u8 == b3 && (v >> 32u64) as u8 == b4 && (v >> 40u64) as u8 == b5 && (v >> 48u64) as u8
        == b6 && (v >> 56u64) as u8 == b7) by (bit_vector)
        requires
            v == (b0 as u64) | ((b1 as u64) << 8u64) | ((b2 as u64) << 16u64) | ((b3 as u64)
                << 24u64) | ((b4 as u64) << 32u64) | ((b5 as u64) << 40u64) | ((b6 as u64)
                << 48u64) | ((b7 as u64) << 56u64),
    ;
    assert(u64_bytes(v) =~= b);
}

proof fn lemma_i64_round_trip(x: i64)
    ensures
        ((x as u64) as i64) == x,
{
    assert(((x as u64) as i64) == x) by (bit_vector);
}

proof fn lemma_u64_as_i64(x: u64)
    ensures
        ((x as i64) as u64) == x,
{
    assert(((x as i64) as u64) == x) by (bit_vector);
}

proof fn lemma_holds_split(b: Seq<u8>, pos: int, x: Seq<u8>, y: Seq<u8>)
    requires
        holds_at(b, pos, x + y),
    ensures
        holds_at(b, pos, x),
        holds_at(b, pos + x.len(), y),
{
    assert(b.subrange(pos, pos + x.len()) =~= (x + y).subrange(0, x.len() as int));
    assert(b.subrange(pos + x.len(), pos + x.len() + y.len()) =~= (x + y).subrange(
        x.len() as int,
        (x.len() + y.len()) as int,
    ));
    assert((x + y).subrange(0, x.len() as int) =~= x);
    assert((x + y).subrange(x.len() as int, (x.len() + y.len()) as int) =~= y);
}

proof fn lemma_holds_join(b: Seq<u8>, pos: int, x: Seq<u8>, y: Seq<u8>)
    requires
        holds_at(b, pos, x),
        holds_at(b, pos + x.len(), y),
    ensures
        holds_at(b, pos, x + y),
{
    assert(b.subrange(pos, pos + x.len() + y.len()) =~= b.subrange(pos, pos + x.len())
        + b.subrange(pos + x.len(), pos + x.len() + y.len()));
}

proof fn lemma_list_prefix(es: Seq<EntryView>, i: nat, n: nat)
    requires
        i <= n,
    ensures
        list_bytes(es, n).len() >= list_bytes(es, i).len(),
        list_bytes(es, n).subrange(0, list_bytes(es, i).len() as int) == list_bytes(es, i),
    decreases n,
{
    if i < n {
        lemma_list_prefix(es, i, (n - 1) as nat);
        let a = list_bytes(es, (n - 1) as nat);
        let c = list_bytes(es, i);
        assert((a + entry_bytes(es[n - 1])).subrange(0, c.len() as int) =~= a.subrange(
            0,
            c.len() as int,
        ));
    } else {
        assert(list_bytes(es, n).subrange(0, list_bytes(es, n).len() as int) =~= list_bytes(
            es,
            n,
        ));
    }
}

proof fn lemma_points_prefix(d: Seq<Seq<char>>, p: Seq<i64>, i: nat, n: nat)
    requires
        i <= n,
    ensures
        points_bytes(d, p, n).len() >= points_bytes(d, p, i).len(),
        points_bytes(d, p, n).subrange(0, points_bytes(d, p, i).len() as int) == points_bytes(
            d,
            p,
            i,
        ),
    decreases n,
{
    if i < n {
        lemma_points_prefix(d, p, i, (n - 1) as nat);
        let a = points_bytes(d, p, (n - 1) as nat);
        let c = points_bytes(d, p, i);
        let t = text_bytes(d[n - 1]) + i64_bytes(p[n - 1]);
        assert(points_bytes(d, p, n) =~= a + t);
        assert((a + t).subrange(0, c.len() as int) =~= a.subrange(0, c.len() as int));
    } else {
        assert(points_bytes(d, p, n).subrange(0, points_bytes(d, p, n).len() as int)
            =~= points_bytes(d, p, n));
    }
}

/// The item after a prefix of a concatenation stands right after that prefix.
proof fn lemma_next_item(b: Seq<u8>, start: int, whole: Seq<u8>, before: Seq<u8>, item: Seq<u8>)
    requires
        holds_at(b, start, whole),
        before.len() + item.len() <= whole.len(),
        whole.subrange(0, (before.len() + item.len()) as int) == before + item,
    ensures
        holds_at(b, start + before.len(), item),
{
    let k = before.len() + item.len();
    assert(b.subrange(start, start + k) =~= whole.subrange(0, k as int));
    lemma_holds_split(b, start, before, item);
}

proof fn lemma_points_same(d1: Seq<Seq<char>>, p1: Seq<i64>, d2: Seq<Seq<char>>, p2: Seq<i64>, n: nat)
    requires
        n <= d1.len(),
        n <= d2.len(),
        n <= p1.len(),
        n <= p2.len(),
        d1.subrange(0, n as int) == d2.subrange(0, n as int),
        p1.subrange(0, n as int) == p2.subrange(0, n as int),
    ensures
        points_bytes(d1, p1, n) == points_bytes(d2, p2, n),
    decreases n,
{
    if n > 0 {
        let m = (n - 1) as nat;
        assert(d1.subrange(0, m as int) =~= d1.subrange(0, n as int).subrange(0, m as int));
        assert(d2.subrange(0, m as int) =~= d2.subrange(0, n as int).subrange(0, m as int));
        assert(p1.subrange(0, m as int) =~= p1.subrange(0, n as int).subrange(0, m as int));
        assert(p2.subrange(0, m as int) =~= p2.subrange(0, n as int).subrange(0, m as int));
        assert(d1[m as int] == d1.subrange(0, n as int)[m as int]);
        assert(d2[m as int] == d2.subrange(0, n as int)[m as int]);
        assert(p1[m as int] == p1.subrange(0, n as int)[m as int]);
        assert(p2[m as int] == p2.subrange(0, n as int)[m as int]);
        lemma_points_same(d1, p1, d2, p2, m);
    }
}

proof fn lemma_list_same(e1: Seq<EntryView>, e2: Seq<EntryView>, n: nat)
    requires
        n <= e1.len(),
        n <= e2.len(),
        e1.subrange(0, n as int) == e2.subrange(0, n as int),
    ensures
        list_bytes(e1, n) == list_bytes(e2, n),
    decreases n,
{
    if n > 0 {
        let m = (n - 1) as nat;
        assert(e1.subrange(0, m as int) =~= e1.subrange(0, n as int).subrange(0, m as int));
        assert(e2.subrange(0, m as int) =~= e2.subrange(0, n as int).subrange(0, m as int));
        assert(e1[m as int] == e1.subrange(0, n as int)[m as int]);
        assert(e2[m as int] == e2.subrange(0, n as int)[m as int]);
        lemma_list_same(e1, e2, m);
    }
}

// ----- writing -----

fn push_u64(out: &mut Vec<u8>, x: u64)
    ensures
        final(out)@ == old(out)@ + u64_bytes(x),
{
    out.push(x as u8);
    out.push((x >> 8u64) as u8);
    out.push((x >> 16u64) as u8);
    out.push((x >> 24u64) as u8);
    out.push((x >> 32u64) as u8);
    out.push((x >> 40u64) as u8);
    out.push((x >> 48u64) as u8);
    out.push((x >> 56u64) as u8);
    assert(final(out)@ =~= old(out)@ + u64_bytes(x));
}

fn push_text(out: &mut Vec<u8>, s: &String)
    ensures
        final(out)@ == old(out)@ + text_bytes(s@),
{
    let bytes = s.as_str().as_bytes();
    let mut copy = slice_to_vec(bytes);
    push_u64(out, bytes.len() as u64);
    out.append(&mut copy);
}

fn push_quote(out: &mut Vec<u8>, q: &StockQuote)
    ensures
        final(out)@ == old(out)@ + quote_bytes(q@),
{
    push_text(out, &q.symbol);
    push_u64(out, q.current_price.micros as u64);
    push_u64(out, q.change.micros as u64);
    push_u64(out, q.change_percent.micros as u64);
    assert(final(out)@ =~= old(out)@ + quote_bytes(q@));
}

fn push_history(out: &mut Vec<u8>, h: &StockHistoricalData)
    requires
        h.dates.len() == h.prices.len(),
    ensures
        final(out)@ == old(out)@ + history_bytes(h@),
{
    let ghost start = old(out)@;
    let n = h.dates.len();
    push_u64(out, n as u64);
    let mut i: usize = 0;
    while i < n
        invariant
            n == h.dates.len() == h.prices.len(),
            0 <= i <= n,
            out@ == start + u64_bytes(n as u64) + points_bytes(h@.dates, h@.prices, i as nat),
        decreases n - i,
    {
        push_text(out, &h.dates[i]);
        push_u64(out, h.prices[i].micros as u64);
        i = i + 1;
        assert(out@ =~= start + u64_bytes(n as u64) + points_bytes(h@.dates, h@.prices, i as nat));
    }
}

/// Writes the stored form of `entries`, each with its capture time moved
/// to the wall clock, given both clocks read now.
pub fn encode_entries(entries: &Vec<StockData>, now_wall: u64, now_mono: u64) -> (r: Vec<u8>)
    requires
        forall|i: int|
            0 <= i < entries.len() ==> (#[trigger] entries@[i]).historical_data.dates.len()
                == entries@[i].historical_data.prices.len(),
    ensures
        r@ == entries_bytes(on_wall_clock(entries_view(entries@), now_wall, now_mono)),
{
    let ghost es = on_wall_clock(entries_view(entries@), now_wall, now_mono);
    let mut out: Vec<u8> = Vec::new();
    let n = entries.len();
    push_u64(&mut out, n as u64);
    let mut i: usize = 0;
    while i < n
        invariant
            n == entries.len(),
            0 <= i <= n,
            es == on_wall_clock(entries_view(entries@), now_wall, now_mono),
            forall|i: int|
                0 <= i < entries.len() ==> (#[trigger] entries@[i]).historical_data.dates.len()
                    == entries@[i].historical_data.prices.len(),
            out@ == u64_bytes(n as u64) + list_bytes(es, i as nat),
        decreases n - i,
    {
        let e = &entries[i];
        push_quote(&mut out, &e.quote);
        push_history(&mut out, &e.historical_data);
        push_u64(&mut out, e.wall_time(now_wall, now_mono));
        assert(es[i as int] == (EntryView { at: wall_time(e.fetched_at, now_wall, now_mono), ..e@ }));
        assert(out@ =~= u64_bytes(n as u64) + list_bytes(es, (i + 1) as nat));
        i = i + 1;
    }
    out
}


// ----- reading -----

/// Relies on `String::from_utf8`: it succeeds exactly on valid UTF-8, and the
/// string then holds the characters that the bytes encode.
#[verifier::external_body]
fn string_from_utf8(bytes: Vec<u8>) -> (r: Option<String>)
    ensures
        r is Some <==> valid_utf8(bytes@),
        r matches Some(s) ==> s@ == decode_utf8(bytes@),
{
    String::from_utf8(bytes).ok()
}

fn read_u64(b: &Vec<u8>, pos: usize) -> (r: Option<u64>)
    ensures
        r is Some <==> pos + 8 <= b@.len(),
        r matches Some(x) ==> holds_at(b@, pos as int, u64_bytes(x)),
        forall|x: u64| #[trigger] holds_at(b@, pos as int, u64_bytes(x)) ==> r == Some(x),
{
    if b.len() < 8 || pos > b.len() - 8 {
        return None;
    }
    let x: u64 = (b[pos] as u64) | ((b[pos + 1] as u64) << 8u64) | ((b[pos + 2] as u64) << 16u64)
        | ((b[pos + 3] as u64) << 24u64) | ((b[pos + 4] as u64) << 32u64) | ((b[pos + 5] as u64)
        << 40u64) | ((b[pos + 6] as u64) << 48u64) | ((b[pos + 7] as u64) << 56u64);
    proof {
        let s = b@.subrange(pos as int, pos + 8);
        assert(x == u64_of_bytes(s));
        lemma_u64_bytes_of(s);
        assert forall|y: u64| #[trigger] holds_at(b@, pos as int, u64_bytes(y)) implies x == y by {
            lemma_u64_round_trip(y);
        }
    }
    Some(x)
}

fn read_decimal(b: &Vec<u8>, pos: usize) -> (r: Option<Decimal>)
    ensures
        r is Some <==> pos + 8 <= b@.len(),
        r matches Some(d) ==> holds_at(b@, pos as int, i64_bytes(d.micros)),
        forall|m: i64| #[trigger] holds_at(b@, pos as int, i64_bytes(m)) ==> r == Some(
            Decimal { micros: m },
        ),
{
    match read_u64(b, pos) {
        None => None,
        Some(x) => {
            proof {
                lemma_u64_as_i64(x);
                assert forall|m: i64| #[trigger] holds_at(b@, pos as int, i64_bytes(m)) implies x
                    as i64 == m by {
                    lemma_i64_round_trip(m);
                }
            }
            Some(Decimal { micros: x as i64 })
        },
    }
}

fn read_text(b: &Vec<u8>, pos: usize) -> (r: Option<(String, usize)>)
    ensures
        r matches Some((s, p)) ==> holds_at(b@, pos as int, text_bytes(s@)) && p == pos
            + text_bytes(s@).len(),
        forall|t: Seq<char>| #[trigger]
            holds_at(b@, pos as int, text_bytes(t)) ==> (r matches Some((s, p)) && s@ == t && p
                == pos + text_bytes(t).len()),
{
    let len = b.len();
    let n = match read_u64(b, pos) {
        None => {
            return None;
        },
        Some(n) => n,
    };
    let start = pos + 8;
    if n > (b.len() - start) as u64 {
        proof {
            assert forall|t: Seq<char>| #[trigger] holds_at(b@, pos as int, text_bytes(t)) implies false by {
                lemma_holds_split(b@, pos as int, u64_bytes(encode_utf8(t).len() as u64), encode_utf8(t));
            }
        }
        return None;
    }
    let end = start + n as usize;
    let bytes = slice_to_vec(slice_subrange(b.as_slice(), start, end));
    assert(bytes@ == b@.subrange(start as int, end as int));
    let ghost bv = bytes@;
    match string_from_utf8(bytes) {
        None => {
            proof {
                assert forall|t: Seq<char>| #[trigger] holds_at(b@, pos as int, text_bytes(t)) implies false by {
                    lemma_holds_split(b@, pos as int, u64_bytes(encode_utf8(t).len() as u64), encode_utf8(t));
                    vstd::utf8::encode_utf8_valid_utf8(t);
                }
            }
            None
        },
        Some(s) => {
            proof {
                vstd::utf8::decode_utf8_encode_utf8(bv);
                assert(holds_at(b@, start as int, bv));
                lemma_holds_join(b@, pos as int, u64_bytes(n), bv);
                assert forall|t: Seq<char>| #[trigger] holds_at(b@, pos as int, text_bytes(t)) implies s@ == t by {
                    lemma_holds_split(b@, pos as int, u64_bytes(encode_utf8(t).len() as u64), encode_utf8(t));
                    vstd::utf8::encode_utf8_decode_utf8(t);
                }
            }
            Some((s, end))
        },
    }
}

fn read_quote(b: &Vec<u8>, pos: usize) -> (r: Option<(StockQuote, usize)>)
    ensures
        r matches Some((q, p)) ==> holds_at(b@, pos as int, quote_bytes(q@)) && p == pos
            + quote_bytes(q@).len(),
        forall|v: QuoteView| #[trigger]
            holds_at(b@, pos as int, quote_bytes(v)) ==> (r matches Some((q, p)) && q@ == v && p
                == pos + quote_bytes(v).len()),
{
    proof {
        assert forall|v: QuoteView| #[trigger] holds_at(b@, pos as int, quote_bytes(v)) implies {
            &&& holds_at(b@, pos as int, text_bytes(v.symbol))
            &&& holds_at(b@, pos + text_bytes(v.symbol).len(), i64_bytes(v.current_price))
            &&& holds_at(b@, pos + text_bytes(v.symbol).len() + 8, i64_bytes(v.change))
            &&& holds_at(b@, pos + text_bytes(v.symbol).len() + 16, i64_bytes(v.change_percent))
        } by {
            let t = text_bytes(v.symbol);
            let a = i64_bytes(v.current_price);
            let c = i64_bytes(v.change);
            let d = i64_bytes(v.change_percent);
            lemma_holds_split(b@, pos as int, t + a + c, d);
            lemma_holds_split(b@, pos as int, t + a, c);
            lemma_holds_split(b@, pos as int, t, a);
        }
    }
    let len = b.len();
    let (symbol, p1) = match read_text(b, pos) {
        None => {
            return None;
        },
        Some(x) => x,
    };
    let current_price = match read_decimal(b, p1) {
        None => {
            return None;
        },
        Some(d) => d,
    };
    let change = match read_decimal(b, p1 + 8) {
        None => {
            return None;
        },
        Some(d) => d,
    };
    let change_percent = match read_decimal(b, p1 + 16) {
        None => {
            return None;
        },
        Some(d) => d,
    };
    let q = StockQuote { symbol, current_price, change, change_percent };
    proof {
        let t = text_bytes(q@.symbol);
        let a = i64_bytes(q@.current_price);
        let c = i64_bytes(q@.change);
        let d = i64_bytes(q@.change_percent);
        lemma_holds_join(b@, pos as int, t, a);
        lemma_holds_join(b@, pos as int, t + a, c);
        lemma_holds_join(b@, pos as int, t + a + c, d);
    }
    Some((q, p1 + 24))
}


/// A series that the format can hold.
pub open spec fn storable_history(h: HistoryView) -> bool {
    h.dates.len() == h.prices.len() && h.dates.len() <= u64::MAX
}

fn read_history(b: &Vec<u8>, pos: usize) -> (r: Option<(StockHistoricalData, usize)>)
    ensures
        r matches Some((h, p)) ==> holds_at(b@, pos as int, history_bytes(h@)) && p == pos
            + history_bytes(h@).len() && storable_history(h@),
        forall|v: HistoryView|
            storable_history(v) && #[trigger] holds_at(b@, pos as int, history_bytes(v)) ==> (
            r matches Some((h, p)) && h@ == v && p == pos + history_bytes(v).len()),
{
    let len = b.len();
    let n = match read_u64(b, pos) {
        None => {
            return None;
        },
        Some(n) => n,
    };
    proof {
        assert forall|v: HistoryView|
            storable_history(v) && #[trigger] holds_at(b@, pos as int, history_bytes(v)) implies
            v.dates.len() == n && holds_at(b@, pos + 8, points_bytes(v.dates, v.prices, v.dates.len())) by {
            lemma_holds_split(b@, pos as int, u64_bytes(v.dates.len() as u64), points_bytes(v.dates, v.prices, v.dates.len()));
        }
    }
    let mut dates: Vec<String> = Vec::new();
    let mut prices: Vec<Decimal> = Vec::new();
    let mut p: usize = pos + 8;
    let mut i: u64 = 0;
    assert(b@.subrange(pos + 8, pos + 8) =~= Seq::<u8>::empty());
    while i < n
        invariant
            len == b@.len(),
            pos + 8 <= p <= len,
            i <= n,
            dates.len() == i,
            prices.len() == i,
            holds_at(b@, pos as int, u64_bytes(n)),
            holds_at(b@, pos + 8, points_bytes(texts(dates@), micros_of(prices@), i as nat)),
            p == pos + 8 + points_bytes(texts(dates@), micros_of(prices@), i as nat).len(),
            forall|v: HistoryView|
                storable_history(v) && #[trigger] holds_at(b@, pos as int, history_bytes(v)) ==> {
                    &&& v.dates.len() == n
                    &&& holds_at(b@, pos + 8, points_bytes(v.dates, v.prices, v.dates.len()))
                    &&& texts(dates@) == v.dates.subrange(0, i as int)
                    &&& micros_of(prices@) == v.prices.subrange(0, i as int)
                },
        decreases n - i,
    {
        let ghost d0 = texts(dates@);
        let ghost p0 = micros_of(prices@);
        proof {
            assert(d0.subrange(0, i as int) =~= d0);
            assert(p0.subrange(0, i as int) =~= p0);
            assert forall|v: HistoryView|
                storable_history(v) && #[trigger] holds_at(b@, pos as int, history_bytes(v)) implies
                holds_at(b@, p as int, text_bytes(v.dates[i as int])) && holds_at(b@, p + text_bytes(v.dates[i as int]).len(), i64_bytes(v.prices[i as int])) by {
                let whole = points_bytes(v.dates, v.prices, v.dates.len());
                let before = points_bytes(v.dates, v.prices, i as nat);
                let item = text_bytes(v.dates[i as int]) + i64_bytes(v.prices[i as int]);
                lemma_points_prefix(v.dates, v.prices, (i + 1) as nat, v.dates.len());
                assert(points_bytes(v.dates, v.prices, (i + 1) as nat) == before + item);
                lemma_points_same(v.dates, v.prices, d0, p0, i as nat);
                lemma_next_item(b@, pos + 8, whole, before, item);
                lemma_holds_split(b@, p as int, text_bytes(v.dates[i as int]), i64_bytes(v.prices[i as int]));
            }
        }
        let (d, p1) = match read_text(b, p) {
            None => {
                return None;
            },
            Some(x) => x,
        };
        let price = match read_decimal(b, p1) {
            None => {
                return None;
            },
            Some(x) => x,
        };
        dates.push(d);
        prices.push(price);
        proof {
            let d1 = texts(dates@);
            let q1 = micros_of(prices@);
            assert(d1 =~= d0.push(d@));
            assert(q1 =~= p0.push(price.micros));
            assert(d1.subrange(0, i as int) =~= d0);
            assert(q1.subrange(0, i as int) =~= p0);
            assert(d0.subrange(0, i as int) =~= d0);
            assert(p0.subrange(0, i as int) =~= p0);
            lemma_points_same(d1, q1, d0, p0, i as nat);
            assert(points_bytes(d1, q1, (i + 1) as nat) == points_bytes(d0, p0, i as nat) + text_bytes(d@) + i64_bytes(price.micros));
            lemma_holds_join(b@, p as int, text_bytes(d@), i64_bytes(price.micros));
            lemma_holds_join(b@, pos + 8, points_bytes(d0, p0, i as nat), text_bytes(d@) + i64_bytes(price.micros));
            assert(points_bytes(d0, p0, i as nat) + (text_bytes(d@) + i64_bytes(price.micros)) =~= points_bytes(d0, p0, i as nat) + text_bytes(d@) + i64_bytes(price.micros));
            assert forall|v: HistoryView|
                storable_history(v) && #[trigger] holds_at(b@, pos as int, history_bytes(v)) implies
                d1 == v.dates.subrange(0, i + 1) && q1 == v.prices.subrange(0, i + 1) by {
                assert(v.dates.subrange(0, i + 1) =~= v.dates.subrange(0, i as int).push(v.dates[i as int]));
                assert(v.prices.subrange(0, i + 1) =~= v.prices.subrange(0, i as int).push(v.prices[i as int]));
            }
        }
        p = p1 + 8;
        i = i + 1;
    }
    let h = StockHistoricalData { dates, prices };
    proof {
        lemma_holds_join(b@, pos as int, u64_bytes(n), points_bytes(h@.dates, h@.prices, i as nat));
        assert forall|v: HistoryView|
            storable_history(v) && #[trigger] holds_at(b@, pos as int, history_bytes(v)) implies h@ == v by {
            assert(v.dates.subrange(0, i as int) =~= v.dates);
            assert(v.prices.subrange(0, i as int) =~= v.prices);
        }
    }
    Some((h, p))
}


fn read_entry(b: &Vec<u8>, pos: usize) -> (r: Option<(SerializableStockData, usize)>)
    ensures
        r matches Some((e, p)) ==> holds_at(b@, pos as int, entry_bytes(e@)) && p == pos
            + entry_bytes(e@).len() && storable_entry(e@),
        forall|v: EntryView|
            storable_entry(v) && #[trigger] holds_at(b@, pos as int, entry_bytes(v)) ==> (
            r matches Some((e, p)) && e@ == v && p == pos + entry_bytes(v).len()),
{
    let len = b.len();
    proof {
        assert forall|v: EntryView| storable_entry(v) && #[trigger] holds_at(b@, pos as int, entry_bytes(v)) implies {
            &&& holds_at(b@, pos as int, quote_bytes(v.quote))
            &&& holds_at(b@, pos + quote_bytes(v.quote).len(), history_bytes(v.history))
            &&& holds_at(b@, pos + quote_bytes(v.quote).len() + history_bytes(v.history).len(), u64_bytes(v.at))
            &&& storable_history(v.history)
        } by {
            lemma_holds_split(b@, pos as int, quote_bytes(v.quote) + history_bytes(v.history), u64_bytes(v.at));
            lemma_holds_split(b@, pos as int, quote_bytes(v.quote), history_bytes(v.history));
        }
    }
    let (quote, p1) = match read_quote(b, pos) {
        None => {
            return None;
        },
        Some(x) => x,
    };
    let (historical_data, p2) = match read_history(b, p1) {
        None => {
            return None;
        },
        Some(x) => x,
    };
    let fetched_at_timestamp = match read_u64(b, p2) {
        None => {
            return None;
        },
        Some(x) => x,
    };
    let e = SerializableStockData { quote, historical_data, fetched_at_timestamp };
    proof {
        lemma_holds_join(b@, pos as int, quote_bytes(e@.quote), history_bytes(e@.history));
        lemma_holds_join(b@, pos as int, quote_bytes(e@.quote) + history_bytes(e@.history), u64_bytes(e@.at));
    }
    Some((e, p2 + 8))
}

/// Reads back the entries that `encode_entries` wrote. Bytes that are not
/// the stored form of any entries are refused as corrupt.
pub fn decode_entries(b: &Vec<u8>) -> (r: Result<Vec<SerializableStockData>, DecodeError>)
    ensures
        r matches Ok(v) ==> entries_bytes(durable_view(v@)) == b@ && storable(durable_view(v@)),
        r matches Err(e) ==> e == DecodeError::Corrupt,
        forall|es: Seq<EntryView>|
            storable(es) && #[trigger] entries_bytes(es) == b@ ==> (r matches Ok(v)
                && durable_view(v@) == es),
{
    let len = b.len();
    let n = match read_u64(b, 0) {
        None => {
            proof {
                assert forall|es: Seq<EntryView>| storable(es) && #[trigger] entries_bytes(es) == b@ implies false by {
                    assert(entries_bytes(es).len() >= 8);
                }
            }
            return Err(DecodeError::Corrupt);
        },
        Some(n) => n,
    };
    proof {
        assert forall|es: Seq<EntryView>| storable(es) && #[trigger] entries_bytes(es) == b@ implies
            es.len() == n && holds_at(b@, 8, list_bytes(es, es.len())) by {
            assert(b@.subrange(0, b@.len() as int) =~= b@);
            lemma_holds_split(b@, 0, u64_bytes(es.len() as u64), list_bytes(es, es.len()));
        }
    }
    let mut out: Vec<SerializableStockData> = Vec::new();
    let mut p: usize = 8;
    let mut i: u64 = 0;
    assert(b@.subrange(8, 8) =~= Seq::<u8>::empty());
    while i < n
        invariant
            len == b@.len(),
            8 <= p <= len,
            i <= n,
            out.len() == i,
            holds_at(b@, 0, u64_bytes(n)),
            holds_at(b@, 8, list_bytes(durable_view(out@), i as nat)),
            p == 8 + list_bytes(durable_view(out@), i as nat).len(),
            forall|j: int| 0 <= j < out.len() ==> #[trigger] storable_entry(durable_view(out@)[j]),
            forall|es: Seq<EntryView>|
                storable(es) && #[trigger] entries_bytes(es) == b@ ==> {
                    &&& es.len() == n
                    &&& holds_at(b@, 8, list_bytes(es, es.len()))
                    &&& durable_view(out@) == es.subrange(0, i as int)
                },
        decreases n - i,
    {
        let ghost o0 = durable_view(out@);
        proof {
            assert(o0.subrange(0, i as int) =~= o0);
            assert forall|es: Seq<EntryView>| storable(es) && #[trigger] entries_bytes(es) == b@ implies
                storable_entry(es[i as int]) && holds_at(b@, p as int, entry_bytes(es[i as int])) by {
                let whole = list_bytes(es, es.len());
                let before = list_bytes(es, i as nat);
                lemma_list_prefix(es, (i + 1) as nat, es.len());
                lemma_list_same(es, o0, i as nat);
                lemma_next_item(b@, 8, whole, before, entry_bytes(es[i as int]));
            }
        }
        let (e, p1) = match read_entry(b, p) {
            None => {
                return Err(DecodeError::Corrupt);
            },
            Some(x) => x,
        };
        out.push(e);
        proof {
            let o1 = durable_view(out@);
            assert(o1 =~= o0.push(e@));
            assert(o1.subrange(0, i as int) =~= o0);
            lemma_list_same(o1, o0, i as nat);
            lemma_holds_join(b@, 8, list_bytes(o0, i as nat), entry_bytes(e@));
            assert forall|es: Seq<EntryView>| storable(es) && #[trigger] entries_bytes(es) == b@ implies
                o1 == es.subrange(0, i + 1) by {
                assert(es.subrange(0, i + 1) =~= es.subrange(0, i as int).push(es[i as int]));
            }
        }
        p = p1;
        i = i + 1;
    }
    if p != len {
        proof {
            assert forall|es: Seq<EntryView>| storable(es) && #[trigger] entries_bytes(es) == b@ implies false by {
                assert(es.subrange(0, i as int) =~= es);
                assert(durable_view(out@).subrange(0, i as int) =~= durable_view(out@));
                lemma_list_same(es, durable_view(out@), i as nat);
            }
        }
        return Err(DecodeError::Corrupt);
    }
    proof {
        let o = durable_view(out@);
        lemma_holds_join(b@, 0, u64_bytes(n), list_bytes(o, i as nat));
        assert(b@.subrange(0, len as int) =~= b@);
        assert forall|es: Seq<EntryView>| storable(es) && #[trigger] entries_bytes(es) == b@ implies o == es by {
            assert(es.subrange(0, i as int) =~= es);
        }
    }
    Ok(out)
}


// ----- the stored form names its entries uniquely -----

proof fn lemma_u64_inj(b: Seq<u8>, pos: int, x: u64, y: u64)
    requires
        holds_at(b, pos, u64_bytes(x)),
        holds_at(b, pos, u64_bytes(y)),
    ensures
        x == y,
{
    lemma_u64_round_trip(x);
    lemma_u64_round_trip(y);
}

proof fn lemma_i64_inj(b: Seq<u8>, pos: int, x: i64, y: i64)
    requires
        holds_at(b, pos, i64_bytes(x)),
        holds_at(b, pos, i64_bytes(y)),
    ensures
        x == y,
{
    lemma_u64_inj(b, pos, x as u64, y as u64);
    lemma_i64_round_trip(x);
    lemma_i64_round_trip(y);
}

proof fn lemma_text_inj(b: Seq<u8>, pos: int, t1: Seq<char>, t2: Seq<char>)
    requires
        b.len() <= u64::MAX,
        holds_at(b, pos, text_bytes(t1)),
        holds_at(b, pos, text_bytes(t2)),
    ensures
        t1 == t2,
{
    let e1 = encode_utf8(t1);
    let e2 = encode_utf8(t2);
    lemma_holds_split(b, pos, u64_bytes(e1.len() as u64), e1);
    lemma_holds_split(b, pos, u64_bytes(e2.len() as u64), e2);
    lemma_u64_inj(b, pos, e1.len() as u64, e2.len() as u64);
    assert(e1 == e2);
    vstd::utf8::encode_utf8_decode_utf8(t1);
    vstd::utf8::encode_utf8_decode_utf8(t2);
}

proof fn lemma_quote_inj(b: Seq<u8>, pos: int, q1: QuoteView, q2: QuoteView)
    requires
        b.len() <= u64::MAX,
        holds_at(b, pos, quote_bytes(q1)),
        holds_at(b, pos, quote_bytes(q2)),
    ensures
        q1 == q2,
{
    let t1 = text_bytes(q1.symbol);
    let t2 = text_bytes(q2.symbol);
    lemma_holds_split(b, pos, t1 + i64_bytes(q1.current_price) + i64_bytes(q1.change), i64_bytes(q1.change_percent));
    lemma_holds_split(b, pos, t1 + i64_bytes(q1.current_price), i64_bytes(q1.change));
    lemma_holds_split(b, pos, t1, i64_bytes(q1.current_price));
    lemma_holds_split(b, pos, t2 + i64_bytes(q2.current_price) + i64_bytes(q2.change), i64_bytes(q2.change_percent));
    lemma_holds_split(b, pos, t2 + i64_bytes(q2.current_price), i64_bytes(q2.change));
    lemma_holds_split(b, pos, t2, i64_bytes(q2.current_price));
    lemma_text_inj(b, pos, q1.symbol, q2.symbol);
    lemma_i64_inj(b, pos + t1.len(), q1.current_price, q2.current_price);
    lemma_i64_inj(b, pos + t1.len() + 8, q1.change, q2.change);
    lemma_i64_inj(b, pos + t1.len() + 16, q1.change_percent, q2.change_percent);
}

proof fn lemma_points_inj(b: Seq<u8>, pos: int, h1: HistoryView, h2: HistoryView, k: nat)
    requires
        b.len() <= u64::MAX,
        storable_history(h1),
        storable_history(h2),
        h1.dates.len() == h2.dates.len(),
        k <= h1.dates.len(),
        holds_at(b, pos, points_bytes(h1.dates, h1.prices, h1.dates.len())),
        holds_at(b, pos, points_bytes(h2.dates, h2.prices, h2.dates.len())),
    ensures
        h1.dates.subrange(0, k as int) == h2.dates.subrange(0, k as int),
        h1.prices.subrange(0, k as int) == h2.prices.subrange(0, k as int),
        points_bytes(h1.dates, h1.prices, k) == points_bytes(h2.dates, h2.prices, k),
    decreases k,
{
    if k > 0 {
        let j = (k - 1) as nat;
        lemma_points_inj(b, pos, h1, h2, j);
        let before = points_bytes(h1.dates, h1.prices, j);
        lemma_points_same(h1.dates, h1.prices, h2.dates, h2.prices, j);
        let a1 = text_bytes(h1.dates[j as int]);
        let a2 = text_bytes(h2.dates[j as int]);
        lemma_points_prefix(h1.dates, h1.prices, k, h1.dates.len());
        lemma_points_prefix(h2.dates, h2.prices, k, h2.dates.len());
        assert(points_bytes(h1.dates, h1.prices, k) =~= before + (a1 + i64_bytes(h1.prices[j as int])));
        assert(points_bytes(h2.dates, h2.prices, k) =~= before + (a2 + i64_bytes(h2.prices[j as int])));
        lemma_next_item(b, pos, points_bytes(h1.dates, h1.prices, h1.dates.len()), before, a1 + i64_bytes(h1.prices[j as int]));
        lemma_next_item(b, pos, points_bytes(h2.dates, h2.prices, h2.dates.len()), before, a2 + i64_bytes(h2.prices[j as int]));
        lemma_holds_split(b, pos + before.len(), a1, i64_bytes(h1.prices[j as int]));
        lemma_holds_split(b, pos + before.len(), a2, i64_bytes(h2.prices[j as int]));
        lemma_text_inj(b, pos + before.len(), h1.dates[j as int], h2.dates[j as int]);
        lemma_i64_inj(b, pos + before.len() + a1.len(), h1.prices[j as int], h2.prices[j as int]);
        assert(h1.dates.subrange(0, k as int) =~= h1.dates.subrange(0, j as int).push(h1.dates[j as int]));
        assert(h2.dates.subrange(0, k as int) =~= h2.dates.subrange(0, j as int).push(h2.dates[j as int]));
        assert(h1.prices.subrange(0, k as int) =~= h1.prices.subrange(0, j as int).push(h1.prices[j as int]));
        assert(h2.prices.subrange(0, k as int) =~= h2.prices.subrange(0, j as int).push(h2.prices[j as int]));
    } else {
        assert(h1.dates.subrange(0, 0) =~= h2.dates.subrange(0, 0));
        assert(h1.prices.subrange(0, 0) =~= h2.prices.subrange(0, 0));
    }
}

proof fn lemma_history_inj(b: Seq<u8>, pos: int, h1: HistoryView, h2: HistoryView)
    requires
        b.len() <= u64::MAX,
        storable_history(h1),
        storable_history(h2),
        holds_at(b, pos, history_bytes(h1)),
        holds_at(b, pos, history_bytes(h2)),
    ensures
        h1 == h2,
{
    let n1 = h1.dates.len();
    let n2 = h2.dates.len();
    lemma_holds_split(b, pos, u64_bytes(n1 as u64), points_bytes(h1.dates, h1.prices, n1));
    lemma_holds_split(b, pos, u64_bytes(n2 as u64), points_bytes(h2.dates, h2.prices, n2));
    lemma_u64_inj(b, pos, n1 as u64, n2 as u64);
    lemma_points_inj(b, pos + 8, h1, h2, n1);
    assert(h1.dates.subrange(0, n1 as int) =~= h1.dates);
    assert(h2.dates.subrange(0, n1 as int) =~= h2.dates);
    assert(h1.prices.subrange(0, n1 as int) =~= h1.prices);
    assert(h2.prices.subrange(0, n1 as int) =~= h2.prices);
}

proof fn lemma_entry_inj(b: Seq<u8>, pos: int, e1: EntryView, e2: EntryView)
    requires
        b.len() <= u64::MAX,
        storable_entry(e1),
        storable_entry(e2),
        holds_at(b, pos, entry_bytes(e1)),
        holds_at(b, pos, entry_bytes(e2)),
    ensures
        e1 == e2,
{
    let q1 = quote_bytes(e1.quote);
    let q2 = quote_bytes(e2.quote);
    lemma_holds_split(b, pos, q1 + history_bytes(e1.history), u64_bytes(e1.at));
    lemma_holds_split(b, pos, q1, history_bytes(e1.history));
    lemma_holds_split(b, pos, q2 + history_bytes(e2.history), u64_bytes(e2.at));
    lemma_holds_split(b, pos, q2, history_bytes(e2.history));
    lemma_quote_inj(b, pos, e1.quote, e2.quote);
    lemma_history_inj(b, pos + q1.len(), e1.history, e2.history);
    lemma_u64_inj(b, pos + q1.len() + history_bytes(e1.history).len(), e1.at, e2.at);
}

proof fn lemma_list_inj(b: Seq<u8>, pos: int, es1: Seq<EntryView>, es2: Seq<EntryView>, k: nat)
    requires
        b.len() <= u64::MAX,
        storable(es1),
        storable(es2),
        es1.len() == es2.len(),
        k <= es1.len(),
        holds_at(b, pos, list_bytes(es1, es1.len())),
        holds_at(b, pos, list_bytes(es2, es2.len())),
    ensures
        es1.subrange(0, k as int) == es2.subrange(0, k as int),
        list_bytes(es1, k) == list_bytes(es2, k),
    decreases k,
{
    if k > 0 {
        let j = (k - 1) as nat;
        lemma_list_inj(b, pos, es1, es2, j);
        let before = list_bytes(es1, j);
        lemma_list_same(es1, es2, j);
        lemma_list_prefix(es1, k, es1.len());
        lemma_list_prefix(es2, k, es2.len());
        lemma_next_item(b, pos, list_bytes(es1, es1.len()), before, entry_bytes(es1[j as int]));
        lemma_next_item(b, pos, list_bytes(es2, es2.len()), before, entry_bytes(es2[j as int]));
        assert(storable_entry(es1[j as int]));
        assert(storable_entry(es2[j as int]));
        lemma_entry_inj(b, pos + before.len(), es1[j as int], es2[j as int]);
        assert(es1.subrange(0, k as int) =~= es1.subrange(0, j as int).push(es1[j as int]));
        assert(es2.subrange(0, k as int) =~= es2.subrange(0, j as int).push(es2[j as int]));
    } else {
        assert(es1.subrange(0, 0) =~= es2.subrange(0, 0));
    }
}

/// The stored form of storable entries begins the stored form of no other
/// entries: in particular it is the stored form of no other entries, and
/// the stored form cut short is the stored form of nothing.
pub proof fn lemma_entries_bytes_unique(es1: Seq<EntryView>, es2: Seq<EntryView>)
    requires
        storable(es1),
        storable(es2),
        entries_bytes(es1).len() <= u64::MAX,
        entries_bytes(es2).len() <= entries_bytes(es1).len(),
        entries_bytes(es1).subrange(0, entries_bytes(es2).len() as int) == entries_bytes(es2),
    ensures
        es1 == es2,
{
    let b = entries_bytes(es1);
    assert(b.subrange(0, b.len() as int) =~= b);
    lemma_holds_split(b, 0, u64_bytes(es1.len() as u64), list_bytes(es1, es1.len()));
    lemma_holds_split(b, 0, u64_bytes(es2.len() as u64), list_bytes(es2, es2.len()));
    lemma_u64_inj(b, 0, es1.len() as u64, es2.len() as u64);
    lemma_list_inj(b, 8, es1, es2, es1.len());
    assert(es1.subrange(0, es1.len() as int) =~= es1);
    assert(es2.subrange(0, es1.len() as int) =~= es2);
}

} // verus!

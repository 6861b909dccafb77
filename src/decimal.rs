use vstd::prelude::*;

verus! {

/// A finite decimal number held exactly, as a count of millionths.
#[derive(Clone, Copy, Debug, PartialEq, Eq, Structural)]
pub struct Decimal {
    pub micros: i64,
}

impl Decimal {
    /// The decimal with the given number of millionths.
    pub fn from_micros(micros: i64) -> (r: Decimal)
        ensures
            r.micros == micros,
    {
        Decimal { micros }
    }
}

pub open spec fn is_digit(c: char) -> bool {
    '0' <= c && c <= '9'
}

pub open spec fn digit_value(c: char) -> int {
    (c as int) - ('0' as int)
}

pub open spec fn all_digits(s: Seq<char>) -> bool {
    forall|i: int| 0 <= i < s.len() ==> is_digit(#[trigger] s[i])
}

/// The number that a string of decimal digits denotes.
pub open spec fn digits_value(s: Seq<char>) -> int
    decreases s.len(),
{
    if s.len() == 0 {
        0
    } else {
        digits_value(s.drop_last()) * 10 + digit_value(s.last())
    }
}

pub open spec fn pow10(n: nat) -> int
    decreases n,
{
    if n == 0 {
        1
    } else {
        10 * pow10((n - 1) as nat)
    }
}

/// Index of the first `a` or `b` in `s`, or its length when there is none.
pub open spec fn first_of(s: Seq<char>, a: char, b: char) -> int
    decreases s.len(),
{
    if s.len() == 0 {
        0
    } else if s[0] == a || s[0] == b {
        0
    } else {
        1 + first_of(s.drop_first(), a, b)
    }
}

pub open spec fn has_sign(s: Seq<char>) -> bool {
    s.len() > 0 && (s[0] == '-' || s[0] == '+')
}

/// The text after an optional leading sign.
pub open spec fn unsigned_part(s: Seq<char>) -> Seq<char> {
    if has_sign(s) {
        s.drop_first()
    } else {
        s
    }
}

pub open spec fn exponent_index(u: Seq<char>) -> int {
    first_of(u, 'e', 'E')
}

/// The digits and point before the exponent.
pub open spec fn mantissa_part(u: Seq<char>) -> Seq<char> {
    u.subrange(0, exponent_index(u))
}

/// The signed digits after the exponent mark, if there is one.
pub open spec fn exponent_text(u: Seq<char>) -> Seq<char> {
    if exponent_index(u) < u.len() {
        u.subrange(exponent_index(u) + 1, u.len() as int)
    } else {
        Seq::empty()
    }
}

pub open spec fn whole_digits(m: Seq<char>) -> Seq<char> {
    m.subrange(0, first_of(m, '.', '.'))
}

pub open spec fn fraction_digits(m: Seq<char>) -> Seq<char> {
    if first_of(m, '.', '.') < m.len() {
        m.subrange(first_of(m, '.', '.') + 1, m.len() as int)
    } else {
        Seq::empty()
    }
}

pub open spec fn exponent_value(x: Seq<char>) -> int {
    if x.len() > 0 && x[0] == '-' {
        -digits_value(unsigned_part(x))
    } else {
        digits_value(unsigned_part(x))
    }
}

/// Whether `s` is the text of a finite number: an optional sign, digits with
/// at most one point and at least one digit, then optionally `e` or `E`, an
/// optional sign and one or more digits.
pub open spec fn is_number_text(s: Seq<char>) -> bool {
    let u = unsigned_part(s);
    let m = mantissa_part(u);
    let w = whole_digits(m);
    let f = fraction_digits(m);
    &&& all_digits(w)
    &&& all_digits(f)
    &&& w.len() + f.len() >= 1
    &&& exponent_index(u) < u.len() ==> {
        let x = unsigned_part(exponent_text(u));
        x.len() >= 1 && all_digits(x)
    }
}

/// The integer whose digits are `d`, times `10^k`, rounded to the nearest
/// whole number with halves rounded up: when `k` is negative the digits
/// below the units place are dropped, and the first of them decides.
pub open spec fn scaled_digits(d: Seq<char>, k: int) -> int {
    if k >= 0 {
        digits_value(d) * pow10(k as nat)
    } else if d.len() + k < 0 {
        0
    } else {
        let keep = d.len() + k;
        digits_value(d.subrange(0, keep)) + if d[keep] >= '5' {
            1int
        } else {
            0int
        }
    }
}

/// The magnitude of number text in millionths, rounded to the nearest
/// millionth with halves away from zero.
pub open spec fn magnitude_micros(s: Seq<char>) -> int {
    let u = unsigned_part(s);
    let m = mantissa_part(u);
    let w = whole_digits(m);
    let f = fraction_digits(m);
    let e = if exponent_index(u) < u.len() {
        exponent_value(exponent_text(u))
    } else {
        0
    };
    scaled_digits(w + f, e - f.len() + 6)
}

/// The value of number text in millionths, rounded to the nearest millionth
/// with halves away from zero, when it is number text and that fits in an
/// `i64`.
pub open spec fn decimal_micros(s: Seq<char>) -> Option<int> {
    if is_number_text(s) && magnitude_micros(s) <= i64::MAX {
        Some(
            if s.len() > 0 && s[0] == '-' {
                -magnitude_micros(s)
            } else {
                magnitude_micros(s)
            },
        )
    } else {
        None
    }
}

/// The text without its trailing percent signs.
pub open spec fn without_percent(s: Seq<char>) -> Seq<char>
    decreases s.len(),
{
    if s.len() > 0 && s.last() == '%' {
        without_percent(s.drop_last())
    } else {
        s
    }
}

/// The value of a percentage: number text followed by any number of '%'.
pub open spec fn percent_micros(s: Seq<char>) -> Option<int> {
    decimal_micros(without_percent(s))
}

proof fn lemma_digits_nonneg(s: Seq<char>)
    requires
        all_digits(s),
    ensures
        digits_value(s) >= 0,
    decreases s.len(),
{
    if s.len() > 0 {
        lemma_digits_nonneg(s.drop_last());
    }
}

proof fn lemma_digits_prefix_le(s: Seq<char>, k: int)
    requires
        all_digits(s),
        0 <= k <= s.len(),
    ensures
        digits_value(s.subrange(0, k)) <= digits_value(s),
    decreases s.len(),
{
    if k < s.len() {
        let t = s.drop_last();
        lemma_digits_prefix_le(t, k);
        assert(t.subrange(0, k) =~= s.subrange(0, k));
        lemma_digits_nonneg(t);
    } else {
        assert(s.subrange(0, k) =~= s);
    }
}

proof fn lemma_digits_extend(s: Seq<char>, i: int)
    requires
        0 <= i < s.len(),
    ensures
        digits_value(s.subrange(0, i + 1)) == digits_value(s.subrange(0, i)) * 10 + digit_value(
            s[i],
        ),
{
    assert(s.subrange(0, i + 1).drop_last() =~= s.subrange(0, i));
}

proof fn lemma_first_of(s: Seq<char>, a: char, b: char, i: int)
    requires
        0 <= i <= s.len(),
        forall|j: int| 0 <= j < i ==> s[j] != a && s[j] != b,
        i == s.len() || s[i] == a || s[i] == b,
    ensures
        first_of(s, a, b) == i,
    decreases i,
{
    if i > 0 {
        lemma_first_of(s.drop_first(), a, b, i - 1);
    }
}

proof fn lemma_pow10_grows(a: nat, b: nat)
    requires
        a <= b,
    ensures
        1 <= pow10(a) <= pow10(b),
    decreases b,
{
    if a < b {
        lemma_pow10_grows(a, (b - 1) as nat);
    } else if a > 0 {
        lemma_pow10_grows((a - 1) as nat, (a - 1) as nat);
    }
}

/// Reads the digits `s[from..to]` as a number no larger than `limit`.
fn digits_within(s: &str, from: usize, to: usize, limit: u128) -> (r: Option<u128>)
    requires
        from <= to <= s@.len(),
        limit <= 1000000000000000000000000000000,
    ensures
        ({
            let d = s@.subrange(from as int, to as int);
            match r {
                Some(v) => all_digits(d) && v == digits_value(d) && v <= limit,
                None => !all_digits(d) || digits_value(d) > limit,
            }
        }),
{
    let ghost d = s@.subrange(from as int, to as int);
    let mut v: u128 = 0;
    let mut i: usize = from;
    while i < to
        invariant
            from <= i <= to <= s@.len(),
            d == s@.subrange(from as int, to as int),
            all_digits(d.subrange(0, i - from)),
            v == digits_value(d.subrange(0, i - from)),
            v <= limit,
            limit <= 1000000000000000000000000000000,
        decreases to - i,
    {
        let c = s.get_char(i);
        if c < '0' || c > '9' {
            assert(!is_digit(d[i - from]));
            return None;
        }
        proof {
            lemma_digits_extend(d, i - from);
        }
        let nv: u128 = v * 10 + (c as u128 - '0' as u128);
        assert(d.subrange(0, i - from + 1).last() == c);
        if nv > limit {
            proof {
                assert(all_digits(d.subrange(0, i - from + 1)));
                assert(d.subrange(0, i - from + 1) =~= d.subrange(0, i + 1 - from));
                if all_digits(d) {
                    lemma_digits_prefix_le(d, i + 1 - from);
                }
            }
            return None;
        }
        i = i + 1;
        v = nv;
    }
    assert(d.subrange(0, i - from) =~= d);
    Some(v)
}

/// Appends `s[from..to]` to `d` when those are all digits.
fn push_digits(s: &str, from: usize, to: usize, d: &mut Vec<char>) -> (ok: bool)
    requires
        from <= to <= s@.len(),
    ensures
        ok == all_digits(s@.subrange(from as int, to as int)),
        ok ==> final(d)@ == old(d)@ + s@.subrange(from as int, to as int),
{
    let ghost start = d@;
    let mut i: usize = from;
    while i < to
        invariant
            from <= i <= to <= s@.len(),
            d@ == start + s@.subrange(from as int, i as int),
            all_digits(s@.subrange(from as int, i as int)),
        decreases to - i,
    {
        let c = s.get_char(i);
        if c < '0' || c > '9' {
            assert(s@.subrange(from as int, to as int)[i - from] == c);
            return false;
        }
        d.push(c);
        assert(d@ =~= start + s@.subrange(from as int, i + 1));
        i = i + 1;
    }
    true
}

/// The number that the digits `d[0..end]` denote, when it is no larger
/// than `limit`.
fn digits_value_upto(d: &Vec<char>, end: usize, limit: u64) -> (r: Option<u64>)
    requires
        end <= d@.len(),
        all_digits(d@),
        limit <= i64::MAX,
    ensures
        match r {
            Some(v) => v == digits_value(d@.subrange(0, end as int)) && v <= limit,
            None => digits_value(d@.subrange(0, end as int)) > limit,
        },
{
    let mut v: u128 = 0;
    let mut i: usize = 0;
    while i < end
        invariant
            0 <= i <= end <= d@.len(),
            all_digits(d@),
            v == digits_value(d@.subrange(0, i as int)),
            v <= limit,
            limit <= i64::MAX,
        decreases end - i,
    {
        proof {
            lemma_digits_extend(d@, i as int);
        }
        let c = d[i];
        assert(is_digit(d@[i as int]));
        let nv: u128 = v * 10 + (c as u128 - '0' as u128);
        if nv > limit as u128 {
            proof {
                let e = d@.subrange(0, end as int);
                assert(all_digits(e));
                assert(e.subrange(0, i + 1) =~= d@.subrange(0, i + 1));
                lemma_digits_prefix_le(e, i + 1);
            }
            return None;
        }
        v = nv;
        i = i + 1;
    }
    Some(v as u64)
}

proof fn lemma_scaled_far_up(d: Seq<char>, k1: int, k2: int)
    requires
        all_digits(d),
        k1 >= 19,
        k2 >= 19,
    ensures
        scaled_digits(d, k1) <= i64::MAX <==> scaled_digits(d, k2) <= i64::MAX,
        scaled_digits(d, k1) <= i64::MAX ==> scaled_digits(d, k1) == 0 && scaled_digits(d, k2) == 0,
{
    lemma_digits_nonneg(d);
    lemma_pow10_grows(19, k1 as nat);
    lemma_pow10_grows(19, k2 as nat);
    reveal_with_fuel(pow10, 20);
    if digits_value(d) >= 1 {
        assert(digits_value(d) * pow10(k1 as nat) >= pow10(k1 as nat)) by (nonlinear_arith)
            requires
                digits_value(d) >= 1,
                pow10(k1 as nat) >= 1,
        ;
        assert(digits_value(d) * pow10(k2 as nat) >= pow10(k2 as nat)) by (nonlinear_arith)
            requires
                digits_value(d) >= 1,
                pow10(k2 as nat) >= 1,
        ;
    }
}

/// The digits `d` scaled by `10^k` and rounded, when that fits in an `i64`.
fn scaled_magnitude(d: &Vec<char>, k: i128) -> (r: Option<u64>)
    requires
        all_digits(d@),
    ensures
        r is Some <==> scaled_digits(d@, k as int) <= i64::MAX,
        r matches Some(m) ==> m == scaled_digits(d@, k as int),
{
    let nd = d.len();
    proof {
        lemma_digits_nonneg(d@);
        assert(d@.subrange(0, nd as int) =~= d@);
    }
    if k >= 0 {
        let mut v: u64 = match digits_value_upto(d, nd, 9223372036854775807) {
            Some(v) => v,
            None => {
                proof {
                    lemma_pow10_grows(0, k as nat);
                    assert(digits_value(d@) * pow10(k as nat) >= digits_value(d@)) by (nonlinear_arith)
                        requires
                            digits_value(d@) >= 0,
                            pow10(k as nat) >= 1,
                    ;
                }
                return None;
            },
        };
        let mut t: i128 = 0;
        assert(pow10(0) == 1);
        assert(digits_value(d@) * pow10(0) == digits_value(d@));
        while t < k
            invariant
                0 <= t <= k,
                v as int == digits_value(d@) * pow10(t as nat),
                v <= i64::MAX,
                digits_value(d@) >= 0,
            decreases k - t,
        {
            proof {
                assert(pow10((t + 1) as nat) == 10 * pow10(t as nat));
                assert(digits_value(d@) * pow10((t + 1) as nat) == 10 * (digits_value(d@) * pow10(
                    t as nat,
                ))) by (nonlinear_arith)
                    requires
                        pow10((t + 1) as nat) == 10 * pow10(t as nat),
                ;
            }
            if v > 922337203685477580 {
                proof {
                    lemma_pow10_grows((t + 1) as nat, k as nat);
                    assert(digits_value(d@) * pow10(k as nat) >= digits_value(d@) * pow10(
                        (t + 1) as nat,
                    )) by (nonlinear_arith)
                        requires
                            digits_value(d@) >= 0,
                            pow10((t + 1) as nat) <= pow10(k as nat),
                    ;
                }
                return None;
            }
            v = v * 10;
            t = t + 1;
        }
        Some(v)
    } else if (nd as i128) + k < 0 {
        Some(0)
    } else {
        let keep: usize = ((nd as i128) + k) as usize;
        let kept = match digits_value_upto(d, keep, 9223372036854775807) {
            Some(v) => v,
            None => {
                return None;
            },
        };
        let up: u64 = if d[keep] >= '5' {
            1
        } else {
            0
        };
        if kept == 9223372036854775807 && up == 1 {
            return None;
        }
        Some(kept + up)
    }
}

/// Reads the signed exponent digits `s[from..]`; the magnitude is `None`
/// when it is beyond `limit`.
fn read_exponent(s: &str, from: usize, limit: u128) -> (r: Option<(bool, Option<u128>)>)
    requires
        from <= s@.len(),
        limit <= 1000000000000000000000000000000,
    ensures
        ({
            let xt = s@.subrange(from as int, s@.len() as int);
            let xd = unsigned_part(xt);
            &&& r is Some <==> xd.len() >= 1 && all_digits(xd)
            &&& r matches Some((neg, v)) ==> {
                &&& neg == (xt.len() > 0 && xt[0] == '-')
                &&& match v {
                    Some(e) => e == digits_value(xd) && e <= limit,
                    None => digits_value(xd) > limit,
                }
            }
        }),
{
    let n = s.unicode_len();
    let ghost xt = s@.subrange(from as int, n as int);
    let mut ed: usize = from;
    let mut neg = false;
    if ed < n {
        let c = s.get_char(ed);
        if c == '-' {
            neg = true;
            ed = ed + 1;
        } else if c == '+' {
            ed = ed + 1;
        }
    }
    assert(unsigned_part(xt) =~= s@.subrange(ed as int, n as int));
    if ed == n {
        return None;
    }
    let mut scratch: Vec<char> = Vec::new();
    if !push_digits(s, ed, n, &mut scratch) {
        return None;
    }
    Some((neg, digits_within(s, ed, n, limit)))
}

/// Reads the digits of `s[from..to]`, which must be digits with at most one
/// point and at least one digit: all of them in order, and how many follow
/// the point.
fn read_mantissa(s: &str, from: usize, to: usize) -> (r: Option<(Vec<char>, usize)>)
    requires
        from <= to <= s@.len(),
    ensures
        ({
            let m = s@.subrange(from as int, to as int);
            let w = whole_digits(m);
            let f = fraction_digits(m);
            &&& r is Some <==> all_digits(w) && all_digits(f) && w.len() + f.len() >= 1
            &&& r matches Some((d, fl)) ==> d@ == w + f && fl == f.len()
        }),
{
    let ghost m = s@.subrange(from as int, to as int);
    let mut p: usize = from;
    while p < to && s.get_char(p) != '.'
        invariant
            from <= p <= to <= s@.len(),
            forall|j: int| from <= j < p ==> s@[j] != '.',
        decreases to - p,
    {
        p = p + 1;
    }
    proof {
        lemma_first_of(m, '.', '.', p - from);
    }
    let ghost w = whole_digits(m);
    let ghost f = fraction_digits(m);
    assert(w =~= s@.subrange(from as int, p as int));
    let frac_from: usize = if p < to {
        p + 1
    } else {
        to
    };
    assert(f =~= s@.subrange(frac_from as int, to as int));
    let mut d: Vec<char> = Vec::new();
    if !push_digits(s, from, p, &mut d) {
        return None;
    }
    if !push_digits(s, frac_from, to, &mut d) {
        return None;
    }
    assert(d@ =~= w + f);
    if d.len() == 0 {
        return None;
    }
    Some((d, to - frac_from))
}

/// Scales `k1` and `k2` give the digits `d` the same value, as far as it
/// fits in an `i64`.
pub open spec fn same_scale(d: Seq<char>, k1: int, k2: int) -> bool {
    &&& scaled_digits(d, k1) <= i64::MAX <==> scaled_digits(d, k2) <= i64::MAX
    &&& scaled_digits(d, k1) <= i64::MAX ==> scaled_digits(d, k1) == scaled_digits(d, k2)
}

/// The power of ten that the exponent text from `s[x]` on (none when `x` is
/// the end) and `fl` fractional digits give the digits `d`, counted in
/// millionths; an exponent too large to matter is replaced by one that
/// gives the same value.
fn exponent_scale(s: &str, x: usize, d: &Vec<char>, fl: usize) -> (r: Option<i128>)
    requires
        x <= s@.len(),
        all_digits(d@),
        fl <= d@.len(),
    ensures
        ({
            let xt = if x < s@.len() {
                s@.subrange(x + 1, s@.len() as int)
            } else {
                Seq::empty()
            };
            let xd = unsigned_part(xt);
            let e = if x < s@.len() {
                exponent_value(xt)
            } else {
                0
            };
            &&& r is Some <==> (x < s@.len() ==> xd.len() >= 1 && all_digits(xd))
            &&& r matches Some(kk) ==> same_scale(d@, e - fl + 6, kk as int)
        }),
{
    let n = s.unicode_len();
    let nd = d.len();
    if x == n {
        return Some(6 - fl as i128);
    }
    let limit: u128 = nd as u128 + 40;
    let ghost xt = s@.subrange(x + 1, n as int);
    let ghost xd = unsigned_part(xt);
    let ghost k = exponent_value(xt) - fl + 6;
    proof {
        lemma_digits_nonneg(d@);
    }
    match read_exponent(s, x + 1, limit) {
        None => None,
        Some((neg, Some(v))) => {
            let kk: i128 = if neg {
                -(v as i128) - fl as i128 + 6
            } else {
                v as i128 - fl as i128 + 6
            };
            Some(kk)
        },
        Some((neg, None)) => {
            proof {
                lemma_digits_nonneg(xd);
            }
            if neg {
                assert(k < -(nd as int));
                Some(-(nd as i128) - 1)
            } else {
                proof {
                    lemma_scaled_far_up(d@, k, 47);
                }
                Some(47)
            }
        },
    }
}

/// Parses the text of a finite number, such as `23.45`, `-1.2300`, `.5`,
/// `5.` or `1e2`, to the nearest millionth.
pub fn parse_decimal(s: &str) -> (r: Option<Decimal>)
    ensures
        r is Some <==> decimal_micros(s@) is Some,
        r matches Some(d) ==> d.micros as int == decimal_micros(s@)->0,
{
    let n = s.unicode_len();
    let mut start: usize = 0;
    let mut neg = false;
    if n > 0 {
        let c0 = s.get_char(0);
        if c0 == '-' {
            neg = true;
            start = 1;
        } else if c0 == '+' {
            start = 1;
        }
    }
    let ghost u = unsigned_part(s@);
    assert(u =~= s@.subrange(start as int, n as int));
    let mut x: usize = start;
    while x < n && s.get_char(x) != 'e' && s.get_char(x) != 'E'
        invariant
            start <= x <= n,
            n == s@.len(),
            forall|j: int| start <= j < x ==> s@[j] != 'e' && s@[j] != 'E',
        decreases n - x,
    {
        x = x + 1;
    }
    proof {
        lemma_first_of(u, 'e', 'E', x - start);
    }
    let ghost m = mantissa_part(u);
    assert(m =~= s@.subrange(start as int, x as int));
    let (d, fl) = match read_mantissa(s, start, x) {
        None => {
            return None;
        },
        Some(r) => r,
    };
    let ghost xt = exponent_text(u);
    if x < n {
        assert(xt =~= s@.subrange(x + 1, n as int));
    }
    let kk = match exponent_scale(s, x, &d, fl) {
        None => {
            return None;
        },
        Some(kk) => kk,
    };
    assert(is_number_text(s@));
    assert(magnitude_micros(s@) == scaled_digits(
        d@,
        (if x < n {
            exponent_value(xt)
        } else {
            0
        }) - fl + 6,
    ));
    let mag: u64 = match scaled_magnitude(&d, kk) {
        Some(m) => m,
        None => {
            return None;
        },
    };
    let micros: i64 = if neg {
        -(mag as i64)
    } else {
        mag as i64
    };
    Some(Decimal { micros })
}

/// Parses a percentage such as `2.35%`: the text of a finite number followed
/// by any number of percent signs.
pub fn parse_percent(s: &str) -> (r: Option<Decimal>)
    ensures
        r is Some <==> percent_micros(s@) is Some,
        r matches Some(d) ==> d.micros as int == percent_micros(s@)->0,
{
    let n = s.unicode_len();
    let mut end: usize = n;
    assert(s@.subrange(0, n as int) =~= s@);
    while end > 0 && s.get_char(end - 1) == '%'
        invariant
            0 <= end <= n,
            n == s@.len(),
            without_percent(s@.subrange(0, end as int)) == without_percent(s@),
        decreases end,
    {
        assert(s@.subrange(0, end as int).drop_last() =~= s@.subrange(0, end - 1));
        end = end - 1;
    }
    let body = s.substring_char(0, end);
    assert(without_percent(body@) == body@);
    parse_decimal(body)
}

} // verus!

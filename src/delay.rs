use vstd::prelude::*;

verus! {

/// Nanoseconds in one second.
pub const NANOS_PER_SEC: u32 = 1_000_000_000;

/// The first count of nanoseconds whose whole seconds no longer fit in a
/// `u64`: 2^64 seconds.
pub const NANOS_LIMIT: u128 = 18_446_744_073_709_551_616_000_000_000;

/// An exponent above this moves every non-zero digit out of reach of
/// `NANOS_LIMIT`, or below a nanosecond.
pub const EXPONENT_CAP: u128 = 1_180_591_620_717_411_303_424;

/// A wait, as whole seconds and the nanoseconds beyond them.
#[derive(Clone, Copy, Debug, PartialEq, Eq, Structural)]
pub struct Delay {
    pub secs: u64,
    pub nanos: u32,
}

/// Why a `{seconds}` segment is not a delay.
#[derive(Clone, Copy, Debug, PartialEq, Eq, Structural)]
pub enum DelayError {
    /// The text is not a non-negative decimal number.
    Malformed,
    /// The number of whole seconds does not fit in a `u64`.
    TooLong,
}

impl Delay {
    pub open spec fn wf(self) -> bool {
        self.nanos < NANOS_PER_SEC
    }

    /// The length of the wait in nanoseconds.
    pub open spec fn total_nanos(self) -> nat {
        self.secs as nat * 1_000_000_000 + self.nanos as nat
    }
}

pub open spec fn is_digit(b: u8) -> bool {
    48 <= b <= 57
}

pub open spec fn all_digits(s: Seq<u8>) -> bool {
    forall|i: int| 0 <= i < s.len() ==> is_digit(#[trigger] s[i])
}

/// The number that a run of decimal digits writes.
pub open spec fn digits_value(s: Seq<u8>) -> nat
    decreases s.len(),
{
    if s.len() == 0 {
        0
    } else {
        digits_value(s.drop_last()) * 10 + (s.last() - 48) as nat
    }
}

/// How many digits stand at the start of `s`.
pub open spec fn leading_digits(s: Seq<u8>) -> nat
    decreases s.len(),
{
    if s.len() > 0 && is_digit(s[0]) {
        1 + leading_digits(s.drop_first())
    } else {
        0
    }
}

/// `s` starts with a minus sign.
pub open spec fn has_minus(s: Seq<u8>) -> bool {
    s.len() > 0 && s[0] == 45
}

/// `s` without a leading `+` or `-`.
pub open spec fn unsigned_text(s: Seq<u8>) -> Seq<u8> {
    if s.len() > 0 && (s[0] == 43 || s[0] == 45) {
        s.skip(1)
    } else {
        s
    }
}

/// The digits before the decimal point.
pub open spec fn whole_part(s: Seq<u8>) -> Seq<u8> {
    unsigned_text(s).take(leading_digits(unsigned_text(s)) as int)
}

/// What follows the whole part.
pub open spec fn after_whole(s: Seq<u8>) -> Seq<u8> {
    unsigned_text(s).skip(leading_digits(unsigned_text(s)) as int)
}

/// What follows the whole part and the decimal point, if there is one.
pub open spec fn after_point(s: Seq<u8>) -> Seq<u8> {
    if after_whole(s).len() > 0 && after_whole(s)[0] == 46 {
        after_whole(s).skip(1)
    } else {
        after_whole(s)
    }
}

/// The digits after the decimal point.
pub open spec fn fraction_part(s: Seq<u8>) -> Seq<u8> {
    after_point(s).take(leading_digits(after_point(s)) as int)
}

/// What follows the digits: empty, or the exponent with its `e` or `E`.
pub open spec fn exponent_text(s: Seq<u8>) -> Seq<u8> {
    after_point(s).skip(leading_digits(after_point(s)) as int)
}

/// An exponent's text after its `e` or `E`, sign included.
pub open spec fn signed_exponent(e: Seq<u8>) -> Seq<u8> {
    e.skip(1)
}

pub open spec fn exponent_is_negative(e: Seq<u8>) -> bool {
    signed_exponent(e).len() > 0 && signed_exponent(e)[0] == 45
}

/// The digits of an exponent.
pub open spec fn exponent_digits(e: Seq<u8>) -> Seq<u8> {
    if signed_exponent(e).len() > 0 && (signed_exponent(e)[0] == 43 || signed_exponent(e)[0]
        == 45) {
        signed_exponent(e).skip(1)
    } else {
        signed_exponent(e)
    }
}

/// No exponent, or `e` or `E`, an optional sign and at least one digit.
pub open spec fn exponent_well_formed(e: Seq<u8>) -> bool {
    e.len() == 0 || {
        &&& (e[0] == 101 || e[0] == 69)
        &&& exponent_digits(e).len() > 0
        &&& all_digits(exponent_digits(e))
    }
}

/// The power of ten that an exponent writes (zero when there is none).
pub open spec fn exponent_value(e: Seq<u8>) -> int {
    if e.len() == 0 {
        0
    } else if exponent_is_negative(e) {
        -digits_value(exponent_digits(e))
    } else {
        digits_value(exponent_digits(e)) as int
    }
}

/// `s` is a non-negative decimal number as floating-point text writes it:
/// an optional sign, digits with an optional point among them (at least one
/// digit in all), and an optional exponent: `e` or `E`, an optional sign and
/// digits (`2`, `+0.25`, `.5`, `3.`, `1e3`, `2.5E-1`). A `-` is taken only
/// where every digit is zero (`-0`, `-0.0e5`): that number is zero, not
/// negative.
pub open spec fn is_seconds_text(s: Seq<u8>) -> bool {
    &&& whole_part(s).len() + fraction_part(s).len() > 0
    &&& exponent_well_formed(exponent_text(s))
    &&& has_minus(s) ==> forall|i: int| 0 <= i < mantissa(s).len() ==> #[trigger] mantissa(s)[i] == 48
}

/// All the digits of the number, whole part then fraction.
pub open spec fn mantissa(s: Seq<u8>) -> Seq<u8> {
    whole_part(s) + fraction_part(s)
}

/// How many digits of the mantissa (padded with zeros) stand before the
/// point once the number is written in nanoseconds.
pub open spec fn nanos_point(s: Seq<u8>) -> int {
    whole_part(s).len() + exponent_value(exponent_text(s)) + 9
}

/// The number written in nanoseconds, as digits: the point moved by the
/// exponent and nine more places, digits beyond it dropped.
pub open spec fn nanos_digits(s: Seq<u8>) -> Seq<u8> {
    padded(
        mantissa(s),
        if nanos_point(s) > 0 {
            nanos_point(s) as nat
        } else {
            0
        },
    )
}

/// The first `len` digits of `m`, with zeros after its end.
pub open spec fn padded(m: Seq<u8>, len: nat) -> Seq<u8> {
    Seq::new(len, |j: int| if j < m.len() { m[j] } else { 48u8 })
}

/// The length of the wait that a well-formed segment writes, in whole
/// nanoseconds.
pub open spec fn nanos_of(s: Seq<u8>) -> nat {
    digits_value(nanos_digits(s))
}

/// The delay that a `{seconds}` segment asks for. Parts below a nanosecond
/// are dropped.
pub open spec fn delay_of(s: Seq<u8>) -> Result<Delay, DelayError> {
    if !is_seconds_text(s) {
        Err(DelayError::Malformed)
    } else if nanos_of(s) >= NANOS_LIMIT {
        Err(DelayError::TooLong)
    } else {
        Ok(
            Delay {
                secs: (nanos_of(s) / 1_000_000_000) as u64,
                nanos: (nanos_of(s) % 1_000_000_000) as u32,
            },
        )
    }
}

pub open spec fn pow10(n: nat) -> nat
    decreases n,
{
    if n == 0 {
        1
    } else {
        10 * pow10((n - 1) as nat)
    }
}

/// A well-formed delay is one a `{seconds}` segment can produce, and it
/// lasts exactly the nanoseconds that the segment writes.
pub proof fn lemma_delay_of_wf(s: Seq<u8>)
    ensures
        delay_of(s) is Ok ==> delay_of(s)->Ok_0.wf(),
        delay_of(s) is Ok ==> delay_of(s)->Ok_0.total_nanos() == nanos_of(s),
{
}

proof fn lemma_leading_digits(s: Seq<u8>, k: int)
    requires
        0 <= k <= s.len(),
        forall|j: int| 0 <= j < k ==> is_digit(#[trigger] s[j]),
        k == s.len() || !is_digit(s[k]),
    ensures
        leading_digits(s) == k,
    decreases k,
{
    if k > 0 {
        let t = s.drop_first();
        assert forall|j: int| 0 <= j < k - 1 implies is_digit(#[trigger] t[j]) by {
            assert(t[j] == s[j + 1]);
        }
        lemma_leading_digits(t, k - 1);
    }
}

proof fn lemma_prefix_le(t: Seq<u8>, j: int)
    requires
        0 <= j <= t.len(),
    ensures
        digits_value(t.take(j)) <= digits_value(t),
    decreases t.len(),
{
    if t.len() > j {
        let u = t.drop_last();
        lemma_prefix_le(u, j);
        assert(u.take(j) =~= t.take(j));
    } else {
        assert(t.take(j) =~= t);
    }
}

proof fn lemma_zero_tail(t: Seq<u8>, j: int)
    requires
        0 <= j <= t.len(),
        digits_value(t.take(j)) == 0,
        forall|i: int| j <= i < t.len() ==> #[trigger] t[i] == 48,
    ensures
        digits_value(t) == 0,
    decreases t.len(),
{
    if t.len() > j {
        let u = t.drop_last();
        assert(u.take(j) =~= t.take(j));
        lemma_zero_tail(u, j);
    } else {
        assert(t.take(j) =~= t);
    }
}

fn is_digit_byte(b: u8) -> (r: bool)
    ensures
        r == is_digit(b),
{
    48 <= b && b <= 57
}

/// The end of the run of digits that starts at `p`.
fn scan_digits(s: &[u8], p: usize) -> (q: usize)
    requires
        p <= s@.len(),
    ensures
        p <= q <= s@.len(),
        q - p == leading_digits(s@.skip(p as int)),
        s@.skip(p as int).take(q - p) =~= s@.subrange(p as int, q as int),
        s@.skip(p as int).skip(q - p) =~= s@.skip(q as int),
        forall|k: int| p <= k < q ==> is_digit(#[trigger] s@[k]),
{
    let mut q = p;
    while q < s.len() && is_digit_byte(s[q])
        invariant
            p <= q <= s@.len(),
            forall|k: int| p <= k < q ==> is_digit(#[trigger] s@[k]),
        decreases s.len() - q,
    {
        q = q + 1;
    }
    proof {
        let t = s@.skip(p as int);
        assert forall|j: int| 0 <= j < q - p implies is_digit(#[trigger] t[j]) by {
            assert(t[j] == s@[p + j]);
        }
        if q < s@.len() {
            assert(t[q - p] == s@[q as int]);
        }
        lemma_leading_digits(t, q - p);
    }
    q
}

/// The wait of a bare `/delay`: one second.
pub fn delay() -> (r: Delay)
    ensures
        r.wf(),
        r.total_nanos() == 1_000_000_000,
{
    Delay { secs: 1, nanos: 0 }
}

/// Reads the exponent that starts at `p`: whether it is negative and its
/// size, saturated above `EXPONENT_CAP`.
fn read_exponent(s: &[u8], p: usize) -> (r: Option<(bool, u128, bool)>)
    requires
        p <= s@.len(),
    ensures
        r is None <==> !exponent_well_formed(s@.skip(p as int)),
        r matches Some((negative, size, big)) ==> {
            let e = s@.skip(p as int);
            &&& negative == (e.len() > 0 && exponent_is_negative(e))
            &&& e.len() > 0 && big ==> digits_value(exponent_digits(e)) > EXPONENT_CAP
            &&& e.len() > 0 && !big ==> size == digits_value(exponent_digits(e))
            &&& !big ==> size <= EXPONENT_CAP
            &&& e.len() == 0 ==> !big && size == 0
        },
{
    let n = s.len();
    let ghost e = s@.skip(p as int);
    if p == n {
        assert(e.len() == 0);
        return Some((false, 0, false));
    }
    assert(e[0] == s@[p as int]);
    if s[p] != 101 && s[p] != 69 {
        return None;
    }
    let p4 = p + 1;
    assert(signed_exponent(e) =~= s@.skip(p4 as int));
    let negative = p4 < n && s[p4] == 45;
    let p5: usize = if p4 < n && (s[p4] == 43 || s[p4] == 45) { p4 + 1 } else { p4 };
    let ghost ed = exponent_digits(e);
    assert(ed =~= s@.skip(p5 as int));
    if p5 == n {
        return None;
    }
    let mut size: u128 = 0;
    let mut big = false;
    let mut k: usize = p5;
    while k < n
        invariant
            p5 <= k <= n == s@.len(),
            ed =~= s@.skip(p5 as int),
            ed == exponent_digits(e),
            e == s@.skip(p as int),
            e.len() > 0,
            e[0] == 101 || e[0] == 69,
            forall|i: int| p5 <= i < k ==> is_digit(#[trigger] s@[i]),
            big ==> digits_value(ed.take(k - p5)) > EXPONENT_CAP,
            !big ==> size == digits_value(ed.take(k - p5)) && size <= EXPONENT_CAP,
        decreases n - k,
    {
        assert(ed[k - p5] == s@[k as int]);
        if !is_digit_byte(s[k]) {
            assert(!is_digit(ed[k - p5]));
            return None;
        }
        assert(ed.take(k + 1 - p5).drop_last() =~= ed.take(k - p5));
        if !big {
            let v = size * 10 + (s[k] - 48) as u128;
            if v > EXPONENT_CAP {
                big = true;
            } else {
                size = v;
            }
        }
        k = k + 1;
    }
    assert(all_digits(ed)) by {
        assert forall|i: int| 0 <= i < ed.len() implies is_digit(#[trigger] ed[i]) by {
            assert(ed[i] == s@[i + p5]);
        }
    }
    assert(ed.take(n - p5) =~= ed);
    Some((negative, size, big))
}

/// The number that `padded(m, len)` writes, or `None` when it reaches
/// `NANOS_LIMIT`. `end` is `len` cut at thirty digits past the end of `m`:
/// beyond that a non-zero number has reached the limit.
fn padded_value(m: &Vec<u8>, end: u128, Ghost(len): Ghost<nat>) -> (r: Option<u128>)
    requires
        all_digits(m@),
        end == if len < m@.len() + 30 { len } else { (m@.len() + 30) as nat },
    ensures
        r is None <==> digits_value(padded(m@, len)) >= NANOS_LIMIT,
        r matches Some(t) ==> t == digits_value(padded(m@, len)),
{
    let ghost nd = padded(m@, len);
    let ml: usize = m.len();
    let mlen = ml as u128;
    let mut total: u128 = 0;
    let mut j: u128 = 0;
    while j < end
        invariant
            end <= len == nd.len(),
            end == if len < mlen + 30 { len } else { (mlen + 30) as nat },
            mlen == m@.len(),
            ml == m@.len(),
            nd == padded(m@, len),
            all_digits(m@),
            j <= end,
            total == digits_value(nd.take(j as int)),
            total < NANOS_LIMIT,
            j >= mlen && total > 0 ==> total >= pow10((j - mlen) as nat),
        decreases end - j,
    {
        let d: u128 = if j < mlen {
            let b = m[j as usize];
            assert(b == m@[j as int] && b == nd[j as int]);
            assert(is_digit(b));
            (b - 48) as u128
        } else {
            0
        };
        assert(nd.take(j + 1).drop_last() =~= nd.take(j as int));
        assert(d == nd[j as int] - 48);
        proof {
            if j >= mlen && total > 0 {
                assert(total * 10 >= 10 * pow10((j - mlen) as nat));
            }
        }
        total = total * 10 + d;
        j = j + 1;
        if total >= NANOS_LIMIT {
            proof {
                lemma_prefix_le(nd, j as int);
            }
            return None;
        }
    }
    proof {
        if end == len {
            assert(nd.take(j as int) =~= nd);
        } else {
            if total > 0 {
                reveal_with_fuel(pow10, 30);
                assert(pow10(29) == 100_000_000_000_000_000_000_000_000_000);
                lemma_pow10_mono(29, (j - mlen) as nat);
            }
            assert forall|i: int| j <= i < nd.len() implies #[trigger] nd[i] == 48 by {}
            lemma_zero_tail(nd, j as int);
        }
    }
    Some(total)
}

/// The digits of `s` from `p0` to `p1` and from `p2` to `p3`, in one place.
fn gather_mantissa(s: &[u8], p0: usize, p1: usize, p2: usize, p3: usize) -> (mant: Vec<u8>)
    requires
        p0 <= p1 <= p2 <= p3 <= s@.len(),
    ensures
        mant@ =~= s@.subrange(p0 as int, p1 as int) + s@.subrange(p2 as int, p3 as int),
{
    let mut mant: Vec<u8> = Vec::new();
    let mut k: usize = p0;
    while k < p1
        invariant
            p0 <= k <= p1 <= s@.len(),
            mant@ =~= s@.subrange(p0 as int, k as int),
        decreases p1 - k,
    {
        mant.push(s[k]);
        k = k + 1;
    }
    k = p2;
    while k < p3
        invariant
            p2 <= k <= p3 <= s@.len(),
            mant@ =~= s@.subrange(p0 as int, p1 as int) + s@.subrange(p2 as int, k as int),
        decreases p3 - k,
    {
        mant.push(s[k]);
        k = k + 1;
    }
    mant
}

/// Where the point stands once the number is written in nanoseconds
/// (`whole + exponent + 9`, or none below zero), cut at thirty digits past
/// the end of the mantissa.
fn nanos_end(
    whole: usize,
    mlen: usize,
    has_exp: bool,
    negative: bool,
    exp: u128,
    exp_big: bool,
    Ghost(ev): Ghost<int>,
) -> (end: u128)
    requires
        !has_exp ==> ev == 0 && exp == 0 && !exp_big,
        !exp_big ==> exp <= EXPONENT_CAP,
        has_exp && !exp_big ==> ev == if negative { -exp } else { exp as int },
        has_exp && exp_big ==> if negative { ev < -EXPONENT_CAP } else { ev > EXPONENT_CAP },
    ensures
        end == if whole + ev + 9 <= 0 {
            0
        } else if whole + ev + 9 < mlen + 30 {
            whole + ev + 9
        } else {
            mlen + 30
        },
{
    let stop = mlen as u128 + 30;
    let base = whole as u128 + 9;
    if !has_exp {
        if base < stop { base } else { stop }
    } else if !negative {
        if exp_big || base + exp >= stop { stop } else { base + exp }
    } else {
        if exp_big || exp > base { 0 } else if base - exp < stop { base - exp } else { stop }
    }
}

fn all_zeros(m: &Vec<u8>) -> (r: bool)
    ensures
        r == forall|i: int| 0 <= i < m@.len() ==> #[trigger] m@[i] == 48,
{
    let mut i: usize = 0;
    while i < m.len()
        invariant
            i <= m@.len(),
            forall|j: int| 0 <= j < i ==> #[trigger] m@[j] == 48,
        decreases m.len() - i,
    {
        if m[i] != 48 {
            return false;
        }
        i = i + 1;
    }
    true
}

/// Reads a `{seconds}` path segment as a delay.
pub fn specified_delay(s: &[u8]) -> (r: Result<Delay, DelayError>)
    ensures
        r == delay_of(s@),
        r is Ok ==> r->Ok_0.wf(),
{
    let n = s.len();
    let p0: usize = if n > 0 && (s[0] == 43 || s[0] == 45) { 1 } else { 0 };
    assert(unsigned_text(s@) =~= s@.skip(p0 as int));
    let p1 = scan_digits(s, p0);
    assert(whole_part(s@) =~= s@.subrange(p0 as int, p1 as int));
    assert(after_whole(s@) =~= s@.skip(p1 as int));
    let p2: usize = if p1 < n && s[p1] == 46 { p1 + 1 } else { p1 };
    assert(after_point(s@) =~= s@.skip(p2 as int));
    let p3 = scan_digits(s, p2);
    assert(fraction_part(s@) =~= s@.subrange(p2 as int, p3 as int));
    assert(exponent_text(s@) =~= s@.skip(p3 as int));
    if p1 - p0 + (p3 - p2) == 0 {
        return Err(DelayError::Malformed);
    }
    let (negative, exp, exp_big) = match read_exponent(s, p3) {
        Some(e) => e,
        None => {
            return Err(DelayError::Malformed);
        },
    };
    let mant = gather_mantissa(s, p0, p1, p2, p3);
    let ghost m = mantissa(s@);
    assert(mant@ == m);
    assert(all_digits(m)) by {
        assert forall|i: int| 0 <= i < m.len() implies is_digit(#[trigger] m[i]) by {
            if i < p1 - p0 {
                assert(m[i] == s@[p0 + i]);
            } else {
                assert(m[i] == s@[p2 + i - (p1 - p0)]);
            }
        }
    }
    if n > 0 && s[0] == 45 && !all_zeros(&mant) {
        return Err(DelayError::Malformed);
    }
    let ghost ev = exponent_value(exponent_text(s@));
    assert(is_seconds_text(s@));
    let end = nanos_end(p1 - p0, mant.len(), p3 < n, negative, exp, exp_big, Ghost(ev));
    let ghost len: nat = if nanos_point(s@) > 0 { nanos_point(s@) as nat } else { 0 };
    match padded_value(&mant, end, Ghost(len)) {
        None => Err(DelayError::TooLong),
        Some(total) => Ok(
            Delay { secs: (total / 1_000_000_000) as u64, nanos: (total % 1_000_000_000) as u32 },
        ),
    }
}

proof fn lemma_pow10_mono(a: nat, b: nat)
    requires
        a <= b,
    ensures
        pow10(a) <= pow10(b),
    decreases b,
{
    if a < b {
        lemma_pow10_mono(a, (b - 1) as nat);
    }
}

} // verus!

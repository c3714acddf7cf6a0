//! Jurisdiction-year records: the raw textual row, the validated record with
//! fixed-point rates, and the cleaning step that turns one into the other.

use vstd::prelude::*;

verus! {

/// A raw row as read from the data source: every field still unparsed text.
#[derive(Debug)]
pub struct DirtyRecord {
    pub jurisdiction: String,
    pub year: String,
    pub prisoner_count: String,
    pub state_population: String,
    pub violent_crime_total: String,
}

/// Rates are fixed point: one rate unit is `RATE_SCALE` stored units, so a
/// rate of 522.143 per 100,000 inhabitants is stored as `522_143`.
pub const RATE_SCALE: u64 = 1000;

/// A validated jurisdiction-year record. The two rates are per 100,000
/// inhabitants, in thousandths (see `RATE_SCALE`).
#[derive(Debug)]
pub struct CleanRecord {
    pub jurisdiction: String,
    pub year: u32,
    pub prisoner_count: u32,
    pub state_population: u32,
    pub violent_crime_total: u32,
    pub incarceration_rate_milli: u64,
    pub crime_rate_milli: u64,
}

impl Clone for CleanRecord {
    fn clone(&self) -> (res: Self)
        ensures
            res == *self,
    {
        CleanRecord {
            jurisdiction: self.jurisdiction.clone(),
            year: self.year,
            prisoner_count: self.prisoner_count,
            state_population: self.state_population,
            violent_crime_total: self.violent_crime_total,
            incarceration_rate_milli: self.incarceration_rate_milli,
            crime_rate_milli: self.crime_rate_milli,
        }
    }
}

/// A count per `pop` inhabitants, scaled to per-100,000 and to thousandths,
/// rounded to the nearest stored unit (halves up).
pub open spec fn rate_milli_spec(count: u32, pop: u32) -> int
    recommends
        pop > 0,
{
    (count * 100_000_000 + pop / 2) / (pop as int)
}

/// Fixed-point rate: `count` events per `pop` inhabitants, per 100,000, in
/// thousandths, rounded to nearest.
pub fn rate_milli(count: u32, pop: u32) -> (r: u64)
    requires
        pop > 0,
    ensures
        r == rate_milli_spec(count, pop),
{
    let num: u64 = (count as u64) * 100_000_000 + (pop as u64) / 2;
    num / (pop as u64)
}

/// ASCII whitespace, as the cleaning step strips it: space, tab, line feed,
/// vertical tab, form feed, carriage return.
pub open spec fn is_space(c: char) -> bool {
    c == ' ' || (9 <= c as int && c as int <= 13)
}

pub open spec fn is_digit(c: char) -> bool {
    48 <= c as u32 && c as u32 <= 57
}

pub open spec fn digit_val(c: char) -> int {
    c as u32 - 48
}

pub open spec fn all_digits(s: Seq<char>) -> bool {
    forall|i: int| 0 <= i < s.len() ==> is_digit(#[trigger] s[i])
}

/// Value of a digit string read in base ten.
pub open spec fn digits_val(s: Seq<char>) -> int
    decreases s.len(),
{
    if s.len() == 0 {
        0
    } else {
        digits_val(s.drop_last()) * 10 + digit_val(s.last())
    }
}

/// `s` with its leading whitespace removed.
pub open spec fn trim_front(s: Seq<char>) -> Seq<char>
    decreases s.len(),
{
    if s.len() > 0 && is_space(s[0]) {
        trim_front(s.drop_first())
    } else {
        s
    }
}

/// `s` with its trailing whitespace removed.
pub open spec fn trim_back(s: Seq<char>) -> Seq<char>
    decreases s.len(),
{
    if s.len() > 0 && is_space(s.last()) {
        trim_back(s.drop_last())
    } else {
        s
    }
}

/// `s` with whitespace removed from both ends.
pub open spec fn trim_spec(s: Seq<char>) -> Seq<char> {
    trim_back(trim_front(s))
}

proof fn lemma_trim_front_bound(s: Seq<char>, lo: int)
    requires
        0 <= lo <= s.len(),
        forall|i: int| 0 <= i < lo ==> is_space(#[trigger] s[i]),
        lo < s.len() ==> !is_space(s[lo]),
    ensures
        trim_front(s) == s.subrange(lo, s.len() as int),
    decreases lo,
{
    if lo == 0 {
        if s.len() > 0 {
            assert(!is_space(s[0]));
        }
        assert(s.subrange(0, s.len() as int) =~= s);
    } else {
        assert(is_space(s[0]));
        let t = s.drop_first();
        assert(t =~= s.subrange(1, s.len() as int));
        assert forall|i: int| 0 <= i < lo - 1 implies is_space(#[trigger] t[i]) by {
            assert(t[i] == s[i + 1]);
        }
        if lo - 1 < t.len() {
            assert(t[lo - 1] == s[lo]);
        }
        lemma_trim_front_bound(t, lo - 1);
        assert(t.subrange(lo - 1, t.len() as int) =~= s.subrange(lo, s.len() as int));
    }
}

proof fn lemma_trim_back_bound(s: Seq<char>, hi: int)
    requires
        0 <= hi <= s.len(),
        forall|i: int| hi <= i < s.len() ==> is_space(#[trigger] s[i]),
        hi > 0 ==> !is_space(s[hi - 1]),
    ensures
        trim_back(s) == s.subrange(0, hi),
    decreases s.len() - hi,
{
    if hi == s.len() {
        if s.len() > 0 {
            assert(!is_space(s.last()));
        }
        assert(s.subrange(0, hi) =~= s);
    } else {
        assert(is_space(s.last()));
        let t = s.drop_last();
        assert forall|i: int| hi <= i < t.len() implies is_space(#[trigger] t[i]) by {
            assert(t[i] == s[i]);
        }
        if hi > 0 {
            assert(t[hi - 1] == s[hi - 1]);
        }
        lemma_trim_back_bound(t, hi);
        assert(t.subrange(0, hi) =~= s.subrange(0, hi));
    }
}

/// The characters of `s`, one by one.
pub fn chars_vec(s: &str) -> (v: Vec<char>)
    ensures
        v@ == s@,
{
    let n = s.unicode_len();
    let mut v: Vec<char> = Vec::new();
    let mut i: usize = 0;
    while i < n
        invariant
            i <= n,
            n == s@.len(),
            v@ =~= s@.subrange(0, i as int),
        decreases n - i,
    {
        let c = s.get_char(i);
        v.push(c);
        proof {
            assert(v@ =~= s@.subrange(0, i + 1));
        }
        i += 1;
    }
    proof {
        assert(s@.subrange(0, n as int) =~= s@);
    }
    v
}

fn is_space_exec(c: char) -> (b: bool)
    ensures
        b == is_space(c),
{
    let x = c as u32;
    x == 32 || (9 <= x && x <= 13)
}

/// The bounds of the whitespace-trimmed middle of `v`.
fn trim_bounds(v: &Vec<char>) -> (r: (usize, usize))
    ensures
        r.0 <= r.1 <= v@.len(),
        v@.subrange(r.0 as int, r.1 as int) == trim_spec(v@),
{
    let n = v.len();
    let mut lo: usize = 0;
    while lo < n && is_space_exec(v[lo])
        invariant
            lo <= n,
            n == v@.len(),
            forall|i: int| 0 <= i < lo ==> is_space(#[trigger] v@[i]),
        decreases n - lo,
    {
        lo += 1;
    }
    proof {
        lemma_trim_front_bound(v@, lo as int);
    }
    let mut hi: usize = n;
    while hi > lo && is_space_exec(v[hi - 1])
        invariant
            lo <= hi <= n,
            n == v@.len(),
            forall|i: int| 0 <= i < lo ==> is_space(#[trigger] v@[i]),
            lo < n ==> !is_space(v@[lo as int]),
            forall|i: int| hi <= i < n ==> is_space(#[trigger] v@[i]),
        decreases hi,
    {
        hi -= 1;
    }
    proof {
        let f = trim_front(v@);
        assert(f == v@.subrange(lo as int, n as int));
        assert forall|i: int| hi - lo <= i < f.len() implies is_space(#[trigger] f[i]) by {
            assert(f[i] == v@[i + lo]);
        }
        if hi > lo {
            assert(f[hi - lo - 1] == v@[hi - 1]);
        }
        lemma_trim_back_bound(f, hi - lo as int);
        assert(f.subrange(0, hi - lo as int) =~= v@.subrange(lo as int, hi as int));
    }
    (lo, hi)
}

proof fn lemma_digits_val_nonneg(s: Seq<char>)
    requires
        all_digits(s),
    ensures
        digits_val(s) >= 0,
    decreases s.len(),
{
    if s.len() > 0 {
        assert forall|i: int| 0 <= i < s.len() - 1 implies is_digit(#[trigger] s.drop_last()[i]) by {
            assert(s.drop_last()[i] == s[i]);
        }
        lemma_digits_val_nonneg(s.drop_last());
        assert(is_digit(s.last()));
    }
}

/// Copy of the characters `lo .. hi` of `v`.
fn subvec(v: &Vec<char>, lo: usize, hi: usize) -> (r: Vec<char>)
    requires
        lo <= hi <= v@.len(),
    ensures
        r@ == v@.subrange(lo as int, hi as int),
{
    let mut r: Vec<char> = Vec::new();
    let mut i: usize = lo;
    while i < hi
        invariant
            lo <= i <= hi <= v@.len(),
            r@ =~= v@.subrange(lo as int, i as int),
        decreases hi - i,
    {
        r.push(v[i]);
        proof {
            assert(r@ =~= v@.subrange(lo as int, i + 1));
        }
        i += 1;
    }
    r
}

/// How the standard library reads a `u32` from text: an optional leading
/// plus sign, then at least one decimal digit, and a value that fits.
pub open spec fn parse_u32_spec(s: Seq<char>) -> Option<u32> {
    let t = if s.len() > 0 && s[0] == '+' {
        s.drop_first()
    } else {
        s
    };
    if t.len() > 0 && all_digits(t) && digits_val(t) <= u32::MAX {
        Some(digits_val(t) as u32)
    } else {
        None
    }
}

/// Read a `u32` from the characters of `v`, exactly as `parse_u32_spec`
/// says: the running value is clamped once it can no longer fit, which
/// leaves the outcome unchanged because appending digits never shrinks it.
#[verifier::rlimit(60)]
fn parse_u32_chars(v: &Vec<char>) -> (r: Option<u32>)
    ensures
        r == parse_u32_spec(v@),
{
    let start: usize = if v.len() > 0 && v[0] == '+' {
        1
    } else {
        0
    };
    let ghost t = if start == 1 {
        v@.drop_first()
    } else {
        v@
    };
    proof {
        if start == 1 {
            assert(t =~= v@.subrange(1, v@.len() as int));
        }
        assert forall|j: int| start <= j < v@.len() implies t[j - start] == #[trigger] v@[j] by {}
    }
    if v.len() == start {
        return None;
    }
    let mut acc: u64 = 0;
    let mut i: usize = start;
    while i < v.len()
        invariant
            start <= i <= v@.len(),
            start <= 1,
            (start == 1) == (v@.len() > 0 && v@[0] == '+'),
            t == (if start == 1 {
                v@.drop_first()
            } else {
                v@
            }),
            t.len() == v@.len() - start,
            forall|j: int| start <= j < v@.len() ==> t[j - start] == #[trigger] v@[j],
            forall|j: int| start <= j < i ==> is_digit(#[trigger] v@[j]),
            digits_val(v@.subrange(start as int, i as int)) <= u32::MAX ==> acc == digits_val(
                v@.subrange(start as int, i as int),
            ),
            digits_val(v@.subrange(start as int, i as int)) > u32::MAX ==> acc
                == 0x1_0000_0000u64,
            acc <= 0x1_0000_0000u64,
        decreases v@.len() - i,
    {
        let c = v[i];
        let x = c as u32;
        if !(48 <= x && x <= 57) {
            proof {
                assert(!is_digit(v@[i as int]));
                assert(t[i - start] == v@[i as int]);
                assert(!all_digits(t));
            }
            return None;
        }
        let d = (x - 48) as u64;
        proof {
            assert(is_digit(v@[i as int]));
            assert(digit_val(v@[i as int]) == d as int);
        }
        let ghost pre = v@.subrange(start as int, i as int);
        let ghost pre2 = v@.subrange(start as int, i + 1);
        proof {
            assert(pre2.drop_last() =~= pre);
            assert(pre2.last() == v@[i as int]);
            assert forall|j: int| 0 <= j < pre.len() implies is_digit(#[trigger] pre[j]) by {
                assert(pre[j] == v@[j + start]);
            }
            lemma_digits_val_nonneg(pre);
            assert(digits_val(pre2) == digits_val(pre) * 10 + digit_val(v@[i as int]));
        }
        acc = acc * 10 + d;
        if acc > 0xFFFF_FFFFu64 {
            acc = 0x1_0000_0000u64;
        }
        proof {
            if digits_val(pre) > u32::MAX {
                assert(digits_val(pre) * 10 + digit_val(v@[i as int]) > u32::MAX);
            }
        }
        i += 1;
    }
    proof {
        assert(v@.subrange(start as int, v@.len() as int) =~= t);
        assert forall|j: int| 0 <= j < t.len() implies is_digit(#[trigger] t[j]) by {
            assert(t[j] == v@[j + start]);
        }
    }
    if acc <= 0xFFFF_FFFFu64 {
        Some(acc as u32)
    } else {
        None
    }
}

/// `s` with leading copies of `q` removed.
pub open spec fn trim_char_front(s: Seq<char>, q: char) -> Seq<char>
    decreases s.len(),
{
    if s.len() > 0 && s[0] == q {
        trim_char_front(s.drop_first(), q)
    } else {
        s
    }
}

/// `s` with trailing copies of `q` removed.
pub open spec fn trim_char_back(s: Seq<char>, q: char) -> Seq<char>
    decreases s.len(),
{
    if s.len() > 0 && s.last() == q {
        trim_char_back(s.drop_last(), q)
    } else {
        s
    }
}

/// `s` with copies of `q` removed from both ends.
pub open spec fn trim_char_spec(s: Seq<char>, q: char) -> Seq<char> {
    trim_char_back(trim_char_front(s, q), q)
}

proof fn lemma_trim_char_front_bound(s: Seq<char>, q: char, lo: int)
    requires
        0 <= lo <= s.len(),
        forall|i: int| 0 <= i < lo ==> #[trigger] s[i] == q,
        lo < s.len() ==> s[lo] != q,
    ensures
        trim_char_front(s, q) == s.subrange(lo, s.len() as int),
    decreases lo,
{
    if lo == 0 {
        assert(s.subrange(0, s.len() as int) =~= s);
    } else {
        let t = s.drop_first();
        assert(t =~= s.subrange(1, s.len() as int));
        assert forall|i: int| 0 <= i < lo - 1 implies #[trigger] t[i] == q by {
            assert(t[i] == s[i + 1]);
        }
        if lo - 1 < t.len() {
            assert(t[lo - 1] == s[lo]);
        }
        lemma_trim_char_front_bound(t, q, lo - 1);
        assert(t.subrange(lo - 1, t.len() as int) =~= s.subrange(lo, s.len() as int));
    }
}

proof fn lemma_trim_char_back_bound(s: Seq<char>, q: char, hi: int)
    requires
        0 <= hi <= s.len(),
        forall|i: int| hi <= i < s.len() ==> #[trigger] s[i] == q,
        hi > 0 ==> s[hi - 1] != q,
    ensures
        trim_char_back(s, q) == s.subrange(0, hi),
    decreases s.len() - hi,
{
    if hi == s.len() {
        assert(s.subrange(0, hi) =~= s);
    } else {
        let t = s.drop_last();
        assert forall|i: int| hi <= i < t.len() implies #[trigger] t[i] == q by {
            assert(t[i] == s[i]);
        }
        if hi > 0 {
            assert(t[hi - 1] == s[hi - 1]);
        }
        lemma_trim_char_back_bound(t, q, hi);
        assert(t.subrange(0, hi) =~= s.subrange(0, hi));
    }
}

/// The bounds of `v` with copies of `q` trimmed from both ends.
fn trim_char_bounds(v: &Vec<char>, q: char) -> (r: (usize, usize))
    ensures
        r.0 <= r.1 <= v@.len(),
        v@.subrange(r.0 as int, r.1 as int) == trim_char_spec(v@, q),
{
    let n = v.len();
    let mut lo: usize = 0;
    while lo < n && v[lo] == q
        invariant
            lo <= n,
            n == v@.len(),
            forall|i: int| 0 <= i < lo ==> #[trigger] v@[i] == q,
        decreases n - lo,
    {
        lo += 1;
    }
    proof {
        lemma_trim_char_front_bound(v@, q, lo as int);
    }
    let mut hi: usize = n;
    while hi > lo && v[hi - 1] == q
        invariant
            lo <= hi <= n,
            n == v@.len(),
            forall|i: int| 0 <= i < lo ==> #[trigger] v@[i] == q,
            lo < n ==> v@[lo as int] != q,
            forall|i: int| hi <= i < n ==> #[trigger] v@[i] == q,
        decreases hi,
    {
        hi -= 1;
    }
    proof {
        let f = trim_char_front(v@, q);
        assert(f == v@.subrange(lo as int, n as int));
        assert forall|i: int| hi - lo <= i < f.len() implies #[trigger] f[i] == q by {
            assert(f[i] == v@[i + lo]);
        }
        if hi > lo {
            assert(f[hi - lo - 1] == v@[hi - 1]);
        }
        lemma_trim_char_back_bound(f, q, hi - lo as int);
        assert(f.subrange(0, hi - lo as int) =~= v@.subrange(lo as int, hi as int));
    }
    (lo, hi)
}

/// `s` with every comma removed.
pub open spec fn strip_commas(s: Seq<char>) -> Seq<char>
    decreases s.len(),
{
    if s.len() == 0 {
        Seq::empty()
    } else {
        strip_commas(s.drop_last()) + if s.last() == ',' {
            Seq::empty()
        } else {
            seq![s.last()]
        }
    }
}

fn strip_commas_chars(v: &Vec<char>) -> (r: Vec<char>)
    ensures
        r@ == strip_commas(v@),
{
    let mut r: Vec<char> = Vec::new();
    let mut i: usize = 0;
    while i < v.len()
        invariant
            i <= v@.len(),
            r@ == strip_commas(v@.subrange(0, i as int)),
        decreases v@.len() - i,
    {
        let c = v[i];
        let ghost pre = v@.subrange(0, i as int);
        let ghost pre2 = v@.subrange(0, i + 1);
        proof {
            assert(pre2.drop_last() =~= pre);
            assert(pre2.last() == v@[i as int]);
        }
        if !(c == ',') {
            r.push(c);
        }
        proof {
            assert(r@ =~= strip_commas(pre2));
        }
        i += 1;
    }
    proof {
        assert(v@.subrange(0, v@.len() as int) =~= v@);
    }
    r
}

/// Index of the first dot in `s`, or `s.len()` if there is none.
pub open spec fn first_dot(s: Seq<char>) -> int
    decreases s.len(),
{
    if s.len() == 0 {
        0
    } else if s[0] == '.' {
        0
    } else {
        1 + first_dot(s.drop_first())
    }
}

proof fn lemma_first_dot_at(s: Seq<char>, k: int)
    requires
        0 <= k <= s.len(),
        forall|i: int| 0 <= i < k ==> #[trigger] s[i] != '.',
        k < s.len() ==> s[k] == '.',
        k == s.len() ==> forall|i: int| 0 <= i < s.len() ==> #[trigger] s[i] != '.',
    ensures
        first_dot(s) == k,
    decreases k,
{
    if k == 0 {
        if s.len() > 0 && s[0] != '.' {
            assert(false);
        }
    } else {
        assert(s[0] != '.');
        let t = s.drop_first();
        assert forall|i: int| 0 <= i < k - 1 implies #[trigger] t[i] != '.' by {
            assert(t[i] == s[i + 1]);
        }
        if k - 1 < t.len() {
            assert(t[k - 1] == s[k]);
        } else {
            assert forall|i: int| 0 <= i < t.len() implies #[trigger] t[i] != '.' by {
                assert(t[i] == s[i + 1]);
            }
        }
        lemma_first_dot_at(t, k - 1);
    }
}

/// How a plain decimal field is read into a `u32`: trim whitespace; accept
/// an optional sign, digits, and at most one dot with digit fractions; round
/// the value to the nearest whole number, halves away from zero; clamp it to
/// the `u32` range, with every negative value becoming zero. Anything not of
/// that shape reads as zero.
pub open spec fn float_field_spec(s: Seq<char>) -> u32 {
    let t = trim_spec(s);
    let signed = t.len() > 0 && (t[0] == '+' || t[0] == '-');
    let neg = t.len() > 0 && t[0] == '-';
    let body = if signed {
        t.drop_first()
    } else {
        t
    };
    let fd = first_dot(body);
    let ip = body.subrange(0, fd);
    let fp = if fd < body.len() {
        body.subrange(fd + 1, body.len() as int)
    } else {
        Seq::empty()
    };
    if !(all_digits(ip) && all_digits(fp) && ip.len() + fp.len() > 0) {
        0
    } else if neg {
        0
    } else {
        let r: int = if fp.len() > 0 && digit_val(fp[0]) >= 5 {
            1
        } else {
            0
        };
        let val = digits_val(ip) + r;
        if val > u32::MAX {
            u32::MAX
        } else {
            val as u32
        }
    }
}

/// Read a decimal field into a `u32`: the whitespace-trimmed text as a plain
/// decimal numeral, rounded to the nearest whole number and clamped to the
/// `u32` range; malformed or negative fields read as zero.
#[verifier::rlimit(100)]
#[verifier::loop_isolation(false)]
pub fn parse_float_to_u32(field: &str) -> (r: u32)
    ensures
        r == float_field_spec(field@),
{
    let v = chars_vec(field);
    let (lo, hi) = trim_bounds(&v);
    let tvec = subvec(&v, lo, hi);
    let ghost t = trim_spec(field@);
    proof {
        assert(tvec@ == t);
    }
    let n = tvec.len();
    let signed = n > 0 && (tvec[0] == '+' || tvec[0] == '-');
    let neg = n > 0 && tvec[0] == '-';
    let start: usize = if signed {
        1
    } else {
        0
    };
    let ghost body = if signed {
        t.drop_first()
    } else {
        t
    };
    proof {
        assert(body.len() == n - start);
        assert forall|j: int| start <= j < n implies body[j - start] == #[trigger] t[j] by {}
    }
    let mut di: usize = start;
    while di < n && !(tvec[di] == '.')
        invariant
            start <= di <= n,
            n == t.len(),
            tvec@ == t,
            forall|j: int| start <= j < di ==> #[trigger] t[j] != '.',
        decreases n - di,
    {
        di += 1;
    }
    proof {
        assert forall|i: int| 0 <= i < di - start implies #[trigger] body[i] != '.' by {
            assert(body[i] == t[i + start]);
        }
        if di < n {
            assert(body[di - start] == t[di as int]);
        } else {
            assert forall|i: int| 0 <= i < body.len() implies #[trigger] body[i] != '.' by {
                assert(body[i] == t[i + start]);
            }
        }
        lemma_first_dot_at(body, di - start);
    }
    let ghost fd = di - start as int;
    let ghost ip = body.subrange(0, fd);
    let ghost fp = if fd < body.len() {
        body.subrange(fd + 1, body.len() as int)
    } else {
        Seq::<char>::empty()
    };
    proof {
        assert forall|j: int| start <= j < di implies ip[j - start] == #[trigger] t[j] by {
            assert(ip[j - start] == body[j - start]);
        }
        assert forall|j: int| di + 1 <= j < n implies fp[j - di - 1] == #[trigger] t[j] by {
            assert(fp[j - di - 1] == body[fd + 1 + (j - di - 1)]);
            assert(fd + 1 + (j - di - 1) == j - start);
        }
    }
    // integer part, clamped once it can no longer fit
    let mut acc: u64 = 0;
    let mut i: usize = start;
    while i < di
        invariant
            start <= i <= di <= n,
            n == t.len(),
            tvec@ == t,
            ip == body.subrange(0, fd),
            fd == di - start,
            body.len() == n - start,
            forall|j: int| start <= j < di ==> ip[j - start] == #[trigger] t[j],
            forall|j: int| start <= j < i ==> is_digit(#[trigger] t[j]),
            digits_val(t.subrange(start as int, i as int)) <= u32::MAX ==> acc == digits_val(
                t.subrange(start as int, i as int),
            ),
            digits_val(t.subrange(start as int, i as int)) > u32::MAX ==> acc
                == 0x1_0000_0000u64,
            acc <= 0x1_0000_0000u64,
        decreases di - i,
    {
        let c = tvec[i];
        let x = c as u32;
        if !(48 <= x && x <= 57) {
            proof {
                assert(!is_digit(t[i as int]));
                assert(ip[i - start] == t[i as int]);
                assert(!all_digits(ip));
                assert(trim_spec(field@) == t);
                assert(first_dot(body) == fd);
                assert(float_field_spec(field@) == 0);
            }
            return 0;
        }
        let d = (x - 48) as u64;
        let ghost pre = t.subrange(start as int, i as int);
        let ghost pre2 = t.subrange(start as int, i + 1);
        proof {
            assert(pre2.drop_last() =~= pre);
            assert(pre2.last() == t[i as int]);
            assert forall|j: int| 0 <= j < pre.len() implies is_digit(#[trigger] pre[j]) by {
                assert(pre[j] == t[j + start]);
            }
            lemma_digits_val_nonneg(pre);
            assert(digits_val(pre2) == digits_val(pre) * 10 + digit_val(t[i as int]));
        }
        acc = acc * 10 + d;
        if acc > 0xFFFF_FFFFu64 {
            acc = 0x1_0000_0000u64;
        }
        proof {
            if digits_val(pre) > u32::MAX {
                assert(digits_val(pre) * 10 + digit_val(t[i as int]) > u32::MAX);
            }
        }
        i += 1;
    }
    proof {
        assert(t.subrange(start as int, di as int) =~= ip);
        assert forall|j: int| 0 <= j < ip.len() implies is_digit(#[trigger] ip[j]) by {
            assert(ip[j] == t[j + start]);
        }
    }
    // fractional part: all digits; its first digit decides the rounding
    let mut half_up = false;
    if di < n {
        let mut j: usize = di + 1;
        while j < n
            invariant
                di + 1 <= j <= n,
                di < n,
                n == t.len(),
                tvec@ == t,
                fp.len() == n - di - 1,
                forall|jj: int| di + 1 <= jj < n ==> fp[jj - di - 1] == #[trigger] t[jj],
                forall|jj: int| di + 1 <= jj < j ==> is_digit(#[trigger] t[jj]),
                half_up == (j > di + 1 && digit_val(t[di + 1]) >= 5),
            decreases n - j,
        {
            let c = tvec[j];
            let x = c as u32;
            if !(48 <= x && x <= 57) {
                proof {
                    assert(!is_digit(t[j as int]));
                    assert(fp[j - di - 1] == t[j as int]);
                    assert(!all_digits(fp));
                    assert(trim_spec(field@) == t);
                    assert(first_dot(body) == fd);
                    assert(float_field_spec(field@) == 0);
                }
                return 0;
            }
            if j == di + 1 {
                half_up = x >= 53;
            }
            j += 1;
        }
        proof {
            assert forall|jj: int| 0 <= jj < fp.len() implies is_digit(#[trigger] fp[jj]) by {
                assert(fp[jj] == t[jj + di + 1]);
            }
            if fp.len() > 0 {
                assert(fp[0] == t[di + 1]);
            }
        }
    }
    proof {
        assert(all_digits(fp));
        assert(half_up == (fp.len() > 0 && digit_val(fp[0]) >= 5));
    }
    let ip_len = di - start;
    let fp_len: usize = if di < n {
        n - di - 1
    } else {
        0
    };
    if ip_len + fp_len == 0 {
        return 0;
    }
    if neg {
        return 0;
    }
    if acc > 0xFFFF_FFFFu64 {
        return u32::MAX;
    }
    let r_add: u64 = if half_up {
        1
    } else {
        0
    };
    let val = acc + r_add;
    if val > 0xFFFF_FFFFu64 {
        u32::MAX
    } else {
        val as u32
    }
}

/// How the year field is read: surrounding double quotes stripped, then a
/// plain `u32`; unreadable years become zero.
pub open spec fn parse_year_spec(s: Seq<char>) -> u32 {
    match parse_u32_spec(trim_char_spec(s, '"')) {
        Some(y) => y,
        None => 0,
    }
}

/// How the prisoner-count field is read: thousands separators removed, then
/// a plain `u32`; unreadable counts become zero.
pub open spec fn parse_count_spec(s: Seq<char>) -> u32 {
    match parse_u32_spec(strip_commas(s)) {
        Some(c) => c,
        None => 0,
    }
}

/// A raw row is rejected when its population or crime field is missing
/// (blank after trimming) or reads as zero.
pub open spec fn record_rejected(r: DirtyRecord) -> bool {
    ||| trim_spec(r.state_population@).len() == 0
    ||| trim_spec(r.violent_crime_total@).len() == 0
    ||| float_field_spec(r.state_population@) == 0
    ||| float_field_spec(r.violent_crime_total@) == 0
}

/// Validate and convert one raw row. Rows with a missing or zero population
/// or crime total are rejected; the rest get their numeric fields parsed —
/// unreadable years and prisoner counts fall back to zero — and their two
/// rates derived in fixed point.
pub fn clean_record(r: DirtyRecord) -> (res: Option<CleanRecord>)
    ensures
        res is None <==> record_rejected(r),
        res matches Some(c) ==> c.jurisdiction@ == r.jurisdiction@ && c.year == parse_year_spec(
            r.year@,
        ) && c.prisoner_count == parse_count_spec(r.prisoner_count@) && c.state_population
            == float_field_spec(r.state_population@) && c.violent_crime_total == float_field_spec(
            r.violent_crime_total@,
        ) && c.state_population > 0 && c.incarceration_rate_milli == rate_milli_spec(
            c.prisoner_count,
            c.state_population,
        ) && c.crime_rate_milli == rate_milli_spec(c.violent_crime_total, c.state_population),
{
    let pv = chars_vec(r.state_population.as_str());
    let (plo, phi) = trim_bounds(&pv);
    let vv = chars_vec(r.violent_crime_total.as_str());
    let (vlo, vhi) = trim_bounds(&vv);
    if phi == plo || vhi == vlo {
        return None;
    }
    let yv = chars_vec(r.year.as_str());
    let (ylo, yhi) = trim_char_bounds(&yv, '"');
    let ytrim = subvec(&yv, ylo, yhi);
    let year = match parse_u32_chars(&ytrim) {
        Some(y) => y,
        None => 0,
    };
    let cv = chars_vec(r.prisoner_count.as_str());
    let stripped = strip_commas_chars(&cv);
    let prisoner_count = match parse_u32_chars(&stripped) {
        Some(c) => c,
        None => 0,
    };
    let state_population = parse_float_to_u32(r.state_population.as_str());
    let violent_crime_total = parse_float_to_u32(r.violent_crime_total.as_str());
    if state_population == 0 || violent_crime_total == 0 {
        return None;
    }
    let incarceration_rate_milli = rate_milli(prisoner_count, state_population);
    let crime_rate_milli = rate_milli(violent_crime_total, state_population);
    Some(
        CleanRecord {
            jurisdiction: r.jurisdiction.clone(),
            year,
            prisoner_count,
            state_population,
            violent_crime_total,
            incarceration_rate_milli,
            crime_rate_milli,
        },
    )
}

/// The lowercase image of a character sequence.
pub uninterp spec fn lower_of(s: Seq<char>) -> Seq<char>;

/// Relies on str::to_lowercase: the lowercase form of a string depends on
/// its characters alone, and an empty string stays empty.
#[verifier::external_body]
fn lowercase(s: &str) -> (r: String)
    ensures
        r@ == lower_of(s@),
        s@.len() == 0 ==> r@.len() == 0,
{
    s.to_lowercase()
}

/// The records among the first `n` whose jurisdiction equals `target` after
/// lowercasing, in input order.
pub open spec fn state_filter_upto(
    rs: Seq<CleanRecord>,
    target: Seq<char>,
    n: int,
) -> Seq<CleanRecord>
    decreases n,
{
    if n <= 0 {
        Seq::empty()
    } else {
        state_filter_upto(rs, target, n - 1) + if lower_of(rs[n - 1].jurisdiction@) == target {
            seq![rs[n - 1]]
        } else {
            Seq::empty()
        }
    }
}

/// The records whose jurisdiction matches `state`, compared without regard
/// to letter case.
pub open spec fn state_filter_spec(rs: Seq<CleanRecord>, state: Seq<char>) -> Seq<CleanRecord> {
    state_filter_upto(rs, lower_of(state), rs.len() as int)
}

/// The records of one jurisdiction: name comparison ignores letter case.
pub fn filter_by_state(records: &Vec<CleanRecord>, state: &str) -> (res: Vec<CleanRecord>)
    ensures
        res@ == state_filter_spec(records@, state@),
{
    let ghost rs = records@;
    let target = lowercase(state);
    let mut res: Vec<CleanRecord> = Vec::new();
    let mut i: usize = 0;
    while i < records.len()
        invariant
            i <= rs.len(),
            rs == records@,
            target@ == lower_of(state@),
            res@ =~= state_filter_upto(rs, lower_of(state@), i as int),
        decreases records.len() - i,
    {
        let lj = lowercase(records[i].jurisdiction.as_str());
        if lj == target {
            res.push(records[i].clone());
        }
        proof {
            assert(res@ =~= state_filter_upto(rs, lower_of(state@), i + 1));
        }
        i += 1;
    }
    res
}

/// The records of two jurisdictions, side by side.
pub fn compare_states(records: &Vec<CleanRecord>, state1: &str, state2: &str) -> (res: (
    Vec<CleanRecord>,
    Vec<CleanRecord>,
))
    ensures
        res.0@ == state_filter_spec(records@, state1@),
        res.1@ == state_filter_spec(records@, state2@),
{
    let first = filter_by_state(records, state1);
    let second = filter_by_state(records, state2);
    (first, second)
}

} // verus!

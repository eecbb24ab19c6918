//! Timestamps.
//!
//! Source files carry times in three shapes: ISO-8601 text, numeric
//! seconds, and numeric milliseconds. Everything here turns them into
//! milliseconds since the epoch. Numbers reach the library as decimal
//! text (see [`crate::json`]), so the arithmetic below is exact integer
//! work on digits; seconds and milliseconds are told apart by magnitude,
//! integer values above 10^12 being read as milliseconds and the rest as
//! seconds.

use vstd::prelude::*;
use crate::json::{JsonV, JsonValue};

verus! {

/// Whether `c` is a decimal digit.
pub open spec fn is_digit(c: char) -> bool {
    48 <= (c as u32) && (c as u32) <= 57
}

/// The value of the digit `c`.
pub open spec fn digit_val(c: char) -> int {
    (c as u32) as int - 48
}

/// Whether every character of `s` is a decimal digit.
pub open spec fn all_digits(s: Seq<char>) -> bool {
    forall|i: int| 0 <= i < s.len() ==> is_digit(s[i])
}

/// The integer denoted by the digit string `s`, most significant first.
pub open spec fn digits_int(s: Seq<char>) -> int
    decreases s.len(),
{
    if s.len() == 0 {
        0
    } else {
        digits_int(s.drop_last()) * 10 + digit_val(s.last())
    }
}

/// Ten to the `n`.
pub open spec fn pow10(n: nat) -> int
    decreases n,
{
    if n == 0 {
        1
    } else {
        10 * pow10((n - 1) as nat)
    }
}

/// A digit string of length `n` denotes a value below `10^n`.
pub proof fn lemma_digits_int_bound(s: Seq<char>)
    requires
        all_digits(s),
    ensures
        0 <= digits_int(s) < pow10(s.len()),
    decreases s.len(),
{
    if s.len() > 0 {
        assert(all_digits(s.drop_last()));
        lemma_digits_int_bound(s.drop_last());
    }
}

/// The position of the first `.` in `s`, if any.
pub open spec fn first_dot(s: Seq<char>) -> Option<int>
    decreases s.len(),
{
    if s.len() == 0 {
        None
    } else if s[0] == '.' {
        Some(0int)
    } else {
        match first_dot(s.drop_first()) {
            Some(i) => Some(i + 1),
            None => None,
        }
    }
}

/// A scan that saw no `.` before position `i` pins `first_dot` down.
pub proof fn lemma_first_dot_of_scan(s: Seq<char>, i: int)
    requires
        0 <= i <= s.len(),
        forall|k: int| 0 <= k < i ==> s[k] != '.',
        i < s.len() ==> s[i] == '.',
    ensures
        first_dot(s) == if i < s.len() {
            Some(i)
        } else {
            None::<int>
        },
    decreases i,
{
    if i > 0 {
        lemma_first_dot_of_scan(s.drop_first(), i - 1);
    }
}

/// Where `first_dot` points, there is a dot, and none before it.
pub proof fn lemma_first_dot_is_dot(s: Seq<char>)
    ensures
        match first_dot(s) {
            Some(d) => 0 <= d < s.len() && s[d] == '.' && forall|k: int| 0 <= k < d ==> s[k] != '.',
            None => forall|k: int| 0 <= k < s.len() ==> s[k] != '.',
        },
    decreases s.len(),
{
    if s.len() > 0 && s[0] != '.' {
        lemma_first_dot_is_dot(s.drop_first());
        match first_dot(s.drop_first()) {
            Some(i) => {
                assert(s.drop_first()[i] == s[i + 1]);
                assert(first_dot(s) == Some(i + 1));
                assert forall|k: int| 0 <= k < i + 1 implies s[k] != '.' by {
                    if k > 0 {
                        assert(s.drop_first()[k - 1] == s[k]);
                    }
                }
            },
            None => {
                assert forall|k: int| 0 <= k < s.len() implies s[k] != '.' by {
                    if k > 0 {
                        assert(s.drop_first()[k - 1] == s[k]);
                    }
                }
            },
        }
    }
}

/// `10^n` grows with `n`.
pub proof fn lemma_pow10_mono(a: nat, b: nat)
    requires
        a <= b,
    ensures
        pow10(a) <= pow10(b),
        pow10(a) >= 1,
    decreases b,
{
    if b > 0 {
        if a == b {
            lemma_pow10_mono((a - 1) as nat, (b - 1) as nat);
        } else {
            lemma_pow10_mono(a, (b - 1) as nat);
        }
    }
}

/// The largest number of integer digits a plausible timestamp can have.
pub const MAX_TIMESTAMP_DIGITS: usize = 13;

/// The split of an unsigned decimal text into integer digits and
/// fraction digits; `None` where the text is not a plain decimal
/// number, or its integer part is too long to be a timestamp.
pub open spec fn dec_parts_of_body(body: Seq<char>) -> Option<(Seq<char>, Seq<char>)> {
    match first_dot(body) {
        None => if 1 <= body.len() <= MAX_TIMESTAMP_DIGITS && all_digits(body) {
            Some((body, Seq::<char>::empty()))
        } else {
            None
        },
        Some(d) => {
            let ip = body.take(d);
            let fp = body.skip(d + 1);
            if 1 <= ip.len() <= MAX_TIMESTAMP_DIGITS && fp.len() >= 1 && all_digits(ip)
                && all_digits(fp) {
                Some((ip, fp))
            } else {
                None
            }
        },
    }
}

/// The parts of the decimal number text `s`: its sign, its integer
/// digits, and its fraction digits (empty when there is no point).
pub open spec fn dec_parts(s: Seq<char>) -> Option<(bool, Seq<char>, Seq<char>)> {
    let neg = s.len() > 0 && s[0] == '-';
    let body = if neg {
        s.drop_first()
    } else {
        s
    };
    match dec_parts_of_body(body) {
        Some(p) => Some((neg, p.0, p.1)),
        None => None,
    }
}

/// The fraction digits cut or padded to exactly three, i.e. thousandths.
pub open spec fn frac3(f: Seq<char>) -> Seq<char> {
    if f.len() >= 3 {
        f.take(3)
    } else {
        f + Seq::new((3 - f.len()) as nat, |i: int| '0')
    }
}

/// The number denoted by `s`, scaled to thousandths and truncated
/// toward zero: a count of milliseconds when `s` is in seconds.
pub open spec fn num_millis(s: Seq<char>) -> Option<int> {
    match dec_parts(s) {
        Some((neg, ip, fp)) => {
            let magnitude = digits_int(ip) * 1000 + digits_int(frac3(fp));
            Some(
                if neg {
                    -magnitude
                } else {
                    magnitude
                },
            )
        },
        None => None,
    }
}

/// The number denoted by `s`, truncated toward zero to an integer.
pub open spec fn num_int(s: Seq<char>) -> Option<int> {
    match dec_parts(s) {
        Some((neg, ip, fp)) => Some(
            if neg {
                -digits_int(ip)
            } else {
                digits_int(ip)
            },
        ),
        None => None,
    }
}

/// Integer values above this bound are read as milliseconds, the rest
/// as seconds.
pub const MS_MAGNITUDE_BOUND: i64 = 1_000_000_000_000;

/// The milliseconds-since-epoch reading of the number text `s`.
pub open spec fn num_timestamp(s: Seq<char>) -> Option<int> {
    match dec_parts(s) {
        Some((neg, ip, fp)) => if digits_int(ip) > MS_MAGNITUDE_BOUND {
            num_int(s)
        } else {
            num_millis(s)
        },
        None => None,
    }
}

/// A readable number in thousandths stays within ten to the
/// sixteenth, so it always fits a machine integer.
pub proof fn lemma_num_millis_bound(s: Seq<char>)
    ensures
        num_millis(s) matches Some(v) ==> -10_000_000_000_000_000 <= v
            <= 10_000_000_000_000_000,
{
    reveal_with_fuel(pow10, 14);
    if let Some((neg, ip, fp)) = dec_parts(s) {
        assert(all_digits(ip));
        lemma_digits_int_bound(ip);
        lemma_pow10_mono(ip.len(), MAX_TIMESTAMP_DIGITS as nat);
        assert(all_digits(frac3(fp))) by {
            if fp.len() < 3 {
                assert(forall|k: int|
                    0 <= k < frac3(fp).len() ==> is_digit(#[trigger] frac3(fp)[k]));
            }
        }
        lemma_digits_int_bound(frac3(fp));
        assert(pow10(3) == 1000);
        assert(pow10(MAX_TIMESTAMP_DIGITS as nat) == 10_000_000_000_000);
    }
}

/// What an ISO-8601 text denotes as milliseconds since the epoch, or
/// `None` where the text is not such a date. Left uninterpreted: the
/// calendar arithmetic is done by an outside library and only named
/// here.
pub uninterp spec fn iso_millis_of(s: Seq<char>) -> Option<i64>;

/// The milliseconds-since-epoch reading of any JSON value: numbers by
/// magnitude, strings as ISO-8601 dates, everything else `None`.
pub open spec fn timestamp_of(v: JsonV) -> Option<int> {
    match v {
        JsonV::Num(s) => num_timestamp(s),
        JsonV::Str(s) => match iso_millis_of(s) {
            Some(ms) => Some(ms as int),
            None => None,
        },
        _ => None,
    }
}

/// The milliseconds-since-epoch reading of `v`, as a machine integer;
/// every readable timestamp fits.
pub open spec fn timestamp64_of(v: JsonV) -> Option<i64> {
    match timestamp_of(v) {
        Some(t) => if i64::MIN <= t <= i64::MAX {
            Some(t as i64)
        } else {
            None
        },
        None => None,
    }
}

/// Relies on chrono's DateTime::parse_from_rfc3339 followed by
/// timestamp_millis: the result is a pure function of the text, named
/// `iso_millis_of`.
#[verifier::external_body]
pub fn parse_iso_timestamp(s: &str) -> (r: Option<i64>)
    ensures
        r == iso_millis_of(s@),
{
    chrono::DateTime::parse_from_rfc3339(s).ok().map(|dt| dt.timestamp_millis())
}

/// Appending `k` zero digits multiplies the value by `10^k`.
pub proof fn lemma_digits_pad(s: Seq<char>, k: nat)
    ensures
        digits_int(s + Seq::new(k, |i: int| '0')) == digits_int(s) * pow10(k),
    decreases k,
{
    if k == 0 {
        assert(s + Seq::new(0, |i: int| '0') =~= s);
    } else {
        let shorter = Seq::new((k - 1) as nat, |i: int| '0');
        let longer = Seq::new(k, |i: int| '0');
        assert((s + longer).drop_last() =~= s + shorter);
        assert((s + longer).last() == '0');
        lemma_digits_pad(s, (k - 1) as nat);
        assert(digits_int(s + longer) == digits_int(s) * pow10((k - 1) as nat) * 10 + 0);
        assert(digits_int(s) * pow10((k - 1) as nat) * 10 == digits_int(s) * (pow10(
            (k - 1) as nat,
        ) * 10)) by (nonlinear_arith);
    }
}

/// The decimal parts of `s` as machine integers: the sign, the integer
/// part, and the fraction in thousandths.
#[verifier::rlimit(80)]
#[verifier::loop_isolation(false)]
fn parse_dec(s: &str) -> (r: Option<(bool, i64, i64)>)
    ensures
        match dec_parts(s@) {
            Some(p) => {
                &&& r matches Some(t)
                &&& t.0 == p.0
                &&& t.1 == digits_int(p.1)
                &&& t.2 == digits_int(frac3(p.2))
                &&& 0 <= t.1 < pow10(MAX_TIMESTAMP_DIGITS as nat)
                &&& 0 <= t.2 < 1000
            },
            None => r is None,
        },
{
    proof {
        reveal_with_fuel(pow10, 14);
    }
    let n = s.unicode_len();
    let neg = n > 0 && s.get_char(0) == '-';
    let start: usize = if neg {
        1
    } else {
        0
    };
    let ghost body = s@.skip(start as int);
    proof {
        if neg {
            assert(body =~= s@.drop_first());
        } else {
            assert(body =~= s@);
        }
    }

    // Integer digits up to the point or the end.
    let mut i: usize = start;
    let mut ip: i64 = 0;
    while i < n && s.get_char(i) != '.'
        invariant
            n == s@.len(),
            start <= i <= n,
            start <= 1,
            body == s@.skip(start as int),
            forall|k: int| start <= k < i ==> s@[k] != '.' && is_digit(s@[k]),
            ip == digits_int(s@.subrange(start as int, i as int)),
            0 <= ip < pow10((i - start) as nat),
            i - start <= MAX_TIMESTAMP_DIGITS,
        decreases n - i,
    {
        let c = s.get_char(i);
        let u: u32 = c as u32;
        if u < 48 || u > 57 {
            proof {
                lemma_first_dot_is_dot(body);
                assert(body[i - start] == s@[i as int]);
                assert(!is_digit(body[i - start]));
                match first_dot(body) {
                    None => {
                        assert(!all_digits(body));
                    },
                    Some(d) => {
                        assert(body[d] == '.');
                        assert(s@[d + start] == '.');
                        assert(d > i - start);
                        assert(body.take(d)[i - start] == body[i - start]);
                        assert(!all_digits(body.take(d)));
                    },
                }
            }
            return None;
        }
        if i - start == MAX_TIMESTAMP_DIGITS {
            proof {
                lemma_first_dot_is_dot(body);
                match first_dot(body) {
                    None => {
                        assert(body.len() > MAX_TIMESTAMP_DIGITS);
                    },
                    Some(d) => {
                        assert(d >= i - start);
                        assert(body.take(d).len() > MAX_TIMESTAMP_DIGITS);
                    },
                }
            }
            return None;
        }
        let d: i64 = (u - 48) as i64;
        proof {
            assert(s@.subrange(start as int, i + 1int).drop_last() =~= s@.subrange(
                start as int,
                i as int,
            ));
            assert(s@.subrange(start as int, i + 1int).last() == s@[i as int]);
            assert(pow10(((i + 1) - start) as nat) == 10 * pow10((i - start) as nat));
            lemma_pow10_mono((i - start) as nat, 12);
            assert(pow10(12) == 1_000_000_000_000) by {
                reveal_with_fuel(pow10, 14);
            }
        }
        ip = ip * 10 + d;
        i += 1;
    }
    if i == start {
        // No integer digits at all.
        proof {
            if start < n {
                assert(body[0] == s@[start as int]);
                lemma_first_dot_of_scan(body, 0);
                assert(body.take(0).len() == 0);
            } else {
                assert(body.len() == 0);
            }
        }
        return None;
    }

    let ghost ipd = s@.subrange(start as int, i as int);
    proof {
        assert(forall|k: int| 0 <= k < ipd.len() ==> is_digit(#[trigger] ipd[k]));
    }

    if i == n {
        // Digits only: no fraction.
        proof {
            lemma_first_dot_of_scan(body, (i - start) as int);
            assert(body =~= ipd);
            lemma_digits_pad(Seq::<char>::empty(), 3);
            assert(Seq::<char>::empty() + Seq::new(3, |k: int| '0') =~= frac3(
                Seq::<char>::empty(),
            ));
            lemma_pow10_mono((i - start) as nat, MAX_TIMESTAMP_DIGITS as nat);
        }
        return Some((neg, ip, 0));
    }

    // A point: fraction digits follow.
    let ghost dot = (i - start) as int;
    proof {
        assert(s@[i as int] == '.');
        assert(body[dot] == '.');
        lemma_first_dot_of_scan(body, dot);
        assert(body.take(dot) =~= ipd);
    }
    let mut j: usize = i + 1;
    let mut f3: i64 = 0;
    let mut flen: usize = 0;
    while j < n
        invariant
            n == s@.len(),
            i + 1 <= j <= n,
            start <= i < n,
            body == s@.skip(start as int),
            flen == if j - i - 1 <= 3 {
                j - i - 1
            } else {
                3int
            },
            forall|k: int| i + 1 <= k < j ==> is_digit(s@[k]),
            f3 == digits_int(s@.subrange(i + 1, j as int).take(flen as int)),
            0 <= f3 < pow10(flen as nat),
            flen <= 3,
        decreases n - j,
    {
        let c = s.get_char(j);
        let u: u32 = c as u32;
        if u < 48 || u > 57 {
            proof {
                assert(!is_digit(s@[j as int]));
                assert(body.skip(dot + 1) =~= s@.skip(i + 1));
                assert(body.skip(dot + 1)[j - i - 1] == s@[j as int]);
                assert(!all_digits(body.skip(dot + 1)));
            }
            return None;
        }
        if flen < 3 {
            let d: i64 = (u - 48) as i64;
            proof {
                let prefix = s@.subrange(i + 1, j as int).take(flen as int);
                let next = s@.subrange(i + 1, j + 1int).take(flen + 1int);
                assert(next.drop_last() =~= prefix);
                assert(next.last() == s@[j as int]);
            }
            f3 = f3 * 10 + d;
            flen += 1;
        } else {
            proof {
                assert(s@.subrange(i + 1, j + 1int).take(3) =~= s@.subrange(
                    i + 1,
                    j as int,
                ).take(3));
            }
        }
        j += 1;
    }
    if j == i + 1 {
        // A point with nothing after it.
        proof {
            assert(body.skip(dot + 1) =~= s@.skip(i + 1));
            assert(body.skip(dot + 1).len() == 0);
        }
        return None;
    }
    // Pad the fraction out to thousandths.
    let scale: i64 = if flen == 1 {
        100
    } else if flen == 2 {
        10
    } else {
        1
    };
    proof {
        let fp = body.skip(dot + 1);
        assert(fp =~= s@.subrange(i + 1, n as int));
        assert(forall|k: int| 0 <= k < fp.len() ==> is_digit(#[trigger] fp[k]));
        if fp.len() >= 3 {
            assert(flen == 3);
            assert(frac3(fp) =~= s@.subrange(i + 1, j as int).take(3));
        } else {
            assert(flen == fp.len());
            assert(fp =~= s@.subrange(i + 1, j as int).take(flen as int));
            lemma_digits_pad(fp, (3 - fp.len()) as nat);
            assert(flen == 1 ==> pow10((3 - fp.len()) as nat) == 100);
            assert(flen == 2 ==> pow10((3 - fp.len()) as nat) == 10);
        }
        lemma_digits_int_bound(frac3(fp));
        assert(pow10(3) == 1000);
        lemma_pow10_mono((i - start) as nat, MAX_TIMESTAMP_DIGITS as nat);
    }
    Some((neg, ip, f3 * scale))
}

/// The milliseconds denoted by the decimal seconds text `s`.
pub fn text_seconds_to_millis(s: &str) -> (r: Option<i64>)
    ensures
        match num_millis(s@) {
            Some(v) => r matches Some(m) && m == v,
            None => r is None,
        },
{
    proof {
        reveal_with_fuel(pow10, 14);
    }
    match parse_dec(s) {
        Some((neg, ip, f3)) => {
            let magnitude: i64 = ip * 1000 + f3;
            Some(
                if neg {
                    -magnitude
                } else {
                    magnitude
                },
            )
        },
        None => None,
    }
}

/// The integer denoted by the decimal text `s`, truncated toward zero.
pub fn text_to_int(s: &str) -> (r: Option<i64>)
    ensures
        match num_int(s@) {
            Some(v) => r matches Some(m) && m == v,
            None => r is None,
        },
{
    match parse_dec(s) {
        Some((neg, ip, _)) => Some(
            if neg {
                -ip
            } else {
                ip
            },
        ),
        None => None,
    }
}

/// The milliseconds-since-epoch reading of `v`, numbers disambiguated
/// by magnitude and strings read as ISO-8601 dates.
pub fn parse_timestamp(v: &JsonValue) -> (r: Option<i64>)
    ensures
        match timestamp_of(v@) {
            Some(t) => r matches Some(m) && m == t,
            None => r is None,
        },
{
    proof {
        reveal_with_fuel(pow10, 14);
    }
    if let Some(text) = v.as_num_text() {
        match parse_dec(text) {
            Some((neg, ip, f3)) => {
                if ip > MS_MAGNITUDE_BOUND {
                    Some(
                        if neg {
                            -ip
                        } else {
                            ip
                        },
                    )
                } else {
                    let magnitude: i64 = ip * 1000 + f3;
                    Some(
                        if neg {
                            -magnitude
                        } else {
                            magnitude
                        },
                    )
                }
            },
            None => None,
        }
    } else if let Some(text) = v.as_str() {
        parse_iso_timestamp(text)
    } else {
        None
    }
}

/// The integer denoted by `s` when it is nothing but an optional sign
/// and digits.
pub open spec fn strict_int(s: Seq<char>) -> Option<int> {
    match dec_parts(s) {
        Some((neg, ip, fp)) => if fp.len() == 0 {
            Some(
                if neg {
                    -digits_int(ip)
                } else {
                    digits_int(ip)
                },
            )
        } else {
            None
        },
        None => None,
    }
}

/// The integer denoted by `s` when it has no fraction part.
pub fn strict_int_exec(s: &str) -> (r: Option<i64>)
    ensures
        match strict_int(s@) {
            Some(v) => r matches Some(m) && m == v,
            None => r is None,
        },
{
    let n = s.unicode_len();
    let mut i: usize = 0;
    while i < n
        invariant
            n == s@.len(),
            0 <= i <= n,
            forall|k: int| 0 <= k < i ==> s@[k] != '.',
        decreases n - i,
    {
        if s.get_char(i) == '.' {
            proof {
                lemma_dot_means_no_strict_int(s@, i as int);
            }
            return None;
        }
        i += 1;
    }
    proof {
        lemma_no_dot_strict_int(s@);
    }
    crate::time::text_to_int(s)
}

/// A text with a dot is not a strict integer.
proof fn lemma_dot_means_no_strict_int(s: Seq<char>, i: int)
    requires
        0 <= i < s.len(),
        s[i] == '.',
    ensures
        strict_int(s) is None,
{
    let neg = s.len() > 0 && s[0] == '-';
    let body = if neg {
        s.drop_first()
    } else {
        s
    };
    lemma_first_dot_is_dot(body);
    if i >= (if neg {
        1int
    } else {
        0int
    }) {
        let bi = i - (if neg {
            1int
        } else {
            0int
        });
        assert(body[bi] == '.');
        match first_dot(body) {
            Some(d) => {
                assert(dec_parts(s) matches Some(p) ==> p.2.len() >= 1);
            },
            None => {
                assert(false);
            },
        }
    } else {
        // The dot would have to be the sign position, which it is not.
        assert(s[0] == '-');
        assert(false);
    }
}

/// A text without a dot has an empty fraction part.
proof fn lemma_no_dot_strict_int(s: Seq<char>)
    requires
        forall|k: int| 0 <= k < s.len() ==> s[k] != '.',
    ensures
        match strict_int(s) {
            Some(v) => num_int(s) == Some(v),
            None => num_int(s) is None,
        },
{
    let neg = s.len() > 0 && s[0] == '-';
    let body = if neg {
        s.drop_first()
    } else {
        s
    };
    assert(forall|k: int| 0 <= k < body.len() ==> body[k] != '.') by {
        if neg {
            assert(forall|k: int| 0 <= k < body.len() ==> body[k] == s[k + 1]);
        }
    }
    lemma_first_dot_of_scan(body, body.len() as int);
}


} // verus!

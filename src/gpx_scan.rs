//! Lenient recovery of track points from text that a structured reader
//! rejected: `lat`/`lon` attributes and optional `<ele>` of track points or
//! waypoints, read as decimal numbers into microdegrees and millimetres.
use vstd::prelude::*;
use crate::gpx_parser::Extraction;
use crate::models::GpxPoint;

verus! {

/// Scale of coordinates: microdegrees.
pub const COORD_DECIMALS: usize = 6;

/// Scale of elevations: millimetres.
pub const ELEVATION_DECIMALS: usize = 3;

/// Most digits accepted before the decimal point.
pub const MAX_INT_DIGITS: usize = 12;

/// Track point pattern: latitude, longitude and optional elevation groups.
pub const TRACK_POINT_PATTERN: &'static str = r#"<trkpt\s+lat="([^"]+)"\s+lon="([^"]+)"[^>]*>.*?(?:<ele>([^<]+)</ele>)?.*?</trkpt>"#;

/// Waypoint pattern, with the same groups.
pub const WAYPOINT_PATTERN: &'static str = r#"<wpt\s+lat="([^"]+)"\s+lon="([^"]+)"[^>]*>.*?(?:<ele>([^<]+)</ele>)?.*?</wpt>"#;

pub open spec fn opt_view(o: Option<String>) -> Option<Seq<char>> {
    match o {
        Some(s) => Some(s@),
        None => None,
    }
}

/// The capture groups 1, 2 and 3 of every successive match of a valid
/// pattern in a text.
pub uninterp spec fn regex_captures_of(pattern: Seq<char>, text: Seq<char>) -> Seq<
    (Option<Seq<char>>, Option<Seq<char>>, Option<Seq<char>>),
>;

/// Relies on regex's `Regex::new` and `Regex::captures_iter`: `None` when the
/// pattern does not compile (the two point patterns do), else for each
/// successive non-overlapping match the text of groups 1, 2 and 3, each
/// absent when it did not participate.
#[verifier::external_body]
fn regex_captures(pattern: &str, text: &str) -> (r: Option<
    Vec<(Option<String>, Option<String>, Option<String>)>,
>)
    ensures
        pattern@ == TRACK_POINT_PATTERN@ || pattern@ == WAYPOINT_PATTERN@ ==> r is Some,
        r matches Some(v) ==> {
            let c = regex_captures_of(pattern@, text@);
            &&& v@.len() == c.len()
            &&& forall|i: int|
                0 <= i < c.len() ==> opt_view((#[trigger] v@[i]).0) == c[i].0 && opt_view(v@[i].1)
                    == c[i].1 && opt_view(v@[i].2) == c[i].2
        },
{
    let re = match regex::Regex::new(pattern) {
        Ok(re) => re,
        Err(_) => return None,
    };
    let group = |c: &regex::Captures, i: usize| c.get(i).map(|m| m.as_str().to_string());
    Some(re.captures_iter(text).map(|c| (group(&c, 1), group(&c, 2), group(&c, 3))).collect())
}

pub open spec fn is_digit(b: u8) -> bool {
    48 <= b <= 57
}

pub open spec fn all_digits(s: Seq<u8>) -> bool {
    forall|i: int| 0 <= i < s.len() ==> is_digit(#[trigger] s[i])
}

/// The number a run of decimal digits spells.
pub open spec fn digits_value(s: Seq<u8>) -> int
    decreases s.len(),
{
    if s.len() == 0 {
        0
    } else {
        digits_value(s.drop_last()) * 10 + (s.last() - 48)
    }
}

pub open spec fn pow10(n: nat) -> int
    decreases n,
{
    if n == 0 {
        1
    } else {
        10 * pow10((n - 1) as nat)
    }
}

/// Index of the first `.`, or the length when there is none.
pub open spec fn first_dot(s: Seq<u8>) -> int
    decreases s.len(),
{
    if s.len() == 0 {
        0
    } else if s[0] == 46 {
        0
    } else {
        1 + first_dot(s.skip(1))
    }
}

/// Value of `digits[scale]` fraction digits: the first `scale` digits,
/// missing ones counted as 0.
pub open spec fn fraction_value(frac: Seq<u8>, scale: nat) -> int
    decreases scale,
{
    if scale == 0 {
        0
    } else {
        let d = if frac.len() >= scale { frac[scale - 1] - 48 } else { 0 };
        fraction_value(frac, (scale - 1) as nat) * 10 + d
    }
}

/// An unsigned decimal (`digits`, `digits.`, `.digits` or `digits.digits`,
/// at least one digit, at most `MAX_INT_DIGITS` before the point) in units
/// of 10^-scale, further fraction digits dropped.
pub open spec fn unsigned_fixed(s: Seq<u8>, scale: nat) -> Option<int> {
    let d = first_dot(s);
    let whole = s.take(d);
    let frac = if d < s.len() { s.skip(d + 1) } else { Seq::empty() };
    if all_digits(whole) && all_digits(frac) && whole.len() + frac.len() > 0 && whole.len()
        <= MAX_INT_DIGITS {
        Some(digits_value(whole) * pow10(scale) + fraction_value(frac, scale))
    } else {
        None
    }
}

/// A decimal with an optional sign, in units of 10^-scale.
pub open spec fn decimal_fixed(s: Seq<u8>, scale: nat) -> Option<int> {
    if s.len() > 0 && s[0] == 45 {
        match unsigned_fixed(s.skip(1), scale) {
            Some(v) => Some(-v),
            None => None,
        }
    } else if s.len() > 0 && s[0] == 43 {
        unsigned_fixed(s.skip(1), scale)
    } else {
        unsigned_fixed(s, scale)
    }
}

proof fn lemma_first_dot(s: Seq<u8>, k: int)
    requires
        0 <= k <= s.len(),
        forall|i: int| 0 <= i < k ==> s[i] != 46,
        k == s.len() || s[k] == 46,
    ensures
        first_dot(s) == k,
    decreases k,
{
    if k > 0 {
        let t = s.skip(1);
        assert forall|i: int| 0 <= i < k - 1 implies t[i] != 46 by {
            assert(t[i] == s[i + 1]);
        }
        if k < s.len() {
            assert(t[k - 1] == s[k]);
        }
        lemma_first_dot(t, k - 1);
    }
}

proof fn lemma_digits_bound(s: Seq<u8>)
    requires
        all_digits(s),
    ensures
        0 <= digits_value(s) < pow10(s.len()),
    decreases s.len(),
{
    if s.len() > 0 {
        let t = s.drop_last();
        assert(all_digits(t)) by {
            assert forall|i: int| 0 <= i < t.len() implies is_digit(#[trigger] t[i]) by {
                assert(t[i] == s[i]);
            }
        }
        lemma_digits_bound(t);
        assert(is_digit(s[s.len() - 1]));
    }
}

proof fn lemma_fraction_bound(frac: Seq<u8>, scale: nat)
    requires
        all_digits(frac),
    ensures
        0 <= fraction_value(frac, scale) < pow10(scale),
    decreases scale,
{
    if scale > 0 {
        lemma_fraction_bound(frac, (scale - 1) as nat);
        if frac.len() >= scale {
            assert(is_digit(frac[scale - 1]));
        }
    }
}

/// Reads an unsigned decimal from `b[start..]`.
fn parse_unsigned(b: &[u8], start: usize, scale: usize) -> (r: Option<i64>)
    requires
        start <= b@.len(),
        scale <= COORD_DECIMALS,
    ensures
        match r {
            Some(v) => unsigned_fixed(b@.skip(start as int), scale as nat) == Some(v as int) && v >= 0,
            None => unsigned_fixed(b@.skip(start as int), scale as nat).is_none(),
        },
{
    let ghost s = b@.skip(start as int);
    let n = b.len();
    let mut d: usize = start;
    while d < n && b[d] != 46
        invariant
            start <= d <= n,
            n == b@.len(),
            forall|i: int| start <= i < d ==> b@[i] != 46,
        decreases n - d,
    {
        d += 1;
    }
    proof {
        assert forall|i: int| 0 <= i < d - start implies s[i] != 46 by {
            assert(s[i] == b@[start + i]);
        }
        if d < n {
            assert(s[d - start] == b@[d as int]);
        }
        lemma_first_dot(s, d - start);
    }
    let ghost whole = s.take(d - start);
    let ghost frac: Seq<u8> = if d < n {
        s.skip(d - start + 1)
    } else {
        Seq::empty()
    };
    if d - start > MAX_INT_DIGITS {
        return None;
    }
    let mut value: i64 = 0;
    let mut i: usize = start;
    while i < d
        invariant
            start <= i <= d <= n,
            n == b@.len(),
            d - start <= MAX_INT_DIGITS,
            s == b@.skip(start as int),
            whole == s.take(d - start),
            first_dot(s) == d - start,
            frac == (if d < n {
                s.skip(d - start + 1)
            } else {
                Seq::<u8>::empty()
            }),
            all_digits(b@.subrange(start as int, i as int)),
            value == digits_value(b@.subrange(start as int, i as int)),
            0 <= value < pow10((i - start) as nat),
        decreases d - i,
    {
        let c = b[i];
        if c < 48 || c > 57 {
            proof {
                assert(whole[i - start] == c);
            }
            return None;
        }
        proof {
            let pre = b@.subrange(start as int, i as int);
            let post = b@.subrange(start as int, i + 1);
            assert(post.drop_last() =~= pre);
            assert(all_digits(post)) by {
                assert forall|j: int| 0 <= j < post.len() implies is_digit(#[trigger] post[j]) by {
                    if j < pre.len() {
                        assert(post[j] == pre[j]);
                    }
                }
            }
            lemma_digits_bound(post);
            reveal_with_fuel(pow10, 13);
            assert(pow10((i + 1 - start) as nat) <= pow10(12)) by {
                lemma_pow10_mono((i + 1 - start) as nat, 12);
            }
        }
        value = value * 10 + (c - 48) as i64;
        i += 1;
    }
    assert(b@.subrange(start as int, d as int) =~= whole);
    let mut j: usize = if d < n {
        d + 1
    } else {
        n
    };
    while j < n
        invariant
            d < j <= n || (d == n && j == n),
            n == b@.len(),
            start <= d <= n,
            d - start <= MAX_INT_DIGITS,
            s == b@.skip(start as int),
            whole == s.take(d - start),
            all_digits(whole),
            first_dot(s) == d - start,
            frac == (if d < n {
                s.skip(d - start + 1)
            } else {
                Seq::<u8>::empty()
            }),

            d < n ==> frac == b@.skip(d + 1),
            forall|m: int| d + 1 <= m < j ==> is_digit(#[trigger] b@[m]),
        decreases n - j,
    {
        let c = b[j];
        if c < 48 || c > 57 {
            proof {
                assert(frac[j - d - 1] == c);
            }
            return None;
        }
        j += 1;
    }
    assert(all_digits(frac)) by {
        assert forall|m: int| 0 <= m < frac.len() implies is_digit(#[trigger] frac[m]) by {
            assert(frac[m] == b@[d + 1 + m]);
        }
    }
    let frac_len: usize = if d < n {
        n - d - 1
    } else {
        0
    };
    assert(frac.len() == frac_len);
    if d - start == 0 && frac_len == 0 {
        return None;
    }
    let mut f: i64 = 0;
    let mut k: usize = 0;
    while k < scale
        invariant
            0 <= k <= scale <= COORD_DECIMALS,
            n == b@.len(),
            frac.len() == frac_len,
            all_digits(frac),
            d < n ==> frac == b@.skip(d + 1),
            f == fraction_value(frac, k as nat),
            0 <= f < pow10(k as nat),
            frac_len == 0 || d < n,
        decreases scale - k,
    {
        let digit: i64 = if k < frac_len {
            assert(frac[k as int] == b@[d + 1 + k]);
            assert(is_digit(frac[k as int]));
            (b[d + 1 + k] - 48) as i64
        } else {
            0
        };
        proof {
            lemma_fraction_bound(frac, (k + 1) as nat);
            reveal_with_fuel(pow10, 7);
            lemma_pow10_mono((k + 1) as nat, 6);
        }
        f = f * 10 + digit;
        k += 1;
    }
    proof {
        reveal_with_fuel(pow10, 13);
        lemma_pow10_mono(scale as nat, 6);
        lemma_digits_bound(whole);
        lemma_pow10_mono(whole.len(), 12);
        assert(0 <= value * pow10(scale as nat) <= 1_000_000_000_000 * 1_000_000) by (nonlinear_arith)
            requires
                0 <= value < 1_000_000_000_000,
                1 <= pow10(scale as nat) <= 1_000_000,
        ;
    }
    let mut scaled: i64 = value;
    let mut m: usize = 0;
    while m < scale
        invariant
            0 <= m <= scale <= COORD_DECIMALS,
            0 <= value < 1_000_000_000_000,
            scaled == value * pow10(m as nat),
            pow10(m as nat) <= 1_000_000,
        decreases scale - m,
    {
        proof {
            reveal_with_fuel(pow10, 7);
            lemma_pow10_mono((m + 1) as nat, 6);
            assert(value * pow10((m + 1) as nat) == value * pow10(m as nat) * 10) by (nonlinear_arith)
                requires
                    pow10((m + 1) as nat) == 10 * pow10(m as nat),
            ;
            assert(0 <= value * pow10(m as nat) * 10 <= 1_000_000_000_000 * 1_000_000) by (nonlinear_arith)
                requires
                    0 <= value < 1_000_000_000_000,
                    1 <= pow10(m as nat) * 10 <= 1_000_000,
            ;
        }
        scaled = scaled * 10;
        m += 1;
    }
    Some(scaled + f)
}

pub proof fn lemma_pow10_mono(a: nat, b: nat)
    requires
        a <= b,
    ensures
        1 <= pow10(a) <= pow10(b),
    decreases b,
{
    if a < b {
        lemma_pow10_mono(a, (b - 1) as nat);
    } else if a > 0 {
        lemma_pow10_mono((a - 1) as nat, (a - 1) as nat);
    }
}

/// Reads a decimal with an optional sign in units of 10^-scale; `None` when
/// the text is not such a number.
pub fn parse_fixed(text: &str, scale: usize) -> (r: Option<i64>)
    requires
        scale <= COORD_DECIMALS,
    ensures
        match r {
            Some(v) => decimal_fixed(vstd::utf8::encode_utf8(text@), scale as nat) == Some(v as int),
            None => decimal_fixed(vstd::utf8::encode_utf8(text@), scale as nat).is_none(),
        },
{
    let b = text.as_bytes();
    if b.len() > 0 && b[0] == 45 {
        match parse_unsigned(b, 1, scale) {
            Some(v) => Some(-v),
            None => None,
        }
    } else if b.len() > 0 && b[0] == 43 {
        parse_unsigned(b, 1, scale)
    } else {
        assert(b@.skip(0) =~= b@);
        parse_unsigned(b, 0, scale)
    }
}

pub open spec fn or_zero(v: Option<int>) -> int {
    match v {
        Some(x) => x,
        None => 0,
    }
}

/// The point a capture triple describes, numbers that do not parse read as
/// 0; none when latitude or longitude is missing.
pub open spec fn captured_point(
    c: (Option<Seq<char>>, Option<Seq<char>>, Option<Seq<char>>),
) -> Option<GpxPoint> {
    match (c.0, c.1) {
        (Some(lat), Some(lon)) => Some(
            GpxPoint {
                lat: or_zero(decimal_fixed(vstd::utf8::encode_utf8(lat), COORD_DECIMALS as nat)) as i64,
                lon: or_zero(decimal_fixed(vstd::utf8::encode_utf8(lon), COORD_DECIMALS as nat)) as i64,
                ele: match c.2 {
                    Some(e) => or_zero(
                        decimal_fixed(vstd::utf8::encode_utf8(e), ELEVATION_DECIMALS as nat),
                    ),
                    None => 0,
                } as i64,
                time: None,
            },
        ),
        _ => None,
    }
}

pub open spec fn captured_points(
    caps: Seq<(Option<Seq<char>>, Option<Seq<char>>, Option<Seq<char>>)>,
) -> Seq<GpxPoint>
    decreases caps.len(),
{
    if caps.len() == 0 {
        Seq::empty()
    } else {
        let before = captured_points(caps.drop_last());
        match captured_point(caps.last()) {
            Some(p) => before.push(p),
            None => before,
        }
    }
}

/// The points the matches of a pattern describe in a text.
pub open spec fn scanned(pattern: Seq<char>, text: Seq<char>) -> Seq<GpxPoint> {
    captured_points(regex_captures_of(pattern, text))
}

fn read_or_zero(text: &String, scale: usize) -> (r: i64)
    requires
        scale <= COORD_DECIMALS,
    ensures
        r == or_zero(decimal_fixed(vstd::utf8::encode_utf8(text@), scale as nat)),
{
    match parse_fixed(text.as_str(), scale) {
        Some(v) => v,
        None => 0,
    }
}

fn scan_points(pattern: &str, text: &str) -> (r: Vec<GpxPoint>)
    requires
        pattern@ == TRACK_POINT_PATTERN@ || pattern@ == WAYPOINT_PATTERN@,
    ensures
        r@ == scanned(pattern@, text@),
{
    let caps = match regex_captures(pattern, text) {
        Some(c) => c,
        None => return Vec::new(),
    };
    let ghost named = regex_captures_of(pattern@, text@);
    let mut r: Vec<GpxPoint> = Vec::new();
    let mut i: usize = 0;
    while i < caps.len()
        invariant
            caps@.len() == named.len(),
            forall|j: int|
                0 <= j < named.len() ==> opt_view((#[trigger] caps@[j]).0) == named[j].0 && opt_view(
                    caps@[j].1,
                ) == named[j].1 && opt_view(caps@[j].2) == named[j].2,
            0 <= i <= caps@.len(),
            r@ == captured_points(named.take(i as int)),
        decreases caps@.len() - i,
    {
        assert(named.take(i + 1).drop_last() =~= named.take(i as int));
        assert(named.take(i + 1).last() == named[i as int]);
        let c = &caps[i];
        match (&c.0, &c.1) {
            (Some(lat), Some(lon)) => {
                let ele = match &c.2 {
                    Some(e) => read_or_zero(e, ELEVATION_DECIMALS),
                    None => 0,
                };
                let p = GpxPoint {
                    lat: read_or_zero(lat, COORD_DECIMALS),
                    lon: read_or_zero(lon, COORD_DECIMALS),
                    ele,
                    time: None,
                };
                r.push(p);
            },
            _ => {},
        }
        i += 1;
    }
    assert(named.take(caps@.len() as int) =~= named);
    r
}

/// Points recovered from text by the lenient scan: track points and
/// waypoints, as the extraction of a text the structured reader rejected.
pub fn recover_points(text: &str) -> (r: Extraction)
    ensures
        r matches Extraction::Recovered { track_points, waypoints } && track_points@ == scanned(
            TRACK_POINT_PATTERN@,
            text@,
        ) && waypoints@ == scanned(WAYPOINT_PATTERN@, text@),
{
    let track_points = scan_points(TRACK_POINT_PATTERN, text);
    let waypoints = scan_points(WAYPOINT_PATTERN, text);
    Extraction::Recovered { track_points, waypoints }
}

/// The points of a track text: the structured reader's result when it read
/// the text, else what the lenient scan recovers.
pub fn read_extraction(structured: Option<Extraction>, text: &str) -> (r: Extraction)
    ensures
        structured matches Some(e) ==> r == e,
        structured is None ==> (r matches Extraction::Recovered { track_points, waypoints }
            && track_points@ == scanned(TRACK_POINT_PATTERN@, text@) && waypoints@ == scanned(
            WAYPOINT_PATTERN@,
            text@,
        )),
{
    match structured {
        Some(e) => e,
        None => recover_points(text),
    }
}

} // verus!

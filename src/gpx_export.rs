//! Export of a track as GPX text: coordinates with six decimals of a
//! degree, elevations in metres with one decimal.
use vstd::prelude::*;
use vstd::string::StringExecFns;
use crate::gpx_scan::pow10;
use crate::models::{GpxData, GpxPoint};
use crate::segment_index::{decimal, decimal_string, digit_char, digit_text};

verus! {

pub const GPX_HEADER: &'static str = "<?xml version=\"1.0\" encoding=\"UTF-8\"?>\n<gpx version=\"1.1\" creator=\"Volt Platform\" xmlns=\"http://www.topografix.com/GPX/1/1\">\n  <metadata>\n    <name>Processed Route</name>\n    <desc>Stripped and optimized GPX data</desc>\n    <time>";

pub const GPX_TRACK_START: &'static str = "</time>\n  </metadata>\n  <trk>\n    <name>Processed Route</name>\n    <trkseg>\n";

pub const GPX_FOOTER: &'static str = "    </trkseg>\n  </trk>\n</gpx>";

/// The last `width` decimal digits of `v`, zeros in front.
pub open spec fn padded(v: nat, width: nat) -> Seq<char>
    decreases width,
{
    if width == 0 {
        Seq::empty()
    } else {
        padded(v / 10, (width - 1) as nat).push(digit_char((v % 10) as int))
    }
}

/// A fixed-point number `magnitude` / 10^decimals with its sign.
pub open spec fn fixed_text(negative: bool, magnitude: nat, decimals: nat) -> Seq<char> {
    let p = pow10(decimals);
    (if negative { "-"@ } else { ""@ }) + decimal(magnitude / p as nat) + "."@ + padded(
        magnitude % p as nat,
        decimals,
    )
}

pub open spec fn magnitude(v: i64) -> nat {
    if v < 0 {
        (-(v as int)) as nat
    } else {
        v as nat
    }
}

/// An elevation in millimetres as metres with one decimal, rounded half
/// away from zero.
pub open spec fn elevation_text(e: i64) -> Seq<char> {
    fixed_text(e < 0, (magnitude(e) + 50) / 100, 1)
}

pub open spec fn point_text(p: GpxPoint) -> Seq<char> {
    "      <trkpt lat=\""@ + fixed_text(p.lat < 0, magnitude(p.lat), 6) + "\" lon=\""@ + fixed_text(
        p.lon < 0,
        magnitude(p.lon),
        6,
    ) + "\">\n        <ele>"@ + elevation_text(p.ele) + "</ele>\n      </trkpt>\n"@
}

pub open spec fn points_text(s: Seq<GpxPoint>) -> Seq<char>
    decreases s.len(),
{
    if s.len() == 0 {
        Seq::empty()
    } else {
        points_text(s.drop_last()) + point_text(s.last())
    }
}

pub open spec fn gpx_text(points: Seq<GpxPoint>, time: Seq<char>) -> Seq<char> {
    GPX_HEADER@ + time + GPX_TRACK_START@ + points_text(points) + GPX_FOOTER@
}

fn padded_string(v: u64, width: u32) -> (r: String)
    ensures
        r@ == padded(v as nat, width as nat),
    decreases width,
{
    if width == 0 {
        let r = String::new();
        assert(r@ =~= padded(v as nat, 0));
        r
    } else {
        let mut r = padded_string(v / 10, width - 1);
        r.append(digit_text((v % 10) as usize));
        r
    }
}

fn pow10_u64(d: u32) -> (r: u64)
    requires
        d <= 6,
    ensures
        r == pow10(d as nat),
    decreases d,
{
    if d == 0 {
        1
    } else {
        let q = pow10_u64(d - 1);
        proof {
            crate::gpx_scan::lemma_pow10_mono((d - 1) as nat, 5);
            reveal_with_fuel(pow10, 7);
        }
        10 * q
    }
}

fn fixed_string(negative: bool, mag: u64, decimals: u32) -> (r: String)
    requires
        decimals <= 6,
    ensures
        r@ == fixed_text(negative, mag as nat, decimals as nat),
{
    let p = pow10_u64(decimals);
    proof {
        crate::gpx_scan::lemma_pow10_mono(0, decimals as nat);
    }
    let mut r = String::new();
    if negative {
        r.append("-");
    } else {
        r.append("");
    }
    let whole = decimal_string(mag / p);
    r.append(whole.as_str());
    r.append(".");
    let frac = padded_string(mag % p, decimals);
    r.append(frac.as_str());
    r
}

fn magnitude_of(v: i64) -> (r: u64)
    ensures
        r == magnitude(v),
{
    if v < 0 {
        (-(v as i128)) as u64
    } else {
        v as u64
    }
}

fn point_string(p: &GpxPoint) -> (r: String)
    ensures
        r@ == point_text(*p),
{
    let mut r = String::new();
    r.append("      <trkpt lat=\"");
    let lat = fixed_string(p.lat < 0, magnitude_of(p.lat), 6);
    r.append(lat.as_str());
    r.append("\" lon=\"");
    let lon = fixed_string(p.lon < 0, magnitude_of(p.lon), 6);
    r.append(lon.as_str());
    r.append("\">\n        <ele>");
    let m = magnitude_of(p.ele);
    assert(magnitude(p.ele) <= 0x8000_0000_0000_0000);
    let ele = fixed_string(p.ele < 0, (m + 50) / 100, 1);
    r.append(ele.as_str());
    r.append("</ele>\n      </trkpt>\n");
    assert(r@ =~= point_text(*p));
    r
}

/// The track as GPX text, stamped with `time`.
pub fn gpx_to_string(gpx_data: &GpxData, time: &str) -> (r: String)
    ensures
        r@ == gpx_text(gpx_data.points@, time@),
{
    let points = &gpx_data.points;
    let mut body = String::new();
    let mut i: usize = 0;
    while i < points.len()
        invariant
            0 <= i <= points@.len(),
            body@ == points_text(points@.take(i as int)),
        decreases points@.len() - i,
    {
        assert(points@.take(i + 1).drop_last() =~= points@.take(i as int));
        let pt = point_string(&points[i]);
        body.append(pt.as_str());
        i += 1;
    }
    assert(points@.take(points@.len() as int) =~= points@);
    let mut r = String::new();
    r.append(GPX_HEADER);
    r.append(time);
    r.append(GPX_TRACK_START);
    r.append(body.as_str());
    r.append(GPX_FOOTER);
    assert(r@ =~= gpx_text(points@, time@));
    r
}

} // verus!

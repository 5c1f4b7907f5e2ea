//! Repairs of vendor dialects in track text before it is read: leading byte
//! order marks, namespace prefixes on tag names, and extension blocks.
use vstd::prelude::*;

verus! {

/// `s` with every occurrence of the non-empty `from`, found left to right
/// without overlap, replaced by `to`.
pub open spec fn text_replaced(s: Seq<char>, from: Seq<char>, to: Seq<char>) -> Seq<char>
    decreases s.len(),
{
    if from.len() == 0 || s.len() < from.len() {
        s
    } else if s.take(from.len() as int) == from {
        to + text_replaced(s.skip(from.len() as int), from, to)
    } else {
        seq![s[0]] + text_replaced(s.skip(1), from, to)
    }
}

/// `s` without its leading occurrences of `c`.
pub open spec fn text_trimmed_start(s: Seq<char>, c: char) -> Seq<char>
    decreases s.len(),
{
    if s.len() > 0 && s[0] == c {
        text_trimmed_start(s.skip(1), c)
    } else {
        s
    }
}

/// What `Regex::replace_all` returns for a valid pattern, `s` and a literal
/// replacement.
pub uninterp spec fn regex_replaced(pattern: Seq<char>, s: Seq<char>, with: Seq<char>) -> Seq<char>;

/// Relies on `str::replace`: every non-overlapping occurrence of the
/// non-empty `from`, found left to right,
/// replaced by `to`.
#[verifier::external_body]
fn replace_text(s: &str, from: &str, to: &str) -> (r: String)
    requires
        from@.len() > 0,
    ensures
        r@ == text_replaced(s@, from@, to@),
{
    s.replace(from, to)
}

/// Relies on `str::trim_start_matches`: leading occurrences of `c` removed.
#[verifier::external_body]
fn trim_start_char(s: &str, c: char) -> (r: String)
    ensures
        r@ == text_trimmed_start(s@, c),
{
    s.trim_start_matches(c).to_string()
}

/// Pattern of an extension block on one line.
pub const EXTENSION_PATTERN: &'static str = "<extensions>.*?</extensions>";

/// Relies on regex's `Regex::new` and `Regex::replace_all`: `None` when the
/// pattern does not compile (the extension pattern does), else every
/// leftmost-first match replaced by `with`.
#[verifier::external_body]
fn regex_replace_all(pattern: &str, s: &str, with: &str) -> (r: Option<String>)
    ensures
        pattern@ == EXTENSION_PATTERN@ ==> r is Some,
        r matches Some(t) ==> t@ == regex_replaced(pattern@, s@, with@),
{
    match regex::Regex::new(pattern) {
        Ok(re) => Some(re.replace_all(s, regex::NoExpand(with)).to_string()),
        Err(_) => None,
    }
}

/// Namespace prefixes of vendor extensions, as they follow `<` in tag names.
pub open spec fn vendor_prefixes() -> Seq<Seq<char>> {
    seq![
        "gpxx:"@,
        "gpxtrx:"@,
        "gpxtpx:"@,
        "wptx1:"@,
        "trp:"@,
        "adv:"@,
        "prs:"@,
        "tmd:"@,
        "vptm:"@,
        "ctx:"@,
        "gpxacc:"@,
        "gpxpx:"@,
        "vidx1:"@,
        "ns2:"@,
        "ns3:"@,
        "gpxdata:"@,
    ]
}

/// Opening and closing tag openers of the first `k` prefixes, each turned
/// into a plain `<` or `</`, in order.
pub open spec fn prefixes_stripped(s: Seq<char>, k: int) -> Seq<char>
    decreases k,
{
    if k <= 0 {
        s
    } else {
        let t = prefixes_stripped(s, k - 1);
        let p = vendor_prefixes()[k - 1];
        text_replaced(text_replaced(t, "<"@ + p, "<"@), "</"@ + p, "</"@)
    }
}


/// The cleaned text: byte order marks trimmed, vendor prefixes stripped,
/// extension blocks removed.
pub open spec fn cleaned_text(s: Seq<char>) -> Seq<char> {
    let t = prefixes_stripped(text_trimmed_start(s, '\u{feff}'), 16);
    regex_replaced(EXTENSION_PATTERN@, t, Seq::empty())
}

fn opening_tags() -> (r: Vec<&'static str>)
    ensures
        r@.len() == 16,
        forall|k: int| 0 <= k < 16 ==> (#[trigger] r@[k])@ == "<"@ + vendor_prefixes()[k],
{
    let r = vec![
        "<gpxx:", "<gpxtrx:", "<gpxtpx:", "<wptx1:", "<trp:", "<adv:", "<prs:", "<tmd:",
        "<vptm:", "<ctx:", "<gpxacc:", "<gpxpx:", "<vidx1:", "<ns2:", "<ns3:", "<gpxdata:",
    ];
    proof {
        reveal_strlit("<");
        reveal_strlit("gpxx:"); reveal_strlit("<gpxx:");
        reveal_strlit("gpxtrx:"); reveal_strlit("<gpxtrx:");
        reveal_strlit("gpxtpx:"); reveal_strlit("<gpxtpx:");
        reveal_strlit("wptx1:"); reveal_strlit("<wptx1:");
        reveal_strlit("trp:"); reveal_strlit("<trp:");
        reveal_strlit("adv:"); reveal_strlit("<adv:");
        reveal_strlit("prs:"); reveal_strlit("<prs:");
        reveal_strlit("tmd:"); reveal_strlit("<tmd:");
        reveal_strlit("vptm:"); reveal_strlit("<vptm:");
        reveal_strlit("ctx:"); reveal_strlit("<ctx:");
        reveal_strlit("gpxacc:"); reveal_strlit("<gpxacc:");
        reveal_strlit("gpxpx:"); reveal_strlit("<gpxpx:");
        reveal_strlit("vidx1:"); reveal_strlit("<vidx1:");
        reveal_strlit("ns2:"); reveal_strlit("<ns2:");
        reveal_strlit("ns3:"); reveal_strlit("<ns3:");
        reveal_strlit("gpxdata:"); reveal_strlit("<gpxdata:");
        assert forall|k: int| 0 <= k < 16 implies (#[trigger] r@[k])@ =~= "<"@ + vendor_prefixes()[k] by {}
    }
    r
}

fn closing_tags() -> (r: Vec<&'static str>)
    ensures
        r@.len() == 16,
        forall|k: int| 0 <= k < 16 ==> (#[trigger] r@[k])@ == "</"@ + vendor_prefixes()[k],
{
    let r = vec![
        "</gpxx:", "</gpxtrx:", "</gpxtpx:", "</wptx1:", "</trp:", "</adv:", "</prs:", "</tmd:",
        "</vptm:", "</ctx:", "</gpxacc:", "</gpxpx:", "</vidx1:", "</ns2:", "</ns3:", "</gpxdata:",
    ];
    proof {
        reveal_strlit("</");
        reveal_strlit("gpxx:"); reveal_strlit("</gpxx:");
        reveal_strlit("gpxtrx:"); reveal_strlit("</gpxtrx:");
        reveal_strlit("gpxtpx:"); reveal_strlit("</gpxtpx:");
        reveal_strlit("wptx1:"); reveal_strlit("</wptx1:");
        reveal_strlit("trp:"); reveal_strlit("</trp:");
        reveal_strlit("adv:"); reveal_strlit("</adv:");
        reveal_strlit("prs:"); reveal_strlit("</prs:");
        reveal_strlit("tmd:"); reveal_strlit("</tmd:");
        reveal_strlit("vptm:"); reveal_strlit("</vptm:");
        reveal_strlit("ctx:"); reveal_strlit("</ctx:");
        reveal_strlit("gpxacc:"); reveal_strlit("</gpxacc:");
        reveal_strlit("gpxpx:"); reveal_strlit("</gpxpx:");
        reveal_strlit("vidx1:"); reveal_strlit("</vidx1:");
        reveal_strlit("ns2:"); reveal_strlit("</ns2:");
        reveal_strlit("ns3:"); reveal_strlit("</ns3:");
        reveal_strlit("gpxdata:"); reveal_strlit("</gpxdata:");
        assert forall|k: int| 0 <= k < 16 implies (#[trigger] r@[k])@ =~= "</"@ + vendor_prefixes()[k] by {}
    }
    r
}

/// Trims leading byte order marks, strips vendor namespace prefixes from tag
/// names and removes `<extensions>` blocks (within a line).
pub fn clean_gpx_content(content: &str) -> (r: String)
    ensures
        r@ == cleaned_text(content@),
{
    let opening = opening_tags();
    let closing = closing_tags();
    let mut cleaned = trim_start_char(content, '\u{feff}');
    let ghost start = cleaned@;
    let mut k: usize = 0;
    while k < 16
        invariant
            0 <= k <= 16,
            opening@.len() == 16,
            closing@.len() == 16,
            forall|j: int| 0 <= j < 16 ==> (#[trigger] opening@[j])@ == "<"@ + vendor_prefixes()[j],
            forall|j: int| 0 <= j < 16 ==> (#[trigger] closing@[j])@ == "</"@ + vendor_prefixes()[j],
            start == text_trimmed_start(content@, '\u{feff}'),
            cleaned@ == prefixes_stripped(start, k as int),
        decreases 16 - k,
    {
        proof {
            reveal_strlit("<");
            reveal_strlit("</");
        }
        assert(opening[k as int]@.len() > 0);
        assert(closing[k as int]@.len() > 0);
        let once = replace_text(cleaned.as_str(), opening[k], "<");
        cleaned = replace_text(once.as_str(), closing[k], "</");
        proof {
            reveal_strlit("<");
            reveal_strlit("</");
        }
        k += 1;
    }
    proof {
        reveal_strlit("");
    }
    match regex_replace_all(EXTENSION_PATTERN, cleaned.as_str(), "") {
        Some(t) => {
            proof {
                assert(""@ =~= Seq::<char>::empty());
            }
            t
        },
        None => cleaned,
    }
}

} // verus!

//! Data shared between the server and the page that edits the groups, and
//! the URL-safe base64 text that carries it.

use base64::engine::general_purpose::GeneralPurpose;
use base64::engine::GeneralPurposeConfig;
use base64::Engine;
use std::collections::HashMap;
use vstd::prelude::*;
use vstd::string::StringExecFns;

use crate::text::{
    decimal, decimal_string, parse_decimal, parse_u8, parsed_decimal, parsed_u8, same_text,
};
use vstd::string::StrSliceExecFns;

verus! {

/// The competitors of one round, as the group editor receives them.
pub struct Competitors {
    pub competition: String,
    pub competitors: Vec<u64>,
    pub names: HashMap<u64, String>,
    pub delegates: Vec<u64>,
    pub stages: u64,
    pub stations: u64,
    pub event: String,
    pub round: u64,
    pub seperate_stages: bool,
}

/// One round of a competition, as listed on the competition's page.
pub struct RoundInfo {
    pub event: String,
    pub round_num: u8,
    pub groups_exist: bool,
    pub entered: u64,
    pub competitors: u64,
}

/// A submitted group assignment, handed on to the rendering step.
pub struct PdfRequest {
    pub competition: String,
    pub stages: u64,
    pub stations: u64,
    pub groups: Vec<Vec<u64>>,
    pub wcif: bool,
    pub event: String,
    pub round: u64,
    pub seperate_stages: bool,
}

/// The readable name of an event identifier, for the events this service
/// knows.
pub open spec fn event_display_name(event: Seq<char>) -> Option<Seq<char>> {
    if event == "333"@ {
        Some("3x3"@)
    } else if event == "222"@ {
        Some("2x2"@)
    } else if event == "444"@ {
        Some("4x4"@)
    } else if event == "555"@ {
        Some("5x5"@)
    } else if event == "666"@ {
        Some("6x6"@)
    } else if event == "777"@ {
        Some("7x7"@)
    } else if event == "333oh"@ {
        Some("3x3 One-Handed"@)
    } else if event == "333bf"@ {
        Some("3x3 Blindfolded"@)
    } else if event == "clock"@ {
        Some("Clock"@)
    } else if event == "pyram"@ {
        Some("Pyraminx"@)
    } else if event == "minx"@ {
        Some("Megaminx"@)
    } else if event == "skewb"@ {
        Some("Skewb"@)
    } else if event == "sq1"@ {
        Some("Square-1"@)
    } else if event == "444bf"@ {
        Some("4x4 Blindfolded"@)
    } else if event == "555bf"@ {
        Some("5x5 Blindfolded"@)
    } else if event == "333mbf"@ {
        Some("3x3 Multi-Blind"@)
    } else {
        None
    }
}

/// The title of a round: the event's readable name and the round number.
pub open spec fn round_title(event: Seq<char>, round_num: u8) -> Option<Seq<char>> {
    match event_display_name(event) {
        Some(name) => Some(name + ", Round "@ + decimal(round_num as nat)),
        None => None,
    }
}

impl RoundInfo {
    /// The readable name of this round's event, or `None` for an event
    /// this service does not know.
    pub fn human_readable_event_name(&self) -> (r: Option<&'static str>)
        ensures
            match r {
                Some(name) => event_display_name(self.event@) == Some(name@),
                None => event_display_name(self.event@) is None,
            },
    {
        let event = self.event.as_str();
        if same_text(event, "333") {
            Some("3x3")
        } else if same_text(event, "222") {
            Some("2x2")
        } else if same_text(event, "444") {
            Some("4x4")
        } else if same_text(event, "555") {
            Some("5x5")
        } else if same_text(event, "666") {
            Some("6x6")
        } else if same_text(event, "777") {
            Some("7x7")
        } else if same_text(event, "333oh") {
            Some("3x3 One-Handed")
        } else if same_text(event, "333bf") {
            Some("3x3 Blindfolded")
        } else if same_text(event, "clock") {
            Some("Clock")
        } else if same_text(event, "pyram") {
            Some("Pyraminx")
        } else if same_text(event, "minx") {
            Some("Megaminx")
        } else if same_text(event, "skewb") {
            Some("Skewb")
        } else if same_text(event, "sq1") {
            Some("Square-1")
        } else if same_text(event, "444bf") {
            Some("4x4 Blindfolded")
        } else if same_text(event, "555bf") {
            Some("5x5 Blindfolded")
        } else if same_text(event, "333mbf") {
            Some("3x3 Multi-Blind")
        } else {
            None
        }
    }

    /// The round's title, such as "3x3, Round 1", or `None` for an event
    /// this service does not know.
    pub fn print_name(&self) -> (r: Option<String>)
        ensures
            match r {
                Some(title) => round_title(self.event@, self.round_num) == Some(title@),
                None => round_title(self.event@, self.round_num) is None,
            },
    {
        match self.human_readable_event_name() {
            Some(name) => {
                let title = String::from_str(name).concat(", Round ");
                let number = decimal_string(self.round_num as u64);
                Some(title.concat(number.as_str()))
            },
            None => None,
        }
    }
}

/// The characters of `s` before its first `-` (all of them if it has none).
pub open spec fn until_dash(s: Seq<char>) -> Seq<char>
    decreases s.len(),
{
    if s.len() == 0 || s[0] == '-' {
        seq![]
    } else {
        seq![s[0]] + until_dash(s.drop_first())
    }
}

/// A round identifier such as `333-r1`: the event, a `-`, one character,
/// then the round number (anything after a further `-` is ignored).
pub open spec fn round_id_parts(id: Seq<char>) -> Option<(Seq<char>, u8)> {
    let event = until_dash(id);
    if event.len() < id.len() {
        let piece = until_dash(id.subrange(event.len() as int + 1, id.len() as int));
        if piece.len() >= 1 {
            match parsed_u8(piece.subrange(1, piece.len() as int)) {
                Some(n) => Some((event, n)),
                None => None,
            }
        } else {
            None
        }
    } else {
        None
    }
}

proof fn lemma_until_dash(s: Seq<char>, d: int)
    requires
        0 <= d <= s.len(),
        forall|j: int| 0 <= j < d ==> s[j] != '-',
        d == s.len() || s[d] == '-',
    ensures
        until_dash(s) == s.subrange(0, d),
    decreases d,
{
    if d > 0 {
        lemma_until_dash(s.drop_first(), d - 1);
        assert(seq![s[0]] + s.drop_first().subrange(0, d - 1) == s.subrange(0, d));
    }
}

fn dash_from(s: &str, from: usize) -> (r: usize)
    requires
        from <= s@.len(),
    ensures
        from <= r <= s@.len(),
        forall|j: int| from <= j < r ==> s@[j] != '-',
        r == s@.len() || s@[r as int] == '-',
{
    let len = s.unicode_len();
    let mut i = from;
    while i < len
        invariant
            len == s@.len(),
            from <= i <= len,
            forall|j: int| from <= j < i ==> s@[j] != '-',
        decreases len - i,
    {
        if s.get_char(i) == '-' {
            return i;
        }
        i = i + 1;
    }
    i
}

/// Splits a round identifier into its event and round number, as
/// [`round_id_parts`] describes.
pub fn parse_round_id(id: &str) -> (r: Option<(String, u8)>)
    ensures
        match r {
            Some((event, n)) => round_id_parts(id@) == Some((event@, n)),
            None => round_id_parts(id@) is None,
        },
{
    let len = id.unicode_len();
    let dash = dash_from(id, 0);
    proof {
        lemma_until_dash(id@, dash as int);
    }
    if dash >= len {
        return None;
    }
    let end = dash_from(id, dash + 1);
    proof {
        let rest = id@.subrange(dash + 1, len as int);
        lemma_until_dash(rest, end - dash - 1);
        assert(rest.subrange(0, end - dash - 1) == id@.subrange(dash + 1, end as int));
    }
    if end - dash < 2 {
        return None;
    }
    let ghost piece = id@.subrange(dash + 1, end as int);
    assert(piece.subrange(1, piece.len() as int) == id@.subrange(dash + 2, end as int));
    match parse_u8(id.substring_char(dash + 2, end)) {
        Some(n) => Some((id.substring_char(0, dash).to_string(), n)),
        None => None,
    }
}

/// A start date written `year-month-day`: the year up to the largest `i32`,
/// month and day up to the largest `u32`, unchecked as a calendar date
/// (anything after a further `-` is ignored).
pub open spec fn date_parts(text: Seq<char>) -> Option<(i32, u32, u32)> {
    let year = until_dash(text);
    let after_year = text.subrange(year.len() as int + 1, text.len() as int);
    let month = until_dash(after_year);
    let after_month = after_year.subrange(month.len() as int + 1, after_year.len() as int);
    let day = until_dash(after_month);
    if year.len() < text.len() && month.len() < after_year.len() {
        match (
            parsed_decimal(year, 0x7fff_ffff),
            parsed_decimal(month, 0xffff_ffff),
            parsed_decimal(day, 0xffff_ffff),
        ) {
            (Some(y), Some(m), Some(d)) => Some((y as i32, m as u32, d as u32)),
            _ => None,
        }
    } else {
        None
    }
}

/// Splits a start date into year, month and day, as [`date_parts`]
/// describes.
pub fn parse_date(text: &str) -> (r: Option<(i32, u32, u32)>)
    ensures
        r == date_parts(text@),
{
    let len = text.unicode_len();
    let first = dash_from(text, 0);
    if first >= len {
        proof {
            lemma_until_dash(text@, first as int);
        }
        return None;
    }
    let second = dash_from(text, first + 1);
    if second >= len {
        proof {
            lemma_until_dash(text@, first as int);
            let after_year = text@.subrange(first + 1, len as int);
            lemma_until_dash(after_year, second - first - 1);
        }
        return None;
    }
    let third = dash_from(text, second + 1);
    let ghost s = text@;
    proof {
        lemma_until_dash(s, first as int);
        let after_year = s.subrange(first + 1, len as int);
        lemma_until_dash(after_year, second - first - 1);
        assert(after_year.subrange(0, second - first - 1) == s.subrange(first + 1, second as int));
        let after_month = after_year.subrange(second - first, after_year.len() as int);
        assert(after_month == s.subrange(second + 1, len as int));
        lemma_until_dash(after_month, third - second - 1);
        assert(after_month.subrange(0, third - second - 1) == s.subrange(second + 1, third as int));
    }
    let year = parse_decimal(text.substring_char(0, first), 0x7fff_ffff);
    let month = parse_decimal(text.substring_char(first + 1, second), 0xffff_ffff);
    let day = parse_decimal(text.substring_char(second + 1, third), 0xffff_ffff);
    match (year, month, day) {
        (Some(y), Some(m), Some(d)) => Some((y as i32, m as u32, d as u32)),
        _ => None,
    }
}

/// Days after its start during which a competition stays listed.
pub const LISTED_DAYS: i64 = 7;

/// Whether a competition that started on day `start_day` is still listed on
/// day `today` (days counted from any one origin): it is until
/// [`LISTED_DAYS`] days after its start.
pub fn still_listed(start_day: i64, today: i64) -> (r: bool)
    ensures
        r == (start_day + LISTED_DAYS > today),
{
    start_day as i128 + LISTED_DAYS as i128 > today as i128
}

/// The URL-safe base64 text (with padding) of some bytes.
pub uninterp spec fn url_safe_base64(bytes: Seq<u8>) -> Seq<char>;

/// The bytes that a URL-safe base64 text (with canonical padding) stands
/// for, or `None` where it is not such a text.
pub uninterp spec fn url_safe_base64_decoded(text: Seq<char>) -> Option<Seq<u8>>;

/// Relies on base64's `Engine::encode` with the URL-safe alphabet and the
/// default configuration: the text depends on the bytes alone.
#[verifier::external_body]
fn encode_url_safe(bytes: &[u8]) -> (r: String)
    ensures
        r@ == url_safe_base64(bytes@),
{
    GeneralPurpose::new(&base64::alphabet::URL_SAFE, GeneralPurposeConfig::new()).encode(bytes)
}

/// Relies on base64's `Engine::decode` with the URL-safe alphabet and the
/// default configuration: the result depends on the text alone.
#[verifier::external_body]
fn decode_url_safe(text: &str) -> (r: Option<Vec<u8>>)
    ensures
        match r {
            Some(bytes) => url_safe_base64_decoded(text@) == Some(bytes@),
            None => url_safe_base64_decoded(text@) is None,
        },
{
    GeneralPurpose::new(&base64::alphabet::URL_SAFE, GeneralPurposeConfig::new()).decode(
        text,
    ).ok()
}

/// Encodes serialized data as URL-safe base64 text.
pub fn to_base_64(data: &Vec<u8>) -> (r: String)
    ensures
        r@ == url_safe_base64(data@),
{
    encode_url_safe(data.as_slice())
}

/// Decodes URL-safe base64 text back into the serialized data, or `None`
/// where the text is not valid base64.
pub fn from_base_64(text: &str) -> (r: Option<Vec<u8>>)
    ensures
        match r {
            Some(bytes) => url_safe_base64_decoded(text@) == Some(bytes@),
            None => url_safe_base64_decoded(text@) is None,
        },
{
    decode_url_safe(text)
}

} // verus!

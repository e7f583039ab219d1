//! Pages built from templates: placeholders in the template text are
//! replaced by the lists and data of one request.

use vstd::prelude::*;
use vstd::string::{StrSliceExecFns, StringExecFns};

use crate::common::{round_title, to_base_64, url_safe_base64, RoundInfo};
use crate::text::{decimal, decimal_string};

verus! {

/// `text` with every occurrence of `pattern` replaced by `with`, scanning
/// from the start, occurrences not overlapping.
pub open spec fn replace_all(text: Seq<char>, pattern: Seq<char>, with: Seq<char>) -> Seq<char>
    decreases text.len(),
{
    if pattern.len() == 0 || text.len() < pattern.len() {
        text
    } else if text.subrange(0, pattern.len() as int) == pattern {
        with + replace_all(text.subrange(pattern.len() as int, text.len() as int), pattern, with)
    } else {
        seq![text[0]] + replace_all(text.subrange(1, text.len() as int), pattern, with)
    }
}

fn chars_of(text: &str) -> (r: Vec<char>)
    ensures
        r@ == text@,
{
    let len = text.unicode_len();
    let mut out: Vec<char> = Vec::new();
    let mut i: usize = 0;
    while i < len
        invariant
            len == text@.len(),
            i <= len,
            out@ == text@.subrange(0, i as int),
        decreases len - i,
    {
        out.push(text.get_char(i));
        i = i + 1;
        assert(out@ =~= text@.subrange(0, i as int));
    }
    assert(out@ =~= text@);
    out
}

fn matches_at(text: &Vec<char>, pattern: &Vec<char>, at: usize) -> (r: bool)
    requires
        at + pattern@.len() <= text@.len(),
    ensures
        r == (text@.subrange(at as int, at + pattern@.len()) == pattern@),
{
    let total = text.len();
    let mut k: usize = 0;
    while k < pattern.len()
        invariant
            total == text@.len(),
            at + pattern@.len() <= text@.len(),
            k <= pattern@.len(),
            forall|j: int| 0 <= j < k ==> text@[at + j] == pattern@[j],
        decreases pattern@.len() - k,
    {
        if text[at + k] != pattern[k] {
            assert(text@.subrange(at as int, at + pattern@.len())[k as int] != pattern@[k as int]);
            return false;
        }
        k = k + 1;
    }
    assert(text@.subrange(at as int, at + pattern@.len()) =~= pattern@);
    true
}

proof fn lemma_replace_step(text: Seq<char>, pattern: Seq<char>, with: Seq<char>, i: int)
    requires
        pattern.len() > 0,
        0 <= i,
        i + pattern.len() <= text.len(),
    ensures
        text.subrange(i, i + pattern.len()) == pattern ==> replace_all(
            text.subrange(i, text.len() as int),
            pattern,
            with,
        ) == with + replace_all(text.subrange(i + pattern.len(), text.len() as int), pattern, with),
        text.subrange(i, i + pattern.len()) != pattern ==> replace_all(
            text.subrange(i, text.len() as int),
            pattern,
            with,
        ) == seq![text[i]] + replace_all(text.subrange(i + 1, text.len() as int), pattern, with),
{
    let rest = text.subrange(i, text.len() as int);
    assert(rest.subrange(0, pattern.len() as int) == text.subrange(i, i + pattern.len()));
    assert(rest.subrange(pattern.len() as int, rest.len() as int) == text.subrange(
        i + pattern.len(),
        text.len() as int,
    ));
    assert(rest.subrange(1, rest.len() as int) == text.subrange(i + 1, text.len() as int));
}

/// Replaces every occurrence of `pattern` in `text` by `with`.
pub fn replace(text: &str, pattern: &str, with: &str) -> (r: String)
    requires
        pattern@.len() > 0,
    ensures
        r@ == replace_all(text@, pattern@, with@),
{
    let chars = chars_of(text);
    let pat = chars_of(pattern);
    let n = chars.len();
    let m = pat.len();
    let mut out = String::new();
    let mut start: usize = 0;
    let mut i: usize = 0;
    assert(text@.subrange(0, n as int) =~= text@);
    assert(out@ + text@.subrange(0, 0) =~= Seq::<char>::empty());
    while m <= n - i
        invariant
            chars@ == text@,
            pat@ == pattern@,
            n == text@.len(),
            m == pattern@.len(),
            m > 0,
            start <= i <= n,
            out@ + text@.subrange(start as int, i as int) + replace_all(
                text@.subrange(i as int, n as int),
                pattern@,
                with@,
            ) == replace_all(text@, pattern@, with@),
        decreases n - i,
    {
        proof {
            lemma_replace_step(text@, pattern@, with@, i as int);
        }
        if matches_at(&chars, &pat, i) {
            let ghost before = out@;
            let ghost segment = text@.subrange(start as int, i as int);
            let ghost rest = replace_all(text@.subrange(i + m, n as int), pattern@, with@);
            out = out.concat(text.substring_char(start, i)).concat(with);
            assert(out@ == before + segment + with@);
            i = i + m;
            start = i;
            assert(out@ + text@.subrange(start as int, i as int) + rest =~= before + segment + (
            with@ + rest));
        } else {
            assert(text@.subrange(start as int, i + 1) =~= text@.subrange(start as int, i as int)
                + seq![text@[i as int]]);
            i = i + 1;
        }
    }
    assert(replace_all(text@.subrange(i as int, n as int), pattern@, with@) == text@.subrange(
        i as int,
        n as int,
    ));
    assert(text@.subrange(start as int, i as int) + text@.subrange(i as int, n as int)
        =~= text@.subrange(start as int, n as int));
    out.concat(text.substring_char(start, n))
}

/// Lines joined with `separator` between them.
pub open spec fn join(lines: Seq<Seq<char>>, separator: Seq<char>) -> Seq<char>
    decreases lines.len(),
{
    if lines.len() == 0 {
        seq![]
    } else if lines.len() == 1 {
        lines[0]
    } else {
        join(lines.drop_last(), separator) + separator + lines.last()
    }
}

/// The link to one round on a competition's page, or `None` for a round of
/// an event this service does not know.
pub open spec fn round_link(round: RoundInfo, competition_id: Seq<char>) -> Option<Seq<char>> {
    match round_title(round.event@, round.round_num) {
        Some(name) => Some(
            "<a class =  \""@ + (if round.groups_exist {
                "style_list groups_exist"@
            } else {
                "style_list"@
            }) + "\" onclick = redirect(\"/"@ + competition_id + "/"@ + round.event@ + "/"@
                + decimal(round.round_num as nat) + "\")><text>"@ + name + " ("@ + decimal(
                round.entered as nat,
            ) + "/"@ + decimal(round.competitors as nat) + ")</text></a>"@,
        ),
        None => None,
    }
}

/// The links to the rounds, in order, leaving out rounds of unknown events.
pub open spec fn round_links(rounds: Seq<RoundInfo>, competition_id: Seq<char>) -> Seq<Seq<char>>
    decreases rounds.len(),
{
    if rounds.len() == 0 {
        seq![]
    } else {
        let earlier = round_links(rounds.drop_last(), competition_id);
        match round_link(rounds.last(), competition_id) {
            Some(link) => earlier.push(link),
            None => earlier,
        }
    }
}

/// A competition that a user manages, as listed after logging in.
pub struct CompetitionSummary {
    pub id: String,
    pub name: String,
}

/// The link to one competition.
pub open spec fn competition_link(competition: CompetitionSummary) -> Seq<char> {
    "<a class =  \"style_list\" href = \"/"@ + competition.id@ + "\"><text>"@ + competition.name@
        + "</text></a>"@
}

/// The links to the competitions, in order.
pub open spec fn competition_links(competitions: Seq<CompetitionSummary>) -> Seq<Seq<char>> {
    competitions.map_values(|c: CompetitionSummary| competition_link(c))
}

/// The text put in place of `ERROR` on the group page.
pub open spec fn group_warning(groups_exist: bool) -> Seq<char> {
    if groups_exist {
        "Warning: This round already has groups patched. Make sure that you chose the correct group."@
    } else {
        ""@
    }
}

fn push_line(out: String, line: &str, first: bool) -> (r: String)
    ensures
        r@ == if first {
            out@ + line@
        } else {
            out@ + "\n"@ + line@
        },
{
    if first {
        out.concat(line)
    } else {
        out.concat("\n").concat(line)
    }
}

proof fn lemma_join_push(lines: Seq<Seq<char>>, line: Seq<char>, separator: Seq<char>)
    ensures
        join(lines.push(line), separator) == if lines.len() == 0 {
            line
        } else {
            join(lines, separator) + separator + line
        },
{
    assert(lines.push(line).drop_last() == lines);
}

fn round_link_text(round: &RoundInfo, competition_id: &str) -> (r: Option<String>)
    ensures
        match r {
            Some(link) => round_link(*round, competition_id@) == Some(link@),
            None => round_link(*round, competition_id@) is None,
        },
{
    match round.print_name() {
        Some(name) => {
            let class_style = if round.groups_exist {
                "style_list groups_exist"
            } else {
                "style_list"
            };
            let link = String::from_str("<a class =  \"").concat(class_style).concat(
                "\" onclick = redirect(\"/",
            ).concat(competition_id).concat("/").concat(round.event.as_str()).concat("/").concat(
                decimal_string(round.round_num as u64).as_str(),
            ).concat("\")><text>").concat(name.as_str()).concat(" (").concat(
                decimal_string(round.entered).as_str(),
            ).concat("/").concat(decimal_string(round.competitors).as_str()).concat(
                ")</text></a>",
            );
            Some(link)
        },
        None => None,
    }
}

/// The competition page: `ROUNDS` in the template becomes the links to the
/// rounds, one per line, and `STATIONS` the number of stations.
pub fn rounds(template: &str, round_infos: Vec<RoundInfo>, competition_id: &str, stations: u64) -> (r:
    String)
    ensures
        r@ == replace_all(
            replace_all(template@, "ROUNDS"@, join(round_links(round_infos@, competition_id@), "\n"@)),
            "STATIONS"@,
            decimal(stations as nat),
        ),
{
    let mut inner = String::new();
    let mut listed: usize = 0;
    let mut i: usize = 0;
    assert(round_infos@.take(0) == Seq::<RoundInfo>::empty());
    while i < round_infos.len()
        invariant
            i <= round_infos@.len(),
            listed <= i,
            listed == round_links(round_infos@.take(i as int), competition_id@).len(),
            inner@ == join(round_links(round_infos@.take(i as int), competition_id@), "\n"@),
        decreases round_infos@.len() - i,
    {
        let ghost links = round_links(round_infos@.take(i as int), competition_id@);
        assert(round_infos@.take(i + 1).drop_last() == round_infos@.take(i as int));
        match round_link_text(&round_infos[i], competition_id) {
            Some(link) => {
                proof {
                    lemma_join_push(links, link@, "\n"@);
                }
                inner = push_line(inner, link.as_str(), listed == 0);
                listed = listed + 1;
            },
            None => {},
        }
        i = i + 1;
    }
    assert(round_infos@.take(round_infos@.len() as int) == round_infos@);
    proof {
        reveal_strlit("ROUNDS");
        reveal_strlit("STATIONS");
    }
    let listed = replace(template, "ROUNDS", inner.as_str());
    replace(listed.as_str(), "STATIONS", decimal_string(stations).as_str())
}

/// The group editor page: `ERROR` in the template becomes a warning where
/// the round already has groups, and `DATA` the round's serialized
/// competitors as URL-safe base64.
pub fn group(template: &str, competitors: &Vec<u8>, groups_exist: bool) -> (r: String)
    ensures
        r@ == replace_all(
            replace_all(template@, "ERROR"@, group_warning(groups_exist)),
            "DATA"@,
            url_safe_base64(competitors@),
        ),
{
    proof {
        reveal_strlit("ERROR");
        reveal_strlit("DATA");
    }
    let intermediate = if groups_exist {
        replace(
            template,
            "ERROR",
            "Warning: This round already has groups patched. Make sure that you chose the correct group.",
        )
    } else {
        replace(template, "ERROR", "")
    };
    replace(intermediate.as_str(), "DATA", to_base_64(competitors).as_str())
}

/// The page that lists a user's competitions: `COMPETITIONS` in the
/// template becomes their links, one per line.
pub fn validated(template: &str, competitions: Vec<CompetitionSummary>) -> (r: String)
    ensures
        r@ == replace_all(template@, "COMPETITIONS"@, join(competition_links(competitions@), "\n"@)),
{
    let mut inner = String::new();
    let mut i: usize = 0;
    assert(competition_links(competitions@.take(0)) == Seq::<Seq<char>>::empty());
    while i < competitions.len()
        invariant
            i <= competitions@.len(),
            inner@ == join(competition_links(competitions@.take(i as int)), "\n"@),
        decreases competitions@.len() - i,
    {
        let competition = &competitions[i];
        let link = String::from_str("<a class =  \"style_list\" href = \"/").concat(
            competition.id.as_str(),
        ).concat("\"><text>").concat(competition.name.as_str()).concat("</text></a>");
        proof {
            let links = competition_links(competitions@.take(i as int));
            assert(competition_links(competitions@.take(i + 1)) == links.push(link@));
            lemma_join_push(links, link@, "\n"@);
        }
        inner = push_line(inner, link.as_str(), i == 0);
        i = i + 1;
    }
    assert(competitions@.take(competitions@.len() as int) == competitions@);
    proof {
        reveal_strlit("COMPETITIONS");
    }
    replace(template, "COMPETITIONS", inner.as_str())
}

} // verus!

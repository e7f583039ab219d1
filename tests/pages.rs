use scorecards::common::{
    from_base_64, parse_date, parse_round_id, still_listed, to_base_64, RoundInfo,
};
use scorecards::html::{group, replace, rounds, validated, CompetitionSummary};
use scorecards::text::{decimal_string, parse_u8};

fn round(event: &str, round_num: u8, groups_exist: bool) -> RoundInfo {
    RoundInfo {
        event: event.to_string(),
        round_num,
        groups_exist,
        entered: 3,
        competitors: 16,
    }
}

#[test]
fn event_names() {
    assert_eq!(round("333", 1, false).human_readable_event_name(), Some("3x3"));
    assert_eq!(round("333oh", 1, false).human_readable_event_name(), Some("3x3 One-Handed"));
    assert_eq!(round("sq1", 1, false).human_readable_event_name(), Some("Square-1"));
    assert_eq!(round("333mbf", 1, false).human_readable_event_name(), Some("3x3 Multi-Blind"));
    assert_eq!(round("333ft", 1, false).human_readable_event_name(), None);
}

#[test]
fn round_titles() {
    assert_eq!(round("333", 1, false).print_name(), Some("3x3, Round 1".to_string()));
    assert_eq!(round("minx", 12, false).print_name(), Some("Megaminx, Round 12".to_string()));
    assert_eq!(round("magic", 1, false).print_name(), None);
}

#[test]
fn base64_round_trip() {
    let data: Vec<u8> = vec![0xfb, 0xff, 0x00, 0x41];
    let text = to_base_64(&data);
    assert_eq!(text, "-_8AQQ==");
    assert_eq!(from_base_64(&text), Some(data));
    assert_eq!(from_base_64("not base64!"), None);
}

#[test]
fn round_ids() {
    assert_eq!(parse_round_id("333-r1"), Some(("333".to_string(), 1)));
    assert_eq!(parse_round_id("333oh-r12"), Some(("333oh".to_string(), 12)));
    assert_eq!(parse_round_id("333-r2-extra"), Some(("333".to_string(), 2)));
    assert_eq!(parse_round_id("333"), None);
    assert_eq!(parse_round_id("333-"), None);
    assert_eq!(parse_round_id("333-r"), None);
    assert_eq!(parse_round_id("333-r256"), None);
}

#[test]
fn decimals() {
    assert_eq!(decimal_string(0), "0");
    assert_eq!(decimal_string(1907), "1907");
    assert_eq!(decimal_string(u64::MAX), "18446744073709551615");
    assert_eq!(parse_u8("255"), Some(255));
    assert_eq!(parse_u8("+7"), Some(7));
    assert_eq!(parse_u8("007"), Some(7));
    assert_eq!(parse_u8("256"), None);
    assert_eq!(parse_u8(""), None);
    assert_eq!(parse_u8("1a"), None);
}

#[test]
fn replace_all_occurrences() {
    assert_eq!(replace("a-X-b-X", "X", "yy"), "a-yy-b-yy");
    assert_eq!(replace("aaaa", "aa", "b"), "bb");
    assert_eq!(replace("no match", "ROUNDS", "x"), "no match");
    assert_eq!(replace("ünï ROUNDS ü", "ROUNDS", "x"), "ünï x ü");
}

#[test]
fn rounds_page() {
    let page = rounds(
        "<div>ROUNDS</div><p>STATIONS</p>",
        vec![round("333", 1, true), round("magic", 1, false), round("222", 2, false)],
        "Comp2024",
        12,
    );
    assert_eq!(
        page,
        "<div><a class =  \"style_list groups_exist\" onclick = redirect(\"/Comp2024/333/1\")><text>3x3, Round 1 (3/16)</text></a>\n<a class =  \"style_list\" onclick = redirect(\"/Comp2024/222/2\")><text>2x2, Round 2 (3/16)</text></a></div><p>12</p>"
    );
}

#[test]
fn group_page() {
    let data: Vec<u8> = vec![1, 2, 3];
    assert_eq!(group("<p>ERROR</p>DATA", &data, false), "<p></p>AQID");
    assert_eq!(
        group("<p>ERROR</p>DATA", &data, true),
        "<p>Warning: This round already has groups patched. Make sure that you chose the correct group.</p>AQID"
    );
}

#[test]
fn competitions_page() {
    let page = validated(
        "<main>COMPETITIONS</main>",
        vec![
            CompetitionSummary { id: "A2024".to_string(), name: "A Open".to_string() },
            CompetitionSummary { id: "B2024".to_string(), name: "B Open".to_string() },
        ],
    );
    assert_eq!(
        page,
        "<main><a class =  \"style_list\" href = \"/A2024\"><text>A Open</text></a>\n<a class =  \"style_list\" href = \"/B2024\"><text>B Open</text></a></main>"
    );
    assert_eq!(validated("<main>COMPETITIONS</main>", vec![]), "<main></main>");
}

#[test]
fn start_dates() {
    assert_eq!(parse_date("2024-06-15"), Some((2024, 6, 15)));
    assert_eq!(parse_date("2024-6-5-extra"), Some((2024, 6, 5)));
    assert_eq!(parse_date("2024-06"), None);
    assert_eq!(parse_date("2024-xx-15"), None);
    assert_eq!(parse_date("3000000000-01-01"), None);
    assert!(still_listed(100, 106));
    assert!(!still_listed(100, 107));
    assert!(still_listed(100, 50));
}

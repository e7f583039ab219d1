use scorecards::common::Competitors;
use scorecards::error::ServiceError;
use scorecards::grouping::{distribution, make_groups, Phase, RoundConfig};
use std::collections::HashMap;

fn competitors_info(count: u64, delegates: Vec<u64>, stages: u64, stations: u64) -> Competitors {
    let mut names = HashMap::new();
    for id in 1..=count {
        names.insert(id, format!("Competitor {}", id));
    }
    Competitors {
        competition: "TestOpen2024".to_string(),
        competitors: (1..=count).collect(),
        names,
        delegates,
        stages,
        stations,
        event: "333".to_string(),
        round: 1,
        seperate_stages: false,
    }
}

#[test]
fn distribution_puts_remainder_last() {
    assert_eq!(distribution(23, 3), vec![7, 8, 8]);
    assert_eq!(distribution(3, 3), vec![1, 1, 1]);
    assert_eq!(distribution(1, 3), vec![0, 0, 1]);
    assert_eq!(distribution(0, 2), vec![0, 0]);
    assert_eq!(distribution(10, 1), vec![10]);
    assert_eq!(distribution(5, 0), Vec::<u64>::new());
}

#[test]
fn twenty_three_competitors_three_delegates() {
    let competitors: Vec<u64> = (1..=23).collect();
    let groups = make_groups(competitors, vec![5, 12, 20], 1, 10);
    assert_eq!(groups.len(), 3);
    let sizes: Vec<usize> = groups.iter().map(|g| g.len()).collect();
    assert_eq!(sizes, vec![7, 8, 8]);
    assert_eq!(groups[0], vec![17, 18, 19, 21, 22, 23, 20]);
    assert_eq!(groups[1], vec![9, 10, 11, 13, 14, 15, 16, 12]);
    assert_eq!(groups[2], vec![1, 2, 3, 4, 6, 7, 8, 5]);
    let delegate_counts: Vec<usize> = groups
        .iter()
        .map(|g| g.iter().filter(|id| [5u64, 12, 20].contains(id)).count())
        .collect();
    assert_eq!(delegate_counts, vec![1, 1, 1]);
}

#[test]
fn groups_keep_every_competitor_once() {
    let competitors: Vec<u64> = vec![40, 7, 7, 13, 2, 99, 5, 61, 8, 30, 11];
    let groups = make_groups(competitors.clone(), vec![7, 99, 1000], 2, 2);
    assert_eq!(groups.len(), 3);
    let mut all: Vec<u64> = groups.concat();
    let mut expected = competitors;
    all.sort();
    expected.sort();
    assert_eq!(all, expected);
    assert!(groups.iter().all(|g| g.len() <= 4));
}

#[test]
fn group_count_rounds_up() {
    let ten: Vec<u64> = (1..=10).collect();
    assert_eq!(make_groups(ten.clone(), vec![], 1, 10).len(), 1);
    let eleven: Vec<u64> = (1..=11).collect();
    assert_eq!(make_groups(eleven, vec![], 1, 10).len(), 2);
    assert_eq!(make_groups(ten, vec![], 3, 1).len(), 4);
}

#[test]
fn no_competitors_gives_one_empty_group() {
    assert_eq!(make_groups(vec![], vec![1, 2], 1, 10), vec![Vec::<u64>::new()]);
}

#[test]
fn all_delegates_spread_evenly() {
    let competitors: Vec<u64> = (1..=7).collect();
    let groups = make_groups(competitors.clone(), competitors, 1, 3);
    let sizes: Vec<usize> = groups.iter().map(|g| g.len()).collect();
    assert_eq!(sizes, vec![2, 2, 3]);
}

#[test]
fn move_changes_only_two_groups() {
    let mut config = RoundConfig::new(competitors_info(23, vec![5, 12, 20], 1, 10));
    assert_eq!(config.phase(), Phase::Distributed);
    let before = config.groups().clone();
    config.move_competitor(1, 0, -1);
    let after = config.groups().clone();
    assert_eq!(config.phase(), Phase::Edited);
    assert_eq!(after[0].len(), 8);
    assert_eq!(after[1].len(), 7);
    assert_eq!(*after[0].last().unwrap(), 9);
    assert_eq!(after[2], before[2]);
    assert_eq!(after.concat().len(), before.concat().len());
    config.move_competitor(0, 7, 1);
    assert_eq!(*config.groups()[1].last().unwrap(), 9);
}

#[test]
fn submit_rejects_group_over_capacity() {
    let mut config = RoundConfig::new(competitors_info(23, vec![5, 12, 20], 1, 10));
    for _ in 0..3 {
        config.move_competitor(1, 0, -1);
    }
    assert_eq!(config.groups()[0].len(), 10);
    config.move_competitor(2, 0, -1);
    config.move_competitor(1, 0, -1);
    assert_eq!(config.groups()[0].len(), 11);
    match config.submit(false) {
        Err(e) => assert_eq!(e, ServiceError::GroupOverCapacity(0)),
        Ok(_) => panic!("a group over capacity was accepted"),
    }
    assert_eq!(config.phase(), Phase::Edited);
}

#[test]
fn submit_accepts_groups_within_capacity() {
    let mut config = RoundConfig::new(competitors_info(23, vec![5, 12, 20], 1, 10));
    let groups = config.groups().clone();
    let request = match config.submit(true) {
        Ok(r) => r,
        Err(_) => panic!("groups within capacity were rejected"),
    };
    assert_eq!(request.groups, groups);
    assert!(request.wcif);
    assert_eq!(request.competition, "TestOpen2024");
    assert_eq!(request.event, "333");
    assert_eq!(request.stages, 1);
    assert_eq!(request.stations, 10);
    assert_eq!(config.phase(), Phase::Submitted);
}

#[test]
fn submit_reports_first_group_over_capacity() {
    let mut config = RoundConfig::new(competitors_info(9, vec![], 1, 3));
    config.move_competitor(1, 0, 1);
    config.move_competitor(0, 0, 1);
    config.move_competitor(1, 0, 1);
    // sizes now 2, 2, 5: only the last group is over capacity
    assert_eq!(config.groups()[2].len(), 5);
    match config.submit(false) {
        Err(e) => assert_eq!(e, ServiceError::GroupOverCapacity(2)),
        Ok(_) => panic!("a group over capacity was accepted"),
    }
}

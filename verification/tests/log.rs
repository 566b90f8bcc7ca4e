use euchre::log::TraverseNode;
use euchre::{
    Action, ActionData, ActionNode, ActionType, Card, Log, LogId, RawLog, RoundConfig, RoundError,
    Seat, Suit,
};

fn card(s: &str) -> Card {
    Card::from_str(s).unwrap()
}

fn hand(cards: [&str; 5]) -> Vec<Card> {
    cards.iter().map(|s| card(s)).collect()
}

fn config_fixture() -> RoundConfig {
    RoundConfig::from_hands(
        Seat::North,
        hand(["ad", "qs", "jh", "th", "9h"]),
        hand(["jc", "kd", "ks", "kh", "qh"]),
        hand(["ac", "kc", "qc", "qd", "td"]),
        hand(["tc", "js", "ts", "9s", "ah"]),
        card("jd"),
    )
}

fn raw_log_fixture() -> RawLog {
    let config = config_fixture();
    let actions = vec![
        ActionNode {
            id: 0,
            parent: None,
            action: Action::new(Seat::East, ActionType::BidTop, ActionData::Pass),
        },
        ActionNode {
            id: 1,
            parent: Some(0),
            action: Action::new(
                Seat::South,
                ActionType::BidTop,
                ActionData::Call { suit: Suit::Diamond, alone: false },
            ),
        },
        ActionNode {
            id: 2,
            parent: Some(1),
            action: Action::new(
                Seat::North,
                ActionType::DealerDiscard,
                ActionData::Card { card: card("qs") },
            ),
        },
        ActionNode {
            id: 3,
            parent: Some(2),
            action: Action::new(
                Seat::East,
                ActionType::Lead,
                ActionData::Card { card: card("jc") },
            ),
        },
        ActionNode {
            id: 4,
            parent: Some(3),
            action: Action::new(
                Seat::South,
                ActionType::Follow,
                ActionData::Card { card: card("ac") },
            ),
        },
        ActionNode {
            id: 5,
            parent: Some(0),
            action: Action::new(Seat::South, ActionType::BidTop, ActionData::Pass),
        },
        ActionNode {
            id: 6,
            parent: Some(5),
            action: Action::new(Seat::West, ActionType::BidTop, ActionData::Pass),
        },
        ActionNode {
            id: 7,
            parent: Some(6),
            action: Action::new(
                Seat::North,
                ActionType::BidTop,
                ActionData::Call { suit: Suit::Diamond, alone: false },
            ),
        },
        ActionNode {
            id: 8,
            parent: Some(7),
            action: Action::new(
                Seat::North,
                ActionType::DealerDiscard,
                ActionData::Card { card: card("qs") },
            ),
        },
        ActionNode {
            id: 9,
            parent: Some(8),
            action: Action::new(
                Seat::East,
                ActionType::Lead,
                ActionData::Card { card: card("jc") },
            ),
        },
        ActionNode {
            id: 10,
            parent: Some(9),
            action: Action::new(
                Seat::South,
                ActionType::Follow,
                ActionData::Card { card: card("ac") },
            ),
        },
        ActionNode {
            id: 11,
            parent: Some(6),
            action: Action::new(Seat::North, ActionType::BidTop, ActionData::Pass),
        },
        ActionNode {
            id: 12,
            parent: Some(11),
            action: Action::new(
                Seat::East,
                ActionType::BidOther,
                ActionData::Call { suit: Suit::Club, alone: false },
            ),
        },
        ActionNode {
            id: 13,
            parent: Some(12),
            action: Action::new(
                Seat::East,
                ActionType::Lead,
                ActionData::Card { card: card("jc") },
            ),
        },
        ActionNode {
            id: 14,
            parent: None,
            action: Action::new(
                Seat::East,
                ActionType::BidTop,
                ActionData::Call { suit: Suit::Diamond, alone: false },
            ),
        },
    ];
    RawLog::new(config, actions)
}

fn log_fixture() -> Log {
    raw_log_fixture().into_log()
}

fn ids(nodes: &[TraverseNode]) -> Vec<LogId> {
    nodes.iter().map(|n| n.id).collect()
}

#[test]
fn test_log_find_child() {
    let log = log_fixture();
    assert_eq!(
        Some(0),
        log.find_child(None, &Action::new(Seat::East, ActionType::BidTop, ActionData::Pass))
    );
    assert_eq!(
        Some(14),
        log.find_child(
            None,
            &Action::new(
                Seat::East,
                ActionType::BidTop,
                ActionData::Call { suit: Suit::Diamond, alone: false }
            )
        )
    );
    assert_eq!(
        None,
        log.find_child(
            None,
            &Action::new(
                Seat::East,
                ActionType::BidTop,
                ActionData::Call { suit: Suit::Diamond, alone: true }
            )
        )
    );
    assert_eq!(
        Some(2),
        log.find_child(
            Some(1),
            &Action::new(
                Seat::North,
                ActionType::DealerDiscard,
                ActionData::Card { card: card("qs") },
            ),
        )
    );
    assert_eq!(
        Some(8),
        log.find_child(
            Some(7),
            &Action::new(
                Seat::North,
                ActionType::DealerDiscard,
                ActionData::Card { card: card("qs") },
            ),
        )
    );
    assert_eq!(
        None,
        log.find_child(
            Some(6),
            &Action::new(
                Seat::North,
                ActionType::DealerDiscard,
                ActionData::Card { card: card("qs") },
            ),
        )
    );
}

#[test]
fn test_log_backtrace() {
    let log = log_fixture();

    fn bt(log: &Log, id: LogId) -> Vec<LogId> {
        log.backtrace(id).unwrap().into_iter().map(|x| x.0).collect()
    }

    assert_eq!(bt(&log, 0), vec![0]);
    assert_eq!(bt(&log, 9), vec![0, 5, 6, 7, 8, 9]);
    assert_eq!(bt(&log, 12), vec![0, 5, 6, 11, 12]);
    assert_eq!(bt(&log, 14), vec![14]);
    assert!(log.backtrace(15).is_err());
}

#[test]
fn test_log_insert() {
    let mut log = log_fixture();
    let id = log.insert(
        None,
        Action::new(
            Seat::East,
            ActionType::BidTop,
            ActionData::Call { suit: Suit::Diamond, alone: false },
        ),
    );
    assert_eq!(id, 14);
    let id = log.insert(
        None,
        Action::new(
            Seat::East,
            ActionType::BidTop,
            ActionData::Call { suit: Suit::Diamond, alone: true },
        ),
    );
    assert_eq!(id, 15);
}

#[test]
fn test_traverse() {
    let log = log_fixture();
    let nodes: Vec<_> = log.traverse().iter().map(|n| n.id).collect();
    assert_eq!(nodes, (0..=14).collect::<Vec<_>>());
    let nodes: Vec<_> =
        log.traverse().iter().map(|n| (n.id, n.sibling, n.last_sibling, n.leaf)).collect();
    assert_eq!(
        nodes,
        vec![
            (0, true, false, false),
            (1, true, false, false),
            (2, false, false, false),
            (3, false, false, false),
            (4, false, false, true),
            (5, true, true, false),
            (6, false, false, false),
            (7, true, false, false),
            (8, false, false, false),
            (9, false, false, false),
            (10, false, false, true),
            (11, true, true, false),
            (12, false, false, false),
            (13, false, false, true),
            (14, true, true, true),
        ]
    );
}

#[test]
fn backtrace_gives_the_actions_in_order() {
    let log = log_fixture();
    let trace = log.backtrace(12).unwrap();
    assert_eq!(trace.len(), 5);
    assert_eq!(trace[0], (0, Action::new(Seat::East, ActionType::BidTop, ActionData::Pass)));
    assert_eq!(
        trace[4],
        (
            12,
            Action::new(
                Seat::East,
                ActionType::BidOther,
                ActionData::Call { suit: Suit::Club, alone: false }
            )
        )
    );
}

#[test]
fn backtrace_of_an_unknown_id_names_it() {
    let log = log_fixture();
    assert_eq!(log.backtrace(15), Err(RoundError::InvalidLogId(15)));
    assert_eq!(log.backtrace(4_000_000), Err(RoundError::InvalidLogId(4_000_000)));
    let empty = Log::new(config_fixture());
    assert_eq!(empty.backtrace(0), Err(RoundError::InvalidLogId(0)));
}

#[test]
fn backtrace_names_the_parent_that_is_missing() {
    let pass = Action::new(Seat::East, ActionType::BidTop, ActionData::Pass);
    let raw = RawLog::new(
        config_fixture(),
        vec![ActionNode { id: 3, parent: Some(7), action: pass }],
    );
    let log = raw.into_log();
    assert_eq!(log.backtrace(3), Err(RoundError::InvalidLogId(7)));
}

#[test]
fn backtrace_ends_on_a_loop_of_parents() {
    let pass = Action::new(Seat::East, ActionType::BidTop, ActionData::Pass);
    let raw = RawLog::new(
        config_fixture(),
        vec![
            ActionNode { id: 1, parent: Some(2), action: pass },
            ActionNode { id: 2, parent: Some(1), action: pass },
        ],
    );
    let log = raw.into_log();
    assert!(log.backtrace(1).is_err());
    assert!(log.backtrace(2).is_err());
    assert!(log.traverse().is_empty());
}

#[test]
fn insert_into_an_empty_log_counts_from_zero() {
    let mut log = Log::new(config_fixture());
    let pass = Action::new(Seat::East, ActionType::BidTop, ActionData::Pass);
    let next = Action::new(Seat::South, ActionType::BidTop, ActionData::Pass);
    assert_eq!(log.insert(None, pass), 0);
    assert_eq!(log.insert(Some(0), next), 1);
    assert_eq!(log.insert(Some(0), pass), 2);
    assert_eq!(log.len(), 3);
    assert_eq!(log.get(1), Some(ActionNode { id: 1, parent: Some(0), action: next }));
    assert_eq!(log.get(3), None);
}

#[test]
fn insert_twice_gives_one_node() {
    let mut log = log_fixture();
    let action = Action::new(
        Seat::East,
        ActionType::Lead,
        ActionData::Card { card: card("kd") },
    );
    let before = log.len();
    let first = log.insert(Some(12), action);
    let second = log.insert(Some(12), action);
    assert_eq!(first, 15);
    assert_eq!(second, 15);
    assert_eq!(log.len(), before + 1);
    let walk = ids(&log.traverse());
    assert_eq!(walk.iter().filter(|id| **id == 15).count(), 1);
    assert_eq!(walk.len(), 16);
    let mut sorted = walk.clone();
    sorted.sort_unstable();
    sorted.dedup();
    assert_eq!(sorted.len(), 16);
    assert_eq!(log.backtrace(15).unwrap().len(), 6);
}

#[test]
fn the_same_action_under_another_parent_is_another_node() {
    let mut log = log_fixture();
    let pass = Action::new(Seat::South, ActionType::BidTop, ActionData::Pass);
    assert_eq!(log.insert(Some(0), pass), 5);
    assert_eq!(log.insert(Some(14), pass), 15);
    assert_eq!(log.insert(Some(14), pass), 15);
}

#[test]
fn a_log_comes_back_from_its_persisted_form() {
    let mut log = log_fixture();
    let action = Action::new(
        Seat::East,
        ActionType::Lead,
        ActionData::Card { card: card("kd") },
    );
    log.insert(Some(12), action);
    let traces: Vec<_> = (0..18).map(|id| log.backtrace(id)).collect();
    let walk = log.traverse();
    let raw = RawLog::from_log(&log);
    assert!(raw.fits());
    assert_eq!(raw.actions().len(), 16);
    let listed: Vec<LogId> = raw.actions().iter().map(|n| n.id).collect();
    assert_eq!(listed, (0..=15).collect::<Vec<_>>());
    let back = raw.into_log();
    for id in 0..18 {
        assert_eq!(back.backtrace(id), traces[id as usize]);
    }
    assert_eq!(back.traverse(), walk);
    assert_eq!(back.len(), 16);
}

#[test]
fn nodes_of_the_persisted_form_may_come_in_any_order() {
    let pass = Action::new(Seat::East, ActionType::BidTop, ActionData::Pass);
    let next = Action::new(Seat::South, ActionType::BidTop, ActionData::Pass);
    let call = Action::new(
        Seat::South,
        ActionType::BidTop,
        ActionData::Call { suit: Suit::Diamond, alone: true },
    );
    let raw = RawLog::new(
        config_fixture(),
        vec![
            ActionNode { id: 9, parent: Some(2), action: call },
            ActionNode { id: 4, parent: Some(2), action: next },
            ActionNode { id: 2, parent: None, action: pass },
        ],
    );
    let mut log = raw.into_log();
    assert_eq!(ids(&log.traverse()), vec![2, 4, 9]);
    assert_eq!(log.backtrace(9).unwrap(), vec![(2, pass), (9, call)]);
    assert_eq!(log.find_child(Some(2), &call), Some(9));
    assert_eq!(log.insert(Some(9), pass), 10);
    let sorted: Vec<LogId> = RawLog::from_log(&log).actions().iter().map(|n| n.id).collect();
    assert_eq!(sorted, vec![2, 4, 9, 10]);
}

#[test]
fn of_two_nodes_with_one_id_the_first_counts() {
    let pass = Action::new(Seat::East, ActionType::BidTop, ActionData::Pass);
    let next = Action::new(Seat::South, ActionType::BidTop, ActionData::Pass);
    let raw = RawLog::new(
        config_fixture(),
        vec![
            ActionNode { id: 0, parent: None, action: pass },
            ActionNode { id: 0, parent: Some(5), action: next },
        ],
    );
    let log = raw.into_log();
    assert_eq!(log.len(), 1);
    assert_eq!(log.get(0), Some(ActionNode { id: 0, parent: None, action: pass }));
    assert_eq!(ids(&log.traverse()), vec![0]);
}

#[test]
fn an_empty_persisted_form_gives_a_log_that_counts_from_one() {
    let raw = RawLog::new(config_fixture(), vec![]);
    assert!(raw.fits());
    let mut log = raw.into_log();
    assert_eq!(log.len(), 0);
    let pass = Action::new(Seat::East, ActionType::BidTop, ActionData::Pass);
    assert_eq!(log.insert(None, pass), 1);
}

#[test]
fn a_persisted_form_with_the_last_id_does_not_fit() {
    let pass = Action::new(Seat::East, ActionType::BidTop, ActionData::Pass);
    let raw = RawLog::new(
        config_fixture(),
        vec![ActionNode { id: u32::MAX, parent: None, action: pass }],
    );
    assert!(!raw.fits());
}

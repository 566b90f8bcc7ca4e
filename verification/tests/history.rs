use euchre::history::{build_tree, PrefixHelper};
use euchre::{
    Action, ActionChoice, ActionData, ActionNode, ActionType, Card, ExpectAction, History,
    HistoryItem, Log, LogId, RawLog, RoundConfig, Seat, Suit,
};

fn card(s: &str) -> Card {
    Card::from_str(s).unwrap()
}

fn hand(cards: [&str; 5]) -> Vec<Card> {
    cards.iter().map(|s| card(s)).collect()
}

fn config() -> RoundConfig {
    RoundConfig::from_hands(
        Seat::North,
        hand(["ad", "qs", "jh", "th", "9h"]),
        hand(["jc", "kd", "ks", "kh", "qh"]),
        hand(["ac", "kc", "qc", "qd", "td"]),
        hand(["tc", "js", "ts", "9s", "ah"]),
        card("jd"),
    )
}

fn pass(seat: Seat) -> Action {
    Action::new(seat, ActionType::BidTop, ActionData::Pass)
}

fn call(seat: Seat, alone: bool) -> Action {
    Action::new(seat, ActionType::BidTop, ActionData::Call { suit: Suit::Diamond, alone })
}

/// East passes or calls; after the pass South passes, calls or calls alone.
fn log() -> Log {
    let raw = RawLog::new(
        config(),
        vec![
            ActionNode { id: 3, parent: Some(0), action: call(Seat::South, true) },
            ActionNode { id: 0, parent: None, action: pass(Seat::East) },
            ActionNode { id: 1, parent: Some(0), action: pass(Seat::South) },
            ActionNode { id: 2, parent: Some(0), action: call(Seat::South, false) },
            ActionNode { id: 4, parent: None, action: call(Seat::East, false) },
            ActionNode { id: 5, parent: Some(1), action: pass(Seat::West) },
        ],
    );
    raw.into_log()
}

fn lines(history: &History) -> Vec<(String, Option<LogId>, Option<LogId>)> {
    (0..history.len())
        .map(|i| {
            let line = history.get(i).unwrap();
            let id = match line.inner() {
                HistoryItem::Action { id, .. } => Some(*id),
                _ => None,
            };
            (line.prefix().to_string(), id, line.inner().parent())
        })
        .collect()
}

#[test]
fn the_history_draws_the_tree_of_the_log() {
    let log = log();
    assert!(log.is_closed());
    let history = History::new(Some(1), &log);
    let expected: Vec<(&str, Option<LogId>, Option<LogId>)> = vec![
        ("", None, None),
        ("├ ", Some(0), None),
        ("│ ├ ", Some(1), Some(0)),
        ("│ │ ├ ", Some(5), Some(1)),
        ("│ │ ╰ ", None, Some(1)),
        ("│ ├ ", Some(2), Some(0)),
        ("│ ╰ ", Some(3), Some(0)),
        ("╰ ", Some(4), None),
    ];
    let got = lines(&history);
    assert_eq!(got.len(), expected.len());
    for (line, want) in got.iter().zip(expected) {
        assert_eq!((line.0.as_str(), line.1, line.2), want);
    }
    assert_eq!(history.cursor_position(), Some(4));
    assert_eq!(history.selected(Some(4)), Some(Some(1)));
    assert_eq!(history.selected(Some(1)), Some(None));
    assert_eq!(history.selected(Some(0)), Some(None));
    assert_eq!(history.selected(Some(8)), None);
    assert_eq!(history.selected(None), None);
    assert!(matches!(history.get(0).unwrap().inner(), HistoryItem::Deal { dealer: Seat::North }));
    assert!(history.get(8).is_none());
}

#[test]
fn a_single_line_of_play_is_drawn_straight() {
    let mut log = Log::new(config());
    let a = log.insert(None, pass(Seat::East));
    let b = log.insert(Some(a), pass(Seat::South));
    let history = History::new(Some(b), &log);
    let got: Vec<String> = lines(&history).into_iter().map(|l| l.0).collect();
    assert_eq!(got, vec!["", "│ ", "│ ", "╰ "]);
    assert_eq!(history.cursor_position(), Some(3));
    let history = History::new(None, &log);
    let got: Vec<String> = lines(&history).into_iter().map(|l| l.0).collect();
    assert_eq!(got, vec!["", "├ ", "│ ╰ ", "╰ "]);
    assert_eq!(history.cursor_position(), Some(3));
    let empty = Log::new(config());
    let history = History::new(None, &empty);
    assert_eq!(lines(&history), vec![(String::new(), None, None), (String::from("╰ "), None, None)]);
}

#[test]
fn the_tree_of_the_history_has_the_deal_on_top() {
    let log = log();
    let tree = build_tree(Some(5), &log);
    assert!(matches!(tree.get(0).unwrap().data, HistoryItem::Deal { dealer: Seat::North }));
    assert_eq!(tree.get(0).unwrap().parent, None);
    // The nodes follow in ascending order of their ids, each under its parent.
    for (place, id, parent) in [(1, 0, 0), (2, 1, 1), (3, 2, 1), (4, 3, 1), (5, 4, 0), (6, 5, 2)] {
        let node = tree.get(place).unwrap();
        assert!(matches!(node.data, HistoryItem::Action { id: found, .. } if found == id));
        assert_eq!(node.parent, Some(parent));
    }
    assert!(matches!(tree.get(7).unwrap().data, HistoryItem::Cursor { parent: Some(5) }));
    assert_eq!(tree.get(7).unwrap().parent, Some(6));
    assert!(tree.get(8).is_none());
    assert_eq!(History::of_tree(&tree).len(), 8);
}

#[test]
fn a_log_with_a_missing_parent_is_not_closed() {
    let raw = RawLog::new(
        config(),
        vec![ActionNode { id: 3, parent: Some(7), action: pass(Seat::East) }],
    );
    assert!(!raw.into_log().is_closed());
    assert!(Log::new(config()).is_closed());
}

#[test]
fn the_lines_to_show_keep_the_selected_line_in_sight() {
    let history = History::new(Some(1), &log());
    assert_eq!(history.len(), 8);
    assert_eq!(history.get_item_bounds(0, None, 3), (0, 2));
    assert_eq!(history.get_item_bounds(0, None, 100), (0, 7));
    assert_eq!(history.get_item_bounds(0, None, 0), (0, 0));
    assert_eq!(history.get_item_bounds(100, None, 3), (7, 7));
    assert_eq!(history.get_item_bounds(2, Some(2), 3), (1, 3));
    assert_eq!(history.get_item_bounds(2, Some(0), 3), (0, 2));
    assert_eq!(history.get_item_bounds(2, Some(3), 3), (2, 4));
    assert_eq!(history.get_item_bounds(2, Some(4), 3), (3, 5));
    assert_eq!(history.get_item_bounds(2, Some(7), 3), (5, 7));
    assert_eq!(history.get_item_bounds(2, Some(9), 3), (5, 7));
    assert_eq!(history.get_item_bounds(0, Some(5), usize::MAX), (0, 7));
}

#[test]
fn marks_are_noted_for_the_lines_below() {
    let helper = PrefixHelper::new();
    assert_eq!(helper.base(None), "");
    assert_eq!(helper.base(Some(3)), "");
}

#[test]
fn the_choices_for_a_bid() {
    let choice = ActionChoice::bid_top(Suit::Heart);
    assert_eq!(
        choice.choices(),
        &vec![
            ActionData::Pass,
            ActionData::Call { suit: Suit::Heart, alone: false },
            ActionData::Call { suit: Suit::Heart, alone: true },
        ]
    );
    let choice = ActionChoice::bid_other(Suit::Heart);
    assert_eq!(choice.len(), 7);
    assert_eq!(
        choice.choices(),
        &vec![
            ActionData::Pass,
            ActionData::Call { suit: Suit::Club, alone: false },
            ActionData::Call { suit: Suit::Diamond, alone: false },
            ActionData::Call { suit: Suit::Spade, alone: false },
            ActionData::Call { suit: Suit::Club, alone: true },
            ActionData::Call { suit: Suit::Diamond, alone: true },
            ActionData::Call { suit: Suit::Spade, alone: true },
        ]
    );
    assert_eq!(choice.selected(Some(3)), Some(ActionData::Call { suit: Suit::Spade, alone: false }));
    assert_eq!(choice.selected(Some(7)), None);
    assert_eq!(choice.selected(None), None);
    let expect = ExpectAction::new(Seat::West, ActionType::BidOther);
    assert_eq!(
        choice.action(Some(0), Some(expect)),
        Some(Action::new(Seat::West, ActionType::BidOther, ActionData::Pass))
    );
    assert_eq!(choice.action(Some(0), None), None);
    assert_eq!(choice.action(None, Some(expect)), None);
    assert_eq!(
        ActionChoice::bid_other(Suit::Club).choices()[1],
        ActionData::Call { suit: Suit::Diamond, alone: false }
    );
}

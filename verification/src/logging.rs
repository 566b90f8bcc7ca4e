//! A round that maintains a log of actions taken.

use vstd::prelude::*;
use crate::action::{Action, ExpectAction};
use crate::base::BaseRound;
use crate::card::Card;
use crate::config::{RoundConfig, RoundConfigView};
use crate::error::{LogId, RoundError};
use crate::log::{
    lemma_walk_fuel,
    lemma_walk_prefix,
    spec_actions,
    spec_walk,
    Log,
    LogView,
    RawLog,
};
use crate::round::{
    lemma_step_ignores_events,
    spec_initial,
    Contract,
    Event,
    PlayerState,
    Round,
    RoundView,
};
use crate::seat::Seat;
use crate::tricks::Tricks;

verus! {

/// The state in which a round with the given initial conditions begins.
pub open spec fn spec_fresh(config: RoundConfigView) -> RoundView {
    spec_initial(config.dealer, config.hands, config.top)
}

/// A round with its log as plain values.
pub struct LoggingView {
    /// The state of the round.
    pub round: RoundView,
    /// The log of the actions taken.
    pub log: LogView,
    /// The node of the action taken last, if any was.
    pub cursor: Option<LogId>,
}

impl LoggingView {
    /// The actions that lead from the deal to the cursor.
    pub open spec fn path(self) -> Result<Seq<(LogId, Action)>, RoundError> {
        self.log.backtrace_from(self.cursor)
    }

    /// Whether this is where a seek along a path ends that stops after
    /// `k` actions with the answer `r`: the cursor stands at the last of
    /// those actions, the round is where they lead from the deal, and
    /// either the path is at its end or the round rejects the next
    /// action with the error of the answer.
    pub open spec fn seek_stops_at(
        self,
        path: Seq<(LogId, Action)>,
        k: int,
        r: Result<(), RoundError>,
    ) -> bool {
        &&& 0 <= k <= path.len()
        &&& self.cursor == (if k == 0 {
            None
        } else {
            Some(path[k - 1].0)
        })
        &&& spec_fresh(self.log.config).replay(spec_actions(path.take(k))) == Ok::<
            RoundView,
            RoundError,
        >(self.round)
        &&& match r {
            Ok(()) => k == path.len(),
            Err(e) => k < path.len() && self.round.step(path[k].1) == Err::<RoundView, RoundError>(
                e,
            ),
        }
    }

    /// Whether round and log are in step: the cursor has a path in the
    /// log, and the table is as a fresh round finds it after the actions
    /// of that path.
    pub open spec fn in_step(self) -> bool {
        match self.path() {
            Ok(path) => match spec_fresh(self.log.config).replay(spec_actions(path)) {
                Ok(state) => state.same_table(self.round),
                Err(_) => false,
            },
            Err(_) => false,
        }
    }
}

/// A [`Round`] implementation that maintains a [`Log`] of all actions taken.
#[derive(Debug)]
pub struct LoggingRound {
    round: BaseRound,
    log: Log,
    cursor: Option<LogId>,
}

impl View for LoggingRound {
    type V = LoggingView;

    closed spec fn view(&self) -> LoggingView {
        LoggingView { round: self.round@, log: self.log@, cursor: self.cursor }
    }
}

impl LoggingRound {
    /// Whether the round is well formed: round and log are, each by
    /// itself, and the two are in step.
    pub closed spec fn wf(&self) -> bool {
        &&& self.round.wf()
        &&& self.log.wf()
        &&& self@.in_step()
    }

    /// What well-formedness says of the view.
    pub proof fn lemma_in_step(&self)
        requires
            self.wf(),
        ensures
            self@.in_step(),
            self@.log.wf(),
            self@.round.inv(),
    {
        self.round.lemma_inv();
        self.log.lemma_wf();
    }

    /// Begins a round from the initial conditions of a log, at the point
    /// right after the deal.
    pub fn from_log(log: Log) -> (round: Self)
        requires
            log.wf(),
        ensures
            round.wf(),
            round@.round == spec_fresh(log@.config),
            round@.log == log@,
            round@.cursor == None::<LogId>,
    {
        let round = BaseRound::from_config(log.config().clone());
        let round = Self { log, round, cursor: None };
        proof {
            assert(spec_actions(Seq::<(LogId, Action)>::empty()) =~= Seq::<Action>::empty());
        }
        round
    }

    /// Converts the log of the round to its persisted form.
    pub fn to_raw(&self) -> (raw: RawLog)
        requires
            self.wf(),
        ensures
            raw@.config == self@.log.config,
            crate::log::spec_lists(raw@.actions, self@.log.nodes),
            crate::log::spec_nodes_sorted(raw@.actions),
            crate::log::spec_max_id(raw@.actions) < u32::MAX,
    {
        RawLog::from_log(&self.log)
    }

    /// Returns a cursor pointing to the last action taken.
    pub fn cursor(&self) -> (cursor: Option<LogId>)
        ensures
            cursor == self@.cursor,
    {
        self.cursor
    }

    /// Returns an immutable reference to the log.
    pub fn log(&self) -> (log: &Log)
        ensures
            log@ == self@.log,
            self.wf() ==> log.wf(),
    {
        &self.log
    }

    /// Returns the actions that lead from the deal to the cursor.
    pub fn backtrace(&self) -> (trace: Vec<(LogId, Action)>)
        requires
            self.wf(),
        ensures
            self@.path() == Ok::<Seq<(LogId, Action)>, RoundError>(trace@),
    {
        match self.cursor {
            Some(id) => match self.log.backtrace(id) {
                Ok(trace) => trace,
                Err(_) => vstd::pervasive::unreached(),
            },
            None => Vec::new(),
        }
    }

    /// Restarts the round.
    pub fn restart(&mut self)
        requires
            old(self).wf(),
        ensures
            final(self).wf(),
            final(self)@.round == spec_fresh(old(self)@.log.config),
            final(self)@.log == old(self)@.log,
            final(self)@.cursor == None::<LogId>,
    {
        self.cursor = None;
        self.round = BaseRound::from_config(self.log.config().clone());
        proof {
            assert(spec_actions(Seq::<(LogId, Action)>::empty()) =~= Seq::<Action>::empty());
        }
    }

    /// Seeks to the specified action in the log: restarts the round and
    /// applies the actions that lead to the action, in order. An id that
    /// the log does not know leaves the round restarted. An action that
    /// the round rejects ends the seek where the action before it left
    /// the round.
    pub fn seek(&mut self, id: Option<LogId>) -> (r: Result<(), RoundError>)
        requires
            old(self).wf(),
        ensures
            final(self).wf(),
            final(self)@.log == old(self)@.log,
            match old(self)@.log.backtrace_from(id) {
                Err(e) => r == Err::<(), RoundError>(e) && final(self)@.cursor == None::<LogId>
                    && final(self)@.round == spec_fresh(old(self)@.log.config),
                Ok(path) => {
                    &&& r is Ok <==> spec_fresh(old(self)@.log.config).replay(spec_actions(path))
                        is Ok
                    &&& exists|k: int| #[trigger] final(self)@.seek_stops_at(path, k, r)
                },
            },
            r is Ok ==> final(self)@.cursor == id,
    {
        self.restart();
        let target = match id {
            Some(target) => target,
            None => {
                proof {
                    let path = Seq::<(LogId, Action)>::empty();
                    assert(path.take(0) =~= path);
                    assert(spec_actions(path) =~= Seq::<Action>::empty());
                    assert(self@.seek_stops_at(path, 0, Ok(())));
                }
                return Ok(());
            },
        };
        let trace = match self.log.backtrace(target) {
            Ok(trace) => trace,
            Err(e) => {
                return Err(e);
            },
        };
        let ghost fresh = spec_fresh(self.log@.config);
        let ghost nodes = self.log@.nodes;
        proof {
            self.log.lemma_wf();
            assert(trace@.take(0) =~= Seq::<(LogId, Action)>::empty());
            assert(spec_actions(trace@.take(0)) =~= Seq::<Action>::empty());
            lemma_walk_fuel(nodes, target, nodes.len(), nodes.len());
        }
        let mut k: usize = 0;
        let mut failure: Option<RoundError> = None;
        while k < trace.len() && failure.is_none()
            invariant
                k <= trace.len(),
                self.round.wf(),
                self.log.wf(),
                self.log@ == old(self)@.log,
                nodes == self.log@.nodes,
                fresh == spec_fresh(self.log@.config),
                self.log@.backtrace(target) == Ok::<Seq<(LogId, Action)>, RoundError>(trace@),
                trace@.len() <= nodes.len(),
                self.cursor == (if k == 0 {
                    None
                } else {
                    Some(trace@[k - 1].0)
                }),
                fresh.replay(spec_actions(trace@.take(k as int))) == Ok::<RoundView, RoundError>(
                    self.round@,
                ),
                match failure {
                    Some(e) => k < trace.len() && self.round@.step(trace@[k as int].1) == Err::<
                        RoundView,
                        RoundError,
                    >(e),
                    None => true,
                },
            decreases trace.len() - k + (if failure is None { 1nat } else { 0nat }),
        {
            let (node, action) = trace[k];
            proof {
                let longer = spec_actions(trace@.take(k + 1));
                assert(longer.drop_last() =~= spec_actions(trace@.take(k as int)));
                assert(longer.last() == action);
            }
            match self.round.apply_action(action) {
                Ok(()) => {
                    self.cursor = Some(node);
                    k = k + 1;
                },
                Err(e) => {
                    failure = Some(e);
                },
            }
        }
        proof {
            self.lemma_cursor_path(target, trace@, k as int);
        }
        match failure {
            Some(e) => {
                proof {
                    assert(self@.seek_stops_at(trace@, k as int, Err(e)));
                    let all = spec_actions(trace@);
                    if fresh.replay(all) is Ok {
                        crate::round::lemma_replay_prefix(fresh, all, k + 1);
                        assert(all.take(k + 1) =~= spec_actions(trace@.take(k + 1)));
                        assert(spec_actions(trace@.take(k + 1)).drop_last() =~= spec_actions(
                            trace@.take(k as int),
                        ));
                    }
                }
                Err(e)
            },
            None => {
                proof {
                    assert(trace@.take(k as int) =~= trace@);
                    lemma_walk_prefix(nodes, target, nodes.len(), trace@.len() - 1);
                    assert(self@.seek_stops_at(trace@, k as int, Ok(())));
                }
                Ok(())
            },
        }
    }

    /// Part of the way along a path of the log, round and log are in step
    /// if the round is where the actions so far lead.
    proof fn lemma_cursor_path(&self, target: LogId, path: Seq<(LogId, Action)>, k: int)
        requires
            self.log.wf(),
            self.log@.backtrace(target) == Ok::<Seq<(LogId, Action)>, RoundError>(path),
            0 <= k <= path.len(),
            self.cursor == (if k == 0 {
                None
            } else {
                Some(path[k - 1].0)
            }),
            spec_fresh(self.log@.config).replay(spec_actions(path.take(k))) == Ok::<
                RoundView,
                RoundError,
            >(self.round@),
        ensures
            self@.in_step(),
            self@.path() == Ok::<Seq<(LogId, Action)>, RoundError>(path.take(k)),
    {
        let nodes = self.log@.nodes;
        self.log.lemma_wf();
        if k == 0 {
            assert(path.take(0) =~= Seq::<(LogId, Action)>::empty());
        } else {
            lemma_walk_fuel(nodes, target, nodes.len(), nodes.len());
            lemma_walk_prefix(nodes, target, nodes.len(), k - 1);
            lemma_walk_fuel(nodes, path[k - 1].0, k as nat, nodes.len());
            assert(path.take(k - 1 + 1) =~= path.take(k));
        }
    }
}

impl Round for LoggingRound {
    open spec fn state(&self) -> RoundView {
        self@.round
    }

    open spec fn wf(&self) -> bool {
        LoggingRound::wf(self)
    }

    open spec fn can_record(&self) -> bool {
        self@.log.next_id < u32::MAX
    }

    proof fn lemma_wf(&self) {
        self.round.lemma_inv();
    }

    /// Begins a round from its initial conditions, with an empty log.
    fn from_config(config: RoundConfig) -> (round: Self)
        ensures
            round@.log == Log::spec_new(config@),
            round@.cursor == None::<LogId>,
    {
        let log = Log::new(config.clone());
        let round = BaseRound::from_config(config);
        let round = Self { log, round, cursor: None };
        proof {
            assert(spec_actions(Seq::<(LogId, Action)>::empty()) =~= Seq::<Action>::empty());
        }
        round
    }


    fn dealer(&self) -> (dealer: Seat) {
        self.round.dealer()
    }

    fn top_card(&self) -> (top: Card) {
        self.round.top_card()
    }

    fn next_action(&self) -> (next: Option<ExpectAction>) {
        self.round.next_action()
    }

    fn contract(&self) -> (contract: Option<Contract>) {
        self.round.contract()
    }

    fn tricks(&self) -> (tricks: &Tricks) {
        self.round.tricks()
    }

    fn player_state(&self, seat: Seat) -> (state: PlayerState<'_>) {
        self.round.player_state(seat)
    }

    fn pop_event(&mut self) -> (event: Option<Event>)
        ensures
            final(self)@.log == old(self)@.log,
            final(self)@.cursor == old(self)@.cursor,
    {
        self.round.pop_event()
    }

    /// Applies the specified action, and records it in the log under the
    /// cursor, which moves to the action. An action that is rejected is
    /// not recorded. Where the log has no id left for an action that it
    /// does not hold yet, the action is rejected as one that has no valid
    /// id.
    fn apply_action(&mut self, action: Action) -> (r: Result<(), RoundError>)
        ensures
            match r {
                Ok(()) => {
                    &&& final(self)@.path() == Ok::<Seq<(LogId, Action)>, RoundError>(
                        old(self)@.path().unwrap().push((final(self)@.cursor.unwrap(), action)),
                    )
                    &&& final(self)@.log == old(self)@.log.insert(old(self)@.cursor, action).0
                    &&& final(self)@.cursor == Some(
                        old(self)@.log.insert(old(self)@.cursor, action).1,
                    )
                    &&& forall|other: LogId|
                        old(self)@.log.backtrace(other) is Ok ==> old(self)@.log.backtrace(other)
                            == #[trigger] final(self)@.log.backtrace(other)
                },
                Err(e) => {
                    &&& final(self)@ == old(self)@
                    &&& e == RoundError::InvalidLogId(u32::MAX) <==> old(self)@.log.next_id
                        == u32::MAX && old(self)@.log.find_child(old(self)@.cursor, action) is None
                },
            },
    {
        proof {
            self.log.lemma_wf();
        }
        if !self.log.has_room() {
            let child = self.log.find_child(self.cursor, &action);
            if child.is_none() {
                return Err(RoundError::InvalidLogId(u32::MAX));
            }
        }
        proof {
            self.log.lemma_wf();
            self.round.lemma_inv();
            let path = self@.path().unwrap();
            let longer = spec_actions(path.push((0, action)));
            assert(longer.drop_last() =~= spec_actions(path));
            assert(longer.last() == action);
            let expected = spec_fresh(self@.log.config).replay(spec_actions(path)).unwrap();
            lemma_step_ignores_events(expected, self.round@, action);
        }
        match self.round.apply_action(action) {
            Ok(()) => {},
            Err(e) => {
                proof {
                    self.lemma_no_such_step(action, e);
                }
                return Err(e);
            },
        }
        let id = self.log.insert(self.cursor, action);
        self.cursor = Some(id);
        proof {
            let path = old(self)@.path().unwrap();
            old(self)@.log.lemma_insert_path(old(self)@.cursor, action, self@.log, id);
            assert(spec_actions(path.push((id, action))) =~= spec_actions(path.push((0, action))));
        }
        Ok(())
    }
}

impl LoggingRound {
    /// No action is rejected by the rules as one without a valid id.
    proof fn lemma_no_such_step(&self, action: Action, e: RoundError)
        requires
            self.round@.step(action) == Err::<RoundView, RoundError>(e),
        ensures
            !(e is InvalidLogId),
    {
    }
}

/// What the events hold has no part in what a sequence of actions does to
/// the table.
pub proof fn lemma_replay_ignores_events(a: RoundView, b: RoundView, actions: Seq<Action>)
    requires
        a.same_table(b),
    ensures
        match (a.replay(actions), b.replay(actions)) {
            (Ok(x), Ok(y)) => x.same_table(y),
            (Err(e), Err(f)) => e == f,
            _ => false,
        },
    decreases actions.len(),
{
    if actions.len() > 0 {
        lemma_replay_ignores_events(a, b, actions.drop_last());
        match (a.replay(actions.drop_last()), b.replay(actions.drop_last())) {
            (Ok(x), Ok(y)) => {
                lemma_step_ignores_events(x, y, actions.last());
            },
            _ => {},
        }
    }
}

/// Seeking and replaying lead where playing led. A round that is in step
/// with its log, as it is after a seek to any node, stands where the
/// actions on the path to its cursor lead from the deal. From there the
/// actions that follow lead to the same table as all the actions lead to
/// from a fresh round: hands, contract, tricks and the action expected
/// are the same.
pub proof fn lemma_seek_then_replay(round: LoggingView, rest: Seq<Action>)
    requires
        round.in_step(),
    ensures
        match (
            spec_fresh(round.log.config).replay(spec_actions(round.path().unwrap()) + rest),
            round.round.replay(rest),
        ) {
            (Ok(direct), Ok(sought)) => direct.same_table(sought),
            (Err(e), Err(f)) => e == f,
            _ => false,
        },
{
    let fresh = spec_fresh(round.log.config);
    let first = spec_actions(round.path().unwrap());
    crate::round::lemma_replay_split(fresh, first, rest);
    lemma_replay_ignores_events(fresh.replay(first).unwrap(), round.round, rest);
}

} // verus!

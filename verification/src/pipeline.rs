//! Running through the tracked searches.
//!
//! All searches share one browser, so that one run at most goes on at a time,
//! whether the clock or a user started it. What is done next in a run, and
//! what can be told of it meanwhile, is decided here; opening the browser,
//! reading a list and pausing is up to the caller.

use crate::text::copy_text;
use vstd::prelude::*;

verus! {

// ---------------------------------------------------------------------------
// What is told of a run
// ---------------------------------------------------------------------------

/// What came of one search.
#[derive(Debug)]
pub struct RunOutcome {
    pub tracked_search_id: i64,
    pub label: String,
    /// What went wrong, if anything.
    pub result: Result<(), String>,
}

pub struct OutcomeView {
    pub tracked_search_id: i64,
    pub label: Seq<char>,
    pub result: Result<(), Seq<char>>,
}

pub open spec fn result_view(r: Result<(), String>) -> Result<(), Seq<char>> {
    match r {
        Ok(()) => Ok(()),
        Err(e) => Err(e@),
    }
}

impl View for RunOutcome {
    type V = OutcomeView;

    open spec fn view(&self) -> OutcomeView {
        OutcomeView {
            tracked_search_id: self.tracked_search_id,
            label: self.label@,
            result: result_view(self.result),
        }
    }
}

impl DeepView for RunOutcome {
    type V = OutcomeView;

    open spec fn deep_view(&self) -> OutcomeView {
        self@
    }
}

/// What came of a whole run.
#[derive(Debug)]
pub struct LastResult {
    pub total: usize,
    pub failed: usize,
    pub finished_at: String,
}

impl Clone for LastResult {
    fn clone(&self) -> (r: LastResult)
        ensures
            r == *self,
    {
        LastResult {
            total: self.total,
            failed: self.failed,
            finished_at: self.finished_at.clone(),
        }
    }
}

/// How far a run has come, for a page to show.
#[derive(Debug)]
pub struct RunStatus {
    pub running: bool,
    pub total: usize,
    pub completed: usize,
    pub current_label: Option<String>,
    pub last_result: Option<LastResult>,
}

impl Default for RunStatus {
    fn default() -> (r: RunStatus)
        ensures
            r == (RunStatus {
                running: false,
                total: 0,
                completed: 0,
                current_label: None,
                last_result: None,
            }),
    {
        RunStatus {
            running: false,
            total: 0,
            completed: 0,
            current_label: None,
            last_result: None,
        }
    }
}

impl Clone for RunStatus {
    fn clone(&self) -> (r: RunStatus)
        ensures
            r == *self,
    {
        RunStatus {
            running: self.running,
            total: self.total,
            completed: self.completed,
            current_label: copy_text(&self.current_label),
            last_result: match &self.last_result {
                Some(l) => Some(l.clone()),
                None => None,
            },
        }
    }
}

// ---------------------------------------------------------------------------
// One run at a time
// ---------------------------------------------------------------------------

pub open spec fn has_failed() -> spec_fn(OutcomeView) -> bool {
    |o: OutcomeView| o.result is Err
}

/// Lets one run go on at a time.
#[derive(Debug)]
pub struct PipelineRunner {
    pub status: RunStatus,
}

impl PipelineRunner {
    pub fn new() -> (r: PipelineRunner)
        ensures
            r.status == (RunStatus {
                running: false,
                total: 0,
                completed: 0,
                current_label: None,
                last_result: None,
            }),
    {
        PipelineRunner { status: RunStatus::default() }
    }

    pub fn status(&self) -> (r: RunStatus)
        ensures
            r == self.status,
    {
        self.status.clone()
    }

    /// Begins a run of all searches, unless a run is going on.
    pub fn try_spawn(&mut self) -> (r: bool)
        ensures
            r == !old(self).status.running,
            final(self).status.running,
            r ==> final(self).status == (RunStatus {
                running: true,
                total: 0,
                completed: 0,
                current_label: None,
                last_result: old(self).status.last_result,
            }),
            !r ==> *final(self) == *old(self),
    {
        self.mark_running_or_bail()
    }

    /// Begins a run of one search, unless a run is going on: a run of one
    /// would want the same browser as a run of all.
    pub fn try_spawn_one(&mut self) -> (r: bool)
        ensures
            r == !old(self).status.running,
            final(self).status.running,
            r ==> final(self).status == (RunStatus {
                running: true,
                total: 0,
                completed: 0,
                current_label: None,
                last_result: old(self).status.last_result,
            }),
            !r ==> *final(self) == *old(self),
    {
        self.mark_running_or_bail()
    }

    fn mark_running_or_bail(&mut self) -> (r: bool)
        ensures
            r == !old(self).status.running,
            final(self).status.running,
            r ==> final(self).status == (RunStatus {
                running: true,
                total: 0,
                completed: 0,
                current_label: None,
                last_result: old(self).status.last_result,
            }),
            !r ==> *final(self) == *old(self),
    {
        if self.status.running {
            return false;
        }
        self.status.running = true;
        self.status.total = 0;
        self.status.completed = 0;
        self.status.current_label = None;
        true
    }

    /// Shows how far a run has come.
    pub fn report(&mut self, run: &Run)
        ensures
            final(self).status == (RunStatus {
                running: old(self).status.running,
                total: run.total,
                completed: run.outcomes.len(),
                current_label: run.current_label,
                last_result: old(self).status.last_result,
            }),
    {
        self.status.total = run.total;
        self.status.completed = run.outcomes.len();
        self.status.current_label = copy_text(&run.current_label);
    }

    /// Ends a run.
    pub fn finish(&mut self, outcomes: &Vec<RunOutcome>, finished_at: String)
        ensures
            !final(self).status.running,
            final(self).status.total == old(self).status.total,
            final(self).status.completed == old(self).status.completed,
            final(self).status.current_label is None,
            final(self).status.last_result matches Some(l) && l.total == outcomes.len()
                && l.failed == outcomes.deep_view().filter(has_failed()).len()
                && l.finished_at@ == finished_at@,
    {
        let failed = count_failed(outcomes);
        self.status.running = false;
        self.status.current_label = None;
        self.status.last_result = Some(
            LastResult { total: outcomes.len(), failed, finished_at },
        );
    }
}

/// How many searches went wrong.
pub fn count_failed(outcomes: &Vec<RunOutcome>) -> (r: usize)
    ensures
        r == outcomes.deep_view().filter(has_failed()).len(),
        r <= outcomes.len(),
{
    let mut r: usize = 0;
    let ghost all = outcomes.deep_view();
    proof {
        reveal(Seq::filter);
    }
    for i in 0..outcomes.len()
        invariant
            all == outcomes.deep_view(),
            r == all.take(i as int).filter(has_failed()).len(),
            r <= i,
    {
        proof {
            reveal(Seq::filter);
            assert(all.take(i + 1).drop_last() =~= all.take(i as int));
            assert(all.take(i + 1).last() == outcomes[i as int]@);
        }
        if outcomes[i].result.is_err() {
            r = r + 1;
        }
    }
    assert(all.take(all.len() as int) =~= all);
    r
}

// ---------------------------------------------------------------------------
// A run
// ---------------------------------------------------------------------------

/// A search to be run.
#[derive(Debug)]
pub struct RunGroup {
    pub tracked_search_id: i64,
    /// What the search was called by whoever added it.
    pub name: Option<String>,
    pub district: String,
    pub building_type: String,
    pub price_range: String,
    pub search_url: String,
}

pub struct RunGroupView {
    pub tracked_search_id: i64,
    pub name: Option<Seq<char>>,
    pub district: Seq<char>,
    pub building_type: Seq<char>,
    pub price_range: Seq<char>,
    pub search_url: Seq<char>,
}

impl RunGroupView {
    /// The name of the search, or what it looks for where it has none.
    pub open spec fn label(self) -> Seq<char> {
        match self.name {
            Some(name) => name,
            None => self.district + self.building_type + self.price_range,
        }
    }
}

impl View for RunGroup {
    type V = RunGroupView;

    open spec fn view(&self) -> RunGroupView {
        RunGroupView {
            tracked_search_id: self.tracked_search_id,
            name: self.name.deep_view(),
            district: self.district@,
            building_type: self.building_type@,
            price_range: self.price_range@,
            search_url: self.search_url@,
        }
    }
}

impl DeepView for RunGroup {
    type V = RunGroupView;

    open spec fn deep_view(&self) -> RunGroupView {
        self@
    }
}

impl RunGroup {
    pub fn label(&self) -> (r: String)
        ensures
            r@ == self@.label(),
    {
        match &self.name {
            Some(name) => name.clone(),
            None => {
                let mut r = self.district.clone();
                r.append(self.building_type.as_str());
                r.append(self.price_range.as_str());
                r
            },
        }
    }
}

/// What a run waits for.
#[derive(Clone, Copy, Debug, PartialEq, Eq, Structural)]
pub enum Stage {
    Opening,
    Scraping,
    Pausing,
    Over,
}

/// What is to be done next.
#[derive(Clone, Copy, Debug, PartialEq, Eq, Structural)]
pub enum Action {
    OpenBrowser,
    /// Read the list of the search with this index, and bring its record up to
    /// date.
    Scrape { index: usize },
    /// Pause between two searches, for the site's sake.
    Pause,
    Done,
}

/// What came of it.
#[derive(Debug)]
pub enum Event {
    BrowserOpened,
    BrowserFailed,
    Scraped { result: Result<(), String> },
    Paused,
}

pub enum EventView {
    BrowserOpened,
    BrowserFailed,
    Scraped { result: Result<(), Seq<char>> },
    Paused,
}

impl View for Event {
    type V = EventView;

    open spec fn view(&self) -> EventView {
        match self {
            Event::BrowserOpened => EventView::BrowserOpened,
            Event::BrowserFailed => EventView::BrowserFailed,
            Event::Scraped { result } => EventView::Scraped { result: result_view(*result) },
            Event::Paused => EventView::Paused,
        }
    }
}

/// A run of some searches.
#[derive(Debug)]
pub struct Run {
    pub groups: Vec<RunGroup>,
    /// What came of the searches so far.
    pub outcomes: Vec<RunOutcome>,
    pub stage: Stage,
    pub total: usize,
    pub current_label: Option<String>,
}

#[verifier::ext_equal]
pub struct RunView {
    pub groups: Seq<RunGroupView>,
    pub outcomes: Seq<OutcomeView>,
    pub stage: Stage,
    pub total: nat,
    pub current_label: Option<Seq<char>>,
}

impl View for Run {
    type V = RunView;

    open spec fn view(&self) -> RunView {
        RunView {
            groups: self.groups.deep_view(),
            outcomes: self.outcomes.deep_view(),
            stage: self.stage,
            total: self.total as nat,
            current_label: self.current_label.deep_view(),
        }
    }
}

/// What holds of a run at any time: its outcomes are those of its first
/// searches, in order; and it ends with one for each, or with none where the
/// browser did not open.
pub open spec fn is_valid_run(run: RunView) -> bool {
    &&& run.outcomes.len() <= run.groups.len()
    &&& run.total == run.groups.len()
    &&& forall|i: int|
        0 <= i < run.outcomes.len() ==> {
            &&& (#[trigger] run.outcomes[i]).tracked_search_id == run.groups[i].tracked_search_id
            &&& run.outcomes[i].label == run.groups[i].label()
        }
    &&& run.stage == Stage::Opening ==> run.outcomes.len() == 0 && run.groups.len() > 0
    &&& run.stage == Stage::Scraping ==> run.outcomes.len() < run.groups.len()
    &&& run.stage == Stage::Pausing ==> 0 < run.outcomes.len() < run.groups.len()
    &&& run.stage == Stage::Over ==> run.outcomes.len() == 0 || run.outcomes.len()
        == run.groups.len()
}

/// The event is one that the run waits for.
pub open spec fn awaits(run: RunView, event: EventView) -> bool {
    match event {
        EventView::BrowserOpened | EventView::BrowserFailed => run.stage == Stage::Opening,
        EventView::Scraped { .. } => run.stage == Stage::Scraping,
        EventView::Paused => run.stage == Stage::Pausing,
    }
}

/// A run before anything has been done. A run of one search shows its label at
/// once, a run of all searches shows each as it comes up.
pub open spec fn begun(groups: Seq<RunGroupView>, only_one: bool) -> RunView {
    RunView {
        groups,
        outcomes: seq![],
        stage: if groups.len() == 0 {
            Stage::Over
        } else {
            Stage::Opening
        },
        total: groups.len(),
        current_label: if only_one && groups.len() > 0 {
            Some(groups[0].label())
        } else {
            None
        },
    }
}

/// The run as it turns to its next search.
pub open spec fn turned(run: RunView) -> RunView {
    RunView {
        stage: Stage::Scraping,
        current_label: Some(run.groups[run.outcomes.len() as int].label()),
        ..run
    }
}

/// The run after an event. A search that went wrong does not keep the others
/// from being run.
pub open spec fn stepped(run: RunView, event: EventView) -> RunView {
    match event {
        EventView::BrowserFailed => RunView { stage: Stage::Over, ..run },
        EventView::BrowserOpened | EventView::Paused => turned(run),
        EventView::Scraped { result } => {
            let group = run.groups[run.outcomes.len() as int];
            let outcomes = run.outcomes.push(
                OutcomeView {
                    tracked_search_id: group.tracked_search_id,
                    label: group.label(),
                    result,
                },
            );
            RunView {
                outcomes,
                stage: if outcomes.len() < run.groups.len() {
                    Stage::Pausing
                } else {
                    Stage::Over
                },
                ..run
            }
        },
    }
}

/// What a run asks for.
pub open spec fn asks_for(run: RunView) -> Action {
    match run.stage {
        Stage::Opening => Action::OpenBrowser,
        Stage::Scraping => Action::Scrape { index: run.outcomes.len() as usize },
        Stage::Pausing => Action::Pause,
        Stage::Over => Action::Done,
    }
}

impl Run {
    /// Begins a run of the searches. There is nothing to do where there are
    /// none.
    pub fn begin(groups: Vec<RunGroup>, only_one: bool) -> (r: Run)
        ensures
            r@ == begun(groups.deep_view(), only_one),
            is_valid_run(r@),
    {
        let total = groups.len();
        let ghost all = groups.deep_view();
        let stage = if total == 0 {
            Stage::Over
        } else {
            Stage::Opening
        };
        let current_label = if only_one && total > 0 {
            Some(groups[0].label())
        } else {
            None
        };
        let r = Run { groups, outcomes: Vec::new(), stage, total, current_label };
        assert(r@ =~= begun(all, only_one));
        r
    }

    /// What is to be done next.
    pub fn action(&self) -> (r: Action)
        ensures
            r == asks_for(self@),
    {
        match self.stage {
            Stage::Opening => Action::OpenBrowser,
            Stage::Scraping => Action::Scrape { index: self.outcomes.len() },
            Stage::Pausing => Action::Pause,
            Stage::Over => Action::Done,
        }
    }

    /// Takes in what came of the last action, and tells what is to be done
    /// next.
    pub fn step(&mut self, event: Event) -> (r: Action)
        requires
            is_valid_run(old(self)@),
            awaits(old(self)@, event@),
        ensures
            final(self)@ == stepped(old(self)@, event@),
            is_valid_run(final(self)@),
            r == asks_for(final(self)@),
    {
        let ghost before = self@;
        let ghost what = event@;
        let index = self.outcomes.len();
        match event {
            Event::BrowserFailed => {
                self.stage = Stage::Over;
            },
            Event::BrowserOpened | Event::Paused => {
                assert(before.groups[index as int] == self.groups[index as int]@);
                self.current_label = Some(self.groups[index].label());
                self.stage = Stage::Scraping;
            },
            Event::Scraped { result } => {
                assert(before.groups[index as int] == self.groups[index as int]@);
                let outcome = RunOutcome {
                    tracked_search_id: self.groups[index].tracked_search_id,
                    label: self.groups[index].label(),
                    result,
                };
                let ghost o = outcome@;
                self.outcomes.push(outcome);
                assert(self.outcomes.deep_view() =~= before.outcomes.push(o));
                self.stage = if self.outcomes.len() < self.groups.len() {
                    Stage::Pausing
                } else {
                    Stage::Over
                };
            },
        }
        proof {
            assert(self@ =~= stepped(before, what));
            lemma_step_keeps_run_valid(before, what);
        }
        self.action()
    }
}

proof fn lemma_step_keeps_run_valid(run: RunView, event: EventView)
    requires
        is_valid_run(run),
        awaits(run, event),
    ensures
        is_valid_run(stepped(run, event)),
{
    let after = stepped(run, event);
    assert forall|i: int| 0 <= i < after.outcomes.len() implies {
        &&& (#[trigger] after.outcomes[i]).tracked_search_id == after.groups[i].tracked_search_id
        &&& after.outcomes[i].label == after.groups[i].label()
    } by {
        if i < run.outcomes.len() {
            assert(after.outcomes[i] == run.outcomes[i]);
        }
    }
}

// ---------------------------------------------------------------------------
// Laws
// ---------------------------------------------------------------------------

/// The run after the browser has opened and the searches were run with these
/// results, one after the other.
pub open spec fn after_results(run: RunView, results: Seq<Result<(), Seq<char>>>) -> RunView
    decreases results.len(),
{
    if results.len() == 0 {
        run
    } else {
        let before = after_results(run, results.drop_last());
        let ready = if before.stage == Stage::Pausing {
            stepped(before, EventView::Paused)
        } else {
            before
        };
        stepped(ready, EventView::Scraped { result: results.last() })
    }
}

/// Every search is run, in order, whatever came of those before it: once there
/// is a result for each, the run is over and has an outcome for each.
pub proof fn law_every_search_is_run(
    groups: Seq<RunGroupView>,
    only_one: bool,
    results: Seq<Result<(), Seq<char>>>,
)
    requires
        0 < groups.len(),
        results.len() == groups.len(),
    ensures
        ({
            let open = stepped(begun(groups, only_one), EventView::BrowserOpened);
            let end = after_results(open, results);
            &&& end.stage == Stage::Over
            &&& end.outcomes.len() == groups.len()
            &&& forall|i: int|
                0 <= i < groups.len() ==> (#[trigger] end.outcomes[i]) == (OutcomeView {
                    tracked_search_id: groups[i].tracked_search_id,
                    label: groups[i].label(),
                    result: results[i],
                })
        }),
{
    lemma_results(groups, only_one, results);
}

proof fn lemma_results(
    groups: Seq<RunGroupView>,
    only_one: bool,
    results: Seq<Result<(), Seq<char>>>,
)
    requires
        0 < groups.len(),
        results.len() <= groups.len(),
    ensures
        ({
            let open = stepped(begun(groups, only_one), EventView::BrowserOpened);
            let run = after_results(open, results);
            &&& run.groups == groups
            &&& run.stage == (if results.len() == 0 {
                Stage::Scraping
            } else if results.len() < groups.len() {
                Stage::Pausing
            } else {
                Stage::Over
            })
            &&& run.outcomes.len() == results.len()
            &&& forall|i: int|
                0 <= i < results.len() ==> (#[trigger] run.outcomes[i]) == (OutcomeView {
                    tracked_search_id: groups[i].tracked_search_id,
                    label: groups[i].label(),
                    result: results[i],
                })
        }),
    decreases results.len(),
{
    if results.len() > 0 {
        lemma_results(groups, only_one, results.drop_last());
    }
}

/// A search goes by its name. One without a name goes by its district, its
/// type of building and its range of prices, one behind the other.
pub proof fn law_searches_have_labels(group: RunGroupView, name: Seq<char>)
    ensures
        group.name == Some(name) ==> group.label() == name,
        group.name is None ==> {
            let (d, b, p) = (group.district, group.building_type, group.price_range);
            let label = group.label();
            &&& label.len() == d.len() + b.len() + p.len()
            &&& label.take(d.len() as int) == d
            &&& label.subrange(d.len() as int, (d.len() + b.len()) as int) == b
            &&& label.skip((d.len() + b.len()) as int) == p
        },
{
    if group.name is None {
        let (d, b, p) = (group.district, group.building_type, group.price_range);
        let label = group.label();
        assert(label =~= d + b + p);
        assert(label.take(d.len() as int) =~= d);
        assert(label.subrange(d.len() as int, (d.len() + b.len()) as int) =~= b);
        assert(label.skip((d.len() + b.len()) as int) =~= p);
    }
}

/// One more outcome counts as failed if and only if something went wrong.
pub proof fn law_failures_are_counted(outcomes: Seq<OutcomeView>, next: OutcomeView)
    ensures
        Seq::<OutcomeView>::empty().filter(has_failed()).len() == 0,
        outcomes.push(next).filter(has_failed()).len() == outcomes.filter(has_failed()).len() + (
        match next.result {
            Ok(()) => 0int,
            Err(_) => 1int,
        }),
{
    reveal(Seq::filter);
    assert(outcomes.push(next).drop_last() =~= outcomes);
}

/// A run opens the browser first, if it has a search to run, and has nothing
/// else to do if it has none. Only a run of one search shows its label from the
/// start.
pub proof fn law_run_begins_with_the_browser(groups: Seq<RunGroupView>, only_one: bool)
    ensures
        ({
            let run = begun(groups, only_one);
            &&& asks_for(run) == (if groups.len() > 0 {
                Action::OpenBrowser
            } else {
                Action::Done
            })
            &&& run.groups == groups
            &&& run.outcomes.len() == 0
            &&& run.total == groups.len()
            &&& run.current_label is Some <==> only_one && groups.len() > 0
            &&& run.current_label is Some ==> run.current_label == Some(groups[0].label())
        }),
{
}

/// What a run asks for after each event. It ends where the browser does not
/// open. An open browser and a pause are followed by the search that comes next,
/// whose label is shown. A search, whatever came of it, is noted down as the last
/// outcome, and is followed by a pause as long as there are more.
pub proof fn law_run_goes_on(run: RunView, event: EventView)
    requires
        is_valid_run(run),
        awaits(run, event),
        run.groups.len() <= usize::MAX,
    ensures
        ({
            let after = stepped(run, event);
            let n = run.outcomes.len() as int;
            &&& after.groups == run.groups
            &&& after.total == run.total
            &&& event is BrowserFailed ==> {
                &&& asks_for(after) == Action::Done
                &&& after.outcomes == run.outcomes
            }
            &&& event is BrowserOpened || event is Paused ==> {
                &&& asks_for(after) matches Action::Scrape { index } && index == n
                &&& after.current_label == Some(run.groups[n].label())
                &&& after.outcomes == run.outcomes
            }
            &&& event matches EventView::Scraped { result } ==> {
                &&& asks_for(after) == (if n + 1 < run.groups.len() {
                    Action::Pause
                } else {
                    Action::Done
                })
                &&& after.outcomes.drop_last() == run.outcomes
                &&& after.outcomes.len() == n + 1
                &&& after.outcomes[n].tracked_search_id == run.groups[n].tracked_search_id
                &&& after.outcomes[n].label == run.groups[n].label()
                &&& after.outcomes[n].result == result
            }
        }),
{
    let after = stepped(run, event);
    if event is Scraped {
        assert(after.outcomes.drop_last() =~= run.outcomes);
    }
}

} // verus!

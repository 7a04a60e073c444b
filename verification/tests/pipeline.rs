use taipei_housing::pipeline::{
    count_failed, Action, Event, PipelineRunner, Run, RunGroup, RunOutcome, RunStatus, Stage,
};

fn group(id: i64) -> RunGroup {
    RunGroup {
        tracked_search_id: id,
        name: None,
        district: "松山區".to_string(),
        building_type: "華廈".to_string(),
        price_range: id.to_string(),
        search_url: format!("https://example.com/{id}"),
    }
}

#[test]
fn one_run_goes_on_at_a_time() {
    let mut runner = PipelineRunner::new();
    assert!(!runner.status().running);
    assert!(runner.try_spawn());
    assert!(runner.status().running);
    assert!(!runner.try_spawn());
    assert!(!runner.try_spawn_one());
    runner.finish(&vec![], "then".to_string());
    assert!(!runner.status().running);
    assert!(runner.try_spawn_one());
    assert!(!runner.try_spawn());
    let status = runner.status();
    assert_eq!(status.total, 0);
    assert_eq!(status.completed, 0);
    assert_eq!(status.current_label, None);
    assert_eq!(status.last_result.unwrap().finished_at, "then");
}

#[test]
fn a_fresh_status_is_idle() {
    let status = RunStatus::default();
    assert!(!status.running);
    assert_eq!(status.total, 0);
    assert!(status.last_result.is_none());
}

#[test]
fn every_search_is_run_whatever_came_of_the_others() {
    let mut runner = PipelineRunner::new();
    assert!(runner.try_spawn());
    let mut run = Run::begin(vec![group(1), group(2), group(3)], false);
    runner.report(&run);
    assert_eq!(runner.status().total, 3);
    assert_eq!(runner.status().current_label, None);
    assert_eq!(run.action(), Action::OpenBrowser);

    assert_eq!(run.step(Event::BrowserOpened), Action::Scrape { index: 0 });
    runner.report(&run);
    assert_eq!(runner.status().current_label, Some("松山區華廈1".to_string()));
    assert_eq!(run.step(Event::Scraped { result: Ok(()) }), Action::Pause);
    runner.report(&run);
    assert_eq!(runner.status().completed, 1);
    assert_eq!(run.step(Event::Paused), Action::Scrape { index: 1 });
    let failed = Event::Scraped { result: Err("no tab".to_string()) };
    assert_eq!(run.step(failed), Action::Pause);
    assert_eq!(run.step(Event::Paused), Action::Scrape { index: 2 });
    assert_eq!(run.step(Event::Scraped { result: Ok(()) }), Action::Done);
    assert_eq!(run.stage, Stage::Over);

    assert_eq!(run.outcomes.len(), 3);
    assert_eq!(run.outcomes[1].tracked_search_id, 2);
    assert_eq!(run.outcomes[1].label, "松山區華廈2");
    assert_eq!(run.outcomes[1].result, Err("no tab".to_string()));
    assert_eq!(count_failed(&run.outcomes), 1);

    runner.report(&run);
    runner.finish(&run.outcomes, "now".to_string());
    let status = runner.status();
    assert!(!status.running);
    assert_eq!(status.current_label, None);
    assert_eq!(status.completed, 3);
    let last = status.last_result.unwrap();
    assert_eq!((last.total, last.failed), (3, 1));
    assert_eq!(last.finished_at, "now");
}

#[test]
fn without_a_browser_there_is_no_outcome() {
    let mut run = Run::begin(vec![group(1)], false);
    assert_eq!(run.step(Event::BrowserFailed), Action::Done);
    assert!(run.outcomes.is_empty());
}

#[test]
fn without_searches_there_is_nothing_to_do() {
    let run = Run::begin(vec![], false);
    assert_eq!(run.action(), Action::Done);
    assert_eq!(run.total, 0);
    assert!(Run::begin(vec![], true).current_label.is_none());
}

#[test]
fn a_run_of_one_shows_its_label_at_once() {
    let mut run = Run::begin(vec![group(5)], true);
    assert_eq!(run.current_label, Some("松山區華廈5".to_string()));
    assert_eq!(run.total, 1);
    run.step(Event::BrowserOpened);
    assert_eq!(run.step(Event::Scraped { result: Ok(()) }), Action::Done);
    assert_eq!(run.outcomes.len(), 1);
}

#[test]
fn failures_are_counted() {
    let outcome = |result| RunOutcome { tracked_search_id: 1, label: "l".to_string(), result };
    assert_eq!(count_failed(&vec![]), 0);
    assert_eq!(
        count_failed(&vec![outcome(Err("a".to_string())), outcome(Ok(())), outcome(Err("b".to_string()))]),
        2
    );
}

#[test]
fn a_search_is_called_by_its_name() {
    let named = |id: i64| RunGroup { name: Some("我的清單".to_string()), ..group(id) };
    assert_eq!(named(1).label(), "我的清單");
    assert_eq!(group(1).label(), "松山區華廈1");

    // A search with an unknown address has nothing but its name.
    let only = RunGroup {
        tracked_search_id: 7,
        name: Some("我的清單".to_string()),
        district: String::new(),
        building_type: String::new(),
        price_range: String::new(),
        search_url: "https://example.com/7".to_string(),
    };
    let mut runner = PipelineRunner::new();
    assert!(runner.try_spawn());
    let mut run = Run::begin(vec![only], false);
    assert_eq!(run.action(), Action::OpenBrowser);
    assert_eq!(run.step(Event::BrowserOpened), Action::Scrape { index: 0 });
    runner.report(&run);
    assert_eq!(runner.status().current_label, Some("我的清單".to_string()));
    assert_eq!(run.step(Event::Scraped { result: Ok(()) }), Action::Done);
    assert_eq!(run.outcomes.len(), 1);
    assert_eq!(run.outcomes[0].tracked_search_id, 7);
    assert_eq!(run.outcomes[0].label, "我的清單");

    let run = Run::begin(vec![named(2)], true);
    assert_eq!(run.current_label, Some("我的清單".to_string()));
}

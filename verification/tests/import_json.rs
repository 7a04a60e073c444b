use taipei_housing::date::Date;
use taipei_housing::db::models::{CheckRun, CheckRunEventType, Review, ReviewDecision};
use taipei_housing::db::record::SearchRecord;
use taipei_housing::db::tables::{clearing_steps, SearchWrite, Step};
use taipei_housing::double::Double;
use taipei_housing::import_json::{
    can_plan, has_representative, import_file, parse_search_url, plan_import, read_dates,
    resolve_representative, FileDates, ImportError, ImportPlan, ListingNumbers, RawFile,
    RawHistoryEntry, RawListing,
};
use taipei_housing::import_steps::{filling_steps, search_to_save};

fn link(id: &str, to: Option<&str>) -> (String, Option<String>) {
    (id.to_string(), to.map(|s| s.to_string()))
}

fn double(x: f64) -> Double {
    Double { bits: x.to_bits() }
}

#[test]
fn chains_are_followed_to_their_end() {
    let links = vec![link("a", Some("b")), link("b", Some("c")), link("c", None), link("d", None)];
    for id in ["a", "b", "c"] {
        assert!(has_representative(&id.to_string(), &links));
        assert_eq!(resolve_representative(&id.to_string(), &links), "c");
    }
    assert_eq!(resolve_representative(&"d".to_string(), &links), "d");
    assert_eq!(resolve_representative(&"unknown".to_string(), &links), "unknown");
}

#[test]
fn a_broken_chain_ends_with_the_last_known_listing() {
    let links = vec![link("a", Some("b")), link("b", Some("nowhere")), link("c", Some("nowhere"))];
    assert_eq!(resolve_representative(&"a".to_string(), &links), "b");
    assert_eq!(resolve_representative(&"b".to_string(), &links), "b");
    assert_eq!(resolve_representative(&"c".to_string(), &links), "c");
}

#[test]
fn last_entry_of_an_id_counts() {
    let links = vec![link("a", Some("b")), link("b", None), link("c", None), link("a", Some("c"))];
    assert_eq!(resolve_representative(&"a".to_string(), &links), "c");
}

#[test]
fn chains_without_an_end_are_found() {
    assert!(!has_representative(&"a".to_string(), &vec![link("a", Some("a"))]));
    let ring = vec![link("a", Some("b")), link("b", Some("a"))];
    assert!(!has_representative(&"a".to_string(), &ring));

    let mut long: Vec<(String, Option<String>)> =
        (0..1001).map(|i| (i.to_string(), Some((i + 1).to_string()))).collect();
    long.push(("1001".to_string(), None));
    assert!(!has_representative(&"0".to_string(), &long));
    assert!(has_representative(&"1".to_string(), &long));
    assert_eq!(resolve_representative(&"1".to_string(), &long), "1001");
}

#[test]
fn search_addresses_are_read() {
    let parts = |d: &str, b: &str, p: &str| (d.to_string(), b.to_string(), p.to_string());
    assert_eq!(
        parse_search_url("https://sale.591.com.tw/?regionid=1&section=4&shape=2&price=3000_4000")
            .unwrap(),
        parts("松山區", "電梯大樓", "3000_4000")
    );
    assert_eq!(
        parse_search_url("section=3&shape=5&price=").unwrap(),
        parts("中山區", "華廈", "")
    );
    assert_eq!(
        parse_search_url("x?section=9&shape=5&price=1=2&section=3&flag").unwrap(),
        parts("中山區", "華廈", "1=2")
    );
}

#[test]
fn what_is_wrong_with_a_search_address_is_told() {
    let missing = |url: &str| match parse_search_url(url) {
        Err(ImportError::MissingParameter { name }) => name,
        other => panic!("{other:?}"),
    };
    assert_eq!(missing("https://example.com/"), "section");
    assert_eq!(missing("https://example.com/?section=9"), "shape");
    assert_eq!(missing("https://example.com/?section=9&shape=9"), "price");
    assert!(matches!(
        parse_search_url("?section=9&shape=9&price=1"),
        Err(ImportError::UnknownSection { section }) if section == "9"
    ));
    assert!(matches!(
        parse_search_url("?section=3&shape=9&price=1"),
        Err(ImportError::UnknownShape { shape }) if shape == "9"
    ));
    // Only what stands behind the first question mark is looked at.
    assert_eq!(missing("section=3?shape=5&price=1"), "section");
}

fn listing(id: &str, duplicate_of: Option<&str>, delisted: bool) -> RawListing {
    RawListing {
        id: id.to_string(),
        title: format!("title {id}"),
        price: 3500,
        unit_price: double(95.5),
        rooms: "3房".to_string(),
        area: "36.3".to_string(),
        main_area: None,
        age: Some(20),
        floor: "5F/10F".to_string(),
        community: Some("c".to_string()),
        address: "a".to_string(),
        agent: None,
        first_seen: "2026-01-02".to_string(),
        duplicate_of: duplicate_of.map(|s| s.to_string()),
        delisted,
        delisted_date: if delisted { Some("2026-02-03".to_string()) } else { None },
        note: Some("n".to_string()),
    }
}

fn file() -> RawFile {
    RawFile {
        search_url: "https://sale.591.com.tw/?section=3&shape=5&price=2000_3000".to_string(),
        artifact_url: None,
        criteria_json: "{}".to_string(),
        dedup_note: None,
        last_checked: Some("2026-02-05".to_string()),
        history: vec![RawHistoryEntry {
            date: "2026-01-02".to_string(),
            new_count: 4,
            total_count: 2,
            new_ids: vec!["1".to_string(), "2".to_string()],
            delisted_ids: vec!["4".to_string()],
            note: Some("h".to_string()),
        }],
        listings: vec![
            listing("1", Some("2"), false),
            listing("2", Some("3"), false),
            listing("3", None, false),
            listing("4", None, true),
        ],
    }
}

/// Reads the numbers of a file the way the program does.
fn numbers(file: &RawFile) -> Vec<ListingNumbers> {
    let read = |s: &String| s.parse::<f64>().ok().map(double);
    file.listings
        .iter()
        .map(|l| ListingNumbers { area: read(&l.area), main_area: l.main_area.as_ref().and_then(read) })
        .collect()
}

fn planned(file: &RawFile) -> Result<ImportPlan, ImportError> {
    import_file(file, &numbers(file)).unwrap()
}

#[test]
fn file_is_taken_in() {
    let mut f = file();
    f.listings[0].main_area = Some("26.09".to_string());
    let plan = planned(&f).unwrap();
    assert_eq!(plan.district, "中山區");
    assert_eq!(plan.building_type, "華廈");
    assert_eq!(plan.price_range, "2000_3000");
    assert_eq!(plan.last_checked, Some(Date { year: 2026, month: 2, day: 5 }));
    assert_eq!(plan.runs.len(), 1);
    assert_eq!(plan.runs[0].checked_date, Date { year: 2026, month: 1, day: 2 });
    assert_eq!(plan.runs[0].new_count, 4);
    assert_eq!(plan.runs[0].total_count, 2);
    assert_eq!(plan.runs[0].new_ids, vec!["1".to_string(), "2".to_string()]);
    assert_eq!(plan.runs[0].delisted_ids, vec!["4".to_string()]);
    assert_eq!(plan.runs[0].note, Some("h".to_string()));
    assert_eq!(plan.representative_count, 2);
    assert_eq!(plan.duplicate_count, 2);
    assert_eq!(plan.delisted_count, 1);
    let above: Vec<Option<String>> =
        plan.listings.iter().map(|l| l.duplicate_of.clone()).collect();
    assert_eq!(above, vec![Some("3".to_string()), Some("3".to_string()), None, None]);
    let l = &plan.listings[0];
    assert_eq!(l.card.id, "1");
    assert_eq!(l.card.title, "title 1");
    assert_eq!(l.card.area.bits, 36.3_f64.to_bits());
    assert_eq!(l.card.main_area.unwrap().bits, 26.09_f64.to_bits());
    assert_eq!(l.card.age, Some(20));
    assert_eq!(l.first_seen, Date { year: 2026, month: 1, day: 2 });
    assert_eq!(l.delisted_date, None);
    assert_eq!(l.note, Some("n".to_string()));
    assert_eq!(plan.listings[3].delisted_date, Some(Date { year: 2026, month: 2, day: 3 }));
    assert!(plan.listings[3].delisted);
}

#[test]
fn what_is_said_of_the_search_comes_from_the_file() {
    let mut f = file();
    f.artifact_url = Some("https://example.com/artifact".to_string());
    f.criteria_json = "{\"a\":1}".to_string();
    f.dedup_note = Some("twice".to_string());
    let plan = planned(&f).unwrap();
    assert_eq!(plan.artifact_url, Some("https://example.com/artifact".to_string()));
    assert_eq!(plan.search_url, f.search_url);
    assert_eq!(plan.criteria_json, "{\"a\":1}");
    assert_eq!(plan.dedup_note, Some("twice".to_string()));
    match search_to_save(&plan) {
        SearchWrite::SaveSearch { search } => {
            assert_eq!(search.district, "中山區");
            assert_eq!(search.building_type, "華廈");
            assert_eq!(search.price_range, "2000_3000");
            assert_eq!(search.search_url, f.search_url);
            assert_eq!(search.artifact_url, plan.artifact_url);
            assert_eq!(search.criteria_json, "{\"a\":1}");
            assert_eq!(search.dedup_note, Some("twice".to_string()));
            assert_eq!(search.last_checked, Some(Date { year: 2026, month: 2, day: 5 }));
        }
        other => panic!("{other:?}"),
    }
    f.artifact_url = None;
    f.dedup_note = None;
    let plan = planned(&f).unwrap();
    assert_eq!(plan.artifact_url, None);
    assert_eq!(plan.dedup_note, None);
}

fn bad_date(file: &RawFile) -> (String, String, String) {
    match planned(file) {
        Err(ImportError::BadDate { field, text, owner }) => (field, text, owner),
        other => panic!("{other:?}"),
    }
}

#[test]
fn what_is_wrong_with_a_file_is_told_in_order() {
    let mut f = file();
    f.listings[3].delisted_date = Some("d".to_string());
    assert_eq!(bad_date(&f), ("delistedDate".to_string(), "d".to_string(), "4".to_string()));
    f.listings[3].first_seen = "f".to_string();
    assert_eq!(bad_date(&f), ("firstSeen".to_string(), "f".to_string(), "4".to_string()));
    f.listings[3].main_area = Some("m".to_string());
    assert!(matches!(planned(&f), Err(ImportError::BadMainArea { id }) if id == "4"));
    f.listings[3].area = "x".to_string();
    assert!(matches!(planned(&f), Err(ImportError::BadArea { id, area }) if id == "4" && area == "x"));
    f.listings[2].first_seen = "g".to_string();
    assert_eq!(bad_date(&f).2, "3");
    f.history[0].date = "h".to_string();
    assert_eq!(
        bad_date(&f),
        ("history.date".to_string(), "h".to_string(), f.search_url.clone())
    );
    f.last_checked = Some("l".to_string());
    assert_eq!(
        bad_date(&f),
        ("lastChecked".to_string(), "l".to_string(), f.search_url.clone())
    );
    f.search_url = "nothing".to_string();
    assert!(matches!(planned(&f), Err(ImportError::MissingParameter { .. })));
}

#[test]
fn a_ring_of_duplicates_is_not_taken_in() {
    let mut f = file();
    f.listings[2].duplicate_of = Some("1".to_string());
    assert!(import_file(&f, &numbers(&f)).is_none());
    // What is wrong before it is told all the same.
    f.listings[0].area = "x".to_string();
    assert!(matches!(planned(&f), Err(ImportError::BadArea { .. })));
}

#[test]
fn dates_that_were_read_decide() {
    let f = file();
    let d = Date { year: 2000, month: 1, day: 1 };
    let dates = FileDates {
        last_checked: Some(d),
        history: vec![Some(d)],
        first_seen: vec![Some(d); 4],
        delisted: vec![None, None, None, Some(d)],
    };
    assert!(can_plan(&f, &numbers(&f), &dates));
    let plan = plan_import(&f, &numbers(&f), &dates).unwrap();
    assert_eq!(plan.last_checked, Some(d));
    assert_eq!(plan.listings[1].first_seen, d);

    let dates = FileDates { first_seen: vec![Some(d), None, Some(d), Some(d)], ..dates };
    assert!(matches!(plan_import(&f, &numbers(&f), &dates),
        Err(ImportError::BadDate { field, owner, .. }) if field == "firstSeen" && owner == "2"));

    let read = read_dates(&f);
    assert_eq!(read.last_checked, Some(Date { year: 2026, month: 2, day: 5 }));
    assert_eq!(read.delisted[0], None);
    assert_eq!(read.delisted[3], Some(Date { year: 2026, month: 2, day: 3 }));
}

type Events = Vec<(i64, String, CheckRunEventType)>;

fn perform(record: &mut SearchRecord, events: &mut Events, steps: Vec<Step>) {
    for step in steps {
        match step {
            Step::DeleteEvents => events.clear(),
            Step::DeleteRuns => record.check_runs.clear(),
            Step::DeleteReviews => record.reviews.clear(),
            Step::DeleteListings => record.listings.clear(),
            Step::DeleteSearch => panic!("the search is still needed"),
            Step::AddEvent { check_run_id, listing_id, event_type } => {
                events.push((check_run_id, listing_id, event_type))
            }
            Step::AddListing { listing } => record.listings.push(listing),
        }
    }
}

fn take_in(record: &mut SearchRecord, events: &mut Events, plan: &ImportPlan, first_id: i64) {
    perform(record, events, clearing_steps());
    let mut run_ids = vec![];
    for run in &plan.runs {
        let id = first_id + run_ids.len() as i64;
        run_ids.push(id);
        record.check_runs.push(CheckRun {
            id,
            checked_date: run.checked_date,
            new_count: run.new_count,
            total_count: run.total_count,
            note: run.note.clone(),
        });
    }
    perform(record, events, filling_steps(plan, &run_ids));
}

#[test]
fn a_file_can_be_taken_in_again() {
    let mut f = file();
    f.history.push(RawHistoryEntry {
        date: "2026-02-05".to_string(),
        new_count: 0,
        total_count: 2,
        new_ids: vec![],
        delisted_ids: vec!["2".to_string()],
        note: None,
    });
    let plan = planned(&f).unwrap();
    let mut record = SearchRecord {
        tracked_search_id: 7,
        listings: vec![],
        reviews: vec![],
        check_runs: vec![],
        last_checked: None,
    };
    let mut events: Events = vec![];
    take_in(&mut record, &mut events, &plan, 11);
    let event = |id: i64, listing: &str, t| (id, listing.to_string(), t);
    let wanted = |first: i64| {
        vec![
            event(first, "1", CheckRunEventType::New),
            event(first, "2", CheckRunEventType::New),
            event(first, "4", CheckRunEventType::Delisted),
            event(first + 1, "2", CheckRunEventType::Delisted),
        ]
    };
    assert_eq!(events, wanted(11));
    let seen = |r: &SearchRecord| -> Vec<Option<i64>> {
        r.listings.iter().map(|l| l.last_seen_check_run_id).collect()
    };
    assert_eq!(seen(&record), vec![Some(12), Some(12), Some(12), None]);
    let listings = format!("{:?}", record.listings);

    // What happens to the search in between leaves no trace.
    record.reviews.push(Review {
        listing_id: "1".to_string(),
        decision: Some(ReviewDecision::Want),
        reason: None,
    });
    record.listings[0].delisted = true;
    record.listings.remove(1);
    record.check_runs.push(CheckRun {
        id: 13,
        checked_date: Date { year: 2026, month: 2, day: 6 },
        new_count: 0,
        total_count: 1,
        note: None,
    });
    events.push(event(13, "1", CheckRunEventType::Delisted));

    take_in(&mut record, &mut events, &plan, 21);
    assert_eq!(events, wanted(21));
    assert_eq!(seen(&record), vec![Some(22), Some(22), Some(22), None]);
    assert!(record.reviews.is_empty());
    assert_eq!(record.check_runs.iter().map(|r| r.id).collect::<Vec<i64>>(), vec![21, 22]);
    for l in &mut record.listings {
        if !l.delisted {
            l.last_seen_check_run_id = Some(12);
        }
    }
    assert_eq!(format!("{:?}", record.listings), listings);
}

#[test]
fn without_rounds_no_listing_was_seen() {
    let mut f = file();
    f.history.clear();
    let steps = filling_steps(&planned(&f).unwrap(), &vec![]);
    assert_eq!(steps.len(), 4);
    for (step, id) in steps.iter().zip(["1", "2", "3", "4"]) {
        assert!(matches!(step, Step::AddListing { listing }
            if listing.card.id == id && listing.last_seen_check_run_id.is_none()));
    }
}

#[test]
fn what_is_wrong_is_told_in_words() {
    let url = "https://x/?a=1";
    let told = |e: ImportError, quoted: &str| e.message(url, quoted);
    assert_eq!(
        parse_search_url(url).unwrap_err().message(url, ""),
        "searchUrl 缺少 section 參數: https://x/?a=1"
    );
    assert_eq!(
        told(ImportError::UnknownSection { section: "9".to_string() }, ""),
        "未知的 section=9，searchUrl: https://x/?a=1"
    );
    assert_eq!(
        told(ImportError::UnknownShape { shape: "8".to_string() }, ""),
        "未知的 shape=8，searchUrl: https://x/?a=1"
    );
    let e = ImportError::BadDate {
        field: "firstSeen".to_string(),
        text: "soon".to_string(),
        owner: "4".to_string(),
    };
    assert_eq!(told(e, "\"soon\""), "firstSeen 日期格式錯誤 \"soon\"（4）");
    let e = ImportError::BadArea { id: "4".to_string(), area: "x".to_string() };
    assert_eq!(told(e, "\"x\""), "area 格式錯誤 \"x\"（listing 4）");
    let e = ImportError::BadMainArea { id: "4".to_string() };
    assert_eq!(told(e, ""), "mainArea 格式錯誤（listing 4）");
}

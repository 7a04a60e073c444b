use taipei_housing::date::Date;
use taipei_housing::db::models::{CheckRun, CheckRunEventType, ReviewDecision};
use taipei_housing::db::record::{SearchRecord, Write};
use taipei_housing::db::tables::{clearing_steps, deleting_steps, Step};
use taipei_housing::double::Double;
use taipei_housing::scraper::ScrapedCard;

fn empty() -> SearchRecord {
    SearchRecord {
        tracked_search_id: 7,
        listings: vec![],
        reviews: vec![],
        check_runs: vec![],
        last_checked: None,
    }
}

fn insert(id: &str, duplicate_of: Option<&str>) -> Write {
    let double = Double { bits: 30.0_f64.to_bits() };
    Write::InsertListing {
        card: ScrapedCard {
            id: id.to_string(),
            title: "t".to_string(),
            price: 1,
            unit_price: double,
            rooms: "r".to_string(),
            area: double,
            main_area: None,
            age: None,
            floor: "f".to_string(),
            community: None,
            address: "a".to_string(),
            agent: None,
        },
        first_seen: Date { year: 2026, month: 1, day: 2 },
        duplicate_of: duplicate_of.map(|s| s.to_string()),
        note: Some("n".to_string()),
    }
}

#[test]
fn writes_change_the_record_as_statements_change_tables() {
    let mut r = empty();
    r.apply(&insert("1", None));
    r.apply(&insert("2", Some("1")));
    r.apply(&insert("3", Some("1")));
    assert_eq!(r.listings.len(), 3);
    assert_eq!(r.find_listing("2"), Some(1));
    assert_eq!(r.find_listing("4"), None);
    assert_eq!(r.count_active(), 1);

    r.apply(&Write::RepointDuplicates { from: "1".to_string(), to: "2".to_string() });
    assert_eq!(r.listings[1].duplicate_of, Some("2".to_string()));
    assert_eq!(r.listings[2].duplicate_of, Some("2".to_string()));
    r.apply(&Write::SetDuplicateOf { id: "2".to_string(), duplicate_of: None, note: None });
    assert_eq!(r.listings[1].duplicate_of, None);
    assert_eq!(r.listings[1].note, Some("n".to_string()));
    r.apply(&Write::SetDuplicateOf {
        id: "1".to_string(),
        duplicate_of: Some("2".to_string()),
        note: Some("m".to_string()),
    });
    assert_eq!(r.listings[0].duplicate_of, Some("2".to_string()));
    assert_eq!(r.listings[0].note, Some("m".to_string()));

    let date = Date { year: 2026, month: 3, day: 4 };
    r.apply(&Write::Delist { id: "2".to_string(), date });
    assert!(r.listings[1].delisted);
    assert_eq!(r.listings[1].delisted_date, Some(date));
    assert_eq!(r.count_active(), 0);
    r.apply(&Write::Relist { id: "2".to_string() });
    assert!(!r.listings[1].delisted);
    assert_eq!(r.listings[1].delisted_date, None);
    r.apply(&Write::MarkSeen { id: "3".to_string(), check_run_id: 9 });
    assert_eq!(r.listings[2].last_seen_check_run_id, Some(9));
    assert_eq!(r.listings[1].last_seen_check_run_id, None);
    r.apply(&Write::SetLastChecked { date });
    assert_eq!(r.last_checked, Some(date));
    r.apply(&Write::AddEvent {
        check_run_id: 9,
        listing_id: "3".to_string(),
        event_type: CheckRunEventType::New,
    });
    assert_eq!(r.listings.len(), 3);
}

#[test]
fn reviews_are_kept_once_per_listing() {
    let mut r = empty();
    r.apply(&Write::SaveReason { listing_id: "1".to_string(), reason: Some("a".to_string()) });
    assert_eq!(r.review_of("1").unwrap().decision, None);
    r.apply(&Write::SaveReview {
        listing_id: "1".to_string(),
        decision: Some(ReviewDecision::Want),
        reason: None,
    });
    assert_eq!(r.review_of("1").unwrap().decision, Some(ReviewDecision::Want));
    assert_eq!(r.review_of("1").unwrap().reason, None);
    r.apply(&Write::SaveReason { listing_id: "1".to_string(), reason: Some("b".to_string()) });
    assert_eq!(r.review_of("1").unwrap().decision, Some(ReviewDecision::Want));
    assert_eq!(r.review_of("1").unwrap().reason, Some("b".to_string()));
    assert_eq!(r.reviews.len(), 1);
    r.apply(&Write::DeleteReview { listing_id: "2".to_string() });
    assert_eq!(r.reviews.len(), 1);
    r.apply(&Write::DeleteReview { listing_id: "1".to_string() });
    assert!(r.review_of("1").is_none());
}

#[test]
fn last_round_is_that_with_the_largest_id() {
    let mut r = empty();
    assert_eq!(r.previous_run(), None);
    for id in [3, -5, 8, 4] {
        r.add_run(CheckRun {
            id,
            checked_date: Date { year: 2026, month: 1, day: 1 },
            new_count: 0,
            total_count: 0,
            note: None,
        });
    }
    assert_eq!(r.previous_run(), Some(8));
}

#[test]
fn words_of_the_tables() {
    assert_eq!(CheckRunEventType::New.as_str(), "new");
    assert_eq!(CheckRunEventType::Delisted.as_str(), "delisted");
    assert_eq!(ReviewDecision::Want.as_str(), "want");
    assert_eq!(ReviewDecision::Pass.as_str(), "pass");
    assert_eq!(ReviewDecision::parse("want"), Some(ReviewDecision::Want));
    assert_eq!(ReviewDecision::parse("pass"), Some(ReviewDecision::Pass));
    assert_eq!(ReviewDecision::parse("Want"), None);
}

#[test]
fn dates_are_written_and_read_back() {
    let date = |year, month, day| Date { year, month, day };
    for (d, text) in [
        (date(2026, 9, 1), "2026-09-01"),
        (date(2024, 2, 29), "2024-02-29"),
        (date(0, 1, 1), "0000-01-01"),
        (date(987, 12, 31), "0987-12-31"),
        (date(9999, 12, 31), "9999-12-31"),
        (date(10000, 10, 10), "+10000-10-10"),
        (date(-1, 1, 1), "-0001-01-01"),
        (date(262142, 12, 31), "+262142-12-31"),
        (date(-262143, 1, 1), "-262143-01-01"),
    ] {
        assert!(d.is_real());
        assert_eq!(d.to_text(), text);
        assert_eq!(Date::parse(text), Some(d));
    }
}

#[test]
fn days_of_the_calendar_are_known() {
    for year in [-262144, -262143, -400, -101, -100, -4, -1, 0, 1, 1900, 2000, 2023, 2024, 2100, 262142, 262143] {
        for month in 0..14 {
            for day in 0..33 {
                assert_eq!(
                    Date { year, month, day }.is_real(),
                    chrono::NaiveDate::from_ymd_opt(year, month, day).is_some(),
                    "{year} {month} {day}"
                );
            }
        }
    }
}

#[test]
fn dates_are_read() {
    assert_eq!(Date::parse("2026-09-01"), Some(Date { year: 2026, month: 9, day: 1 }));
    assert_eq!(Date::parse("2024-02-29"), Some(Date { year: 2024, month: 2, day: 29 }));
    assert_eq!(Date::parse("2026-02-29"), None);
    assert_eq!(Date::parse("2026-13-01"), None);
    assert_eq!(Date::parse("2026/09/01"), None);
    assert_eq!(Date::parse(""), None);
    assert_eq!(Date::parse("2026-09-01x"), None);
}

#[test]
fn a_search_is_deleted_with_all_that_it_had() {
    let steps = deleting_steps();
    assert!(matches!(
        steps.as_slice(),
        [
            Step::DeleteEvents,
            Step::DeleteRuns,
            Step::DeleteReviews,
            Step::DeleteListings,
            Step::DeleteSearch
        ]
    ));
    // To empty a search leaves its row.
    let steps = clearing_steps();
    assert_eq!(steps.len(), 4);
    assert!(!steps.iter().any(|s| matches!(s, Step::DeleteSearch)));
}

use taipei_housing::date::Date;
use taipei_housing::db::models::{Listing, ReviewDecision};
use taipei_housing::db::record::{SearchRecord, Write};
use taipei_housing::delist::{close_check_run, reconcile_tracked_search, ReconcileSummary};
use taipei_housing::double::Double;
use taipei_housing::scraper::ScrapedCard;

fn double(x: f64) -> Double {
    Double { bits: x.to_bits() }
}

fn make_tracked_search() -> SearchRecord {
    SearchRecord {
        tracked_search_id: 1,
        listings: vec![],
        reviews: vec![],
        check_runs: vec![],
        last_checked: None,
    }
}

fn card(
    id: &str,
    address: &str,
    floor: &str,
    area: f64,
    main_area: Option<f64>,
    age: Option<i64>,
) -> ScrapedCard {
    ScrapedCard {
        id: id.to_string(),
        title: format!("測試物件 {id}"),
        price: 3500,
        unit_price: double(95.0),
        rooms: "3房2廳2衛".to_string(),
        area: double(area),
        main_area: main_area.map(double),
        age,
        floor: floor.to_string(),
        community: Some("測試社區".to_string()),
        address: address.to_string(),
        agent: Some("仲介測試".to_string()),
    }
}

fn date(s: &str) -> Date {
    Date::parse(s).unwrap()
}

/// A whole round, with the ids that a database counts up.
fn round(record: &mut SearchRecord, checked_date: Date, scraped: Vec<ScrapedCard>) -> ReconcileSummary {
    let reconciliation = reconcile_tracked_search(record, checked_date, &scraped);
    let check_run_id = record.previous_run().unwrap_or(0) + 1;
    close_check_run(record, reconciliation, &scraped, check_run_id).0
}

fn listing<'a>(record: &'a SearchRecord, id: &str) -> &'a Listing {
    &record.listings[record.find_listing(id).unwrap()]
}

#[test]
fn two_brand_new_cards_in_same_scrape_dedupe_to_one_household() {
    let mut record = make_tracked_search();

    let summary = round(
        &mut record,
        date("2026-09-01"),
        vec![
            card("30000050", "松山區-測試路五", "8F/15F", 36.0, Some(27.0), Some(30)),
            card("30000051", "松山區-測試路五", "8F/15F", 36.0, Some(27.0), Some(30)),
        ],
    );

    assert_eq!(summary.total_active_representatives, 1, "兩筆同戶刊登應該只算一個代表");

    let mut rows: Vec<(String, Option<String>)> = record
        .listings
        .iter()
        .map(|l| (l.card.id.clone(), l.duplicate_of.clone()))
        .collect();
    rows.sort();
    assert_eq!(rows.len(), 2);
    assert_eq!(rows[0], ("30000050".to_string(), None), "先處理到的那筆是代表");
    assert_eq!(
        rows[1],
        ("30000051".to_string(), Some("30000050".to_string())),
        "後處理到的那筆要掛在代表底下，不是自己變成獨立代表"
    );
}

#[test]
fn representative_transfer_happens_without_any_new_card() {
    let mut record = make_tracked_search();

    round(
        &mut record,
        date("2026-09-01"),
        vec![
            card("30000060", "松山區-測試路六", "9F/11F", 38.0, Some(29.0), Some(25)),
            card("30000061", "松山區-測試路六", "9F/11F", 38.0, Some(29.0), Some(25)),
        ],
    );

    let summary = round(
        &mut record,
        date("2026-09-02"),
        vec![card("30000061", "松山區-測試路六", "9F/11F", 38.0, Some(29.0), Some(25))],
    );

    assert_eq!(summary.id_changes, vec![("30000060".to_string(), "30000061".to_string())]);
    assert!(summary.delisted_ids.is_empty(), "該戶還在架上（換了代表而已），不該被判下架");
    assert_eq!(listing(&record, "30000061").duplicate_of, None);
}

#[test]
fn new_household_is_inserted_as_representative() {
    let mut record = make_tracked_search();

    let cards = vec![card("30000001", "松山區-測試路", "5F/10F", 35.0, Some(28.0), Some(20))];
    let summary = round(&mut record, date("2026-09-01"), cards);

    assert_eq!(summary.new_ids, vec!["30000001".to_string()]);
    assert!(summary.delisted_ids.is_empty());
    assert_eq!(summary.total_active_representatives, 1);

    let l = listing(&record, "30000001");
    assert_eq!(l.duplicate_of, None);
    assert!(!l.delisted);
}

#[test]
fn id_change_transfers_representative_and_review() {
    let mut record = make_tracked_search();

    round(
        &mut record,
        date("2026-09-01"),
        vec![card("30000010", "松山區-測試路", "5F/10F", 35.0, Some(28.0), Some(20))],
    );

    record.apply(&Write::SaveReview {
        listing_id: "30000010".to_string(),
        decision: Some(ReviewDecision::Want),
        reason: Some("喜歡".to_string()),
    });

    let summary = round(
        &mut record,
        date("2026-09-02"),
        vec![card("30000099", "松山區-測試路", "5F/10F", 35.0, Some(28.0), Some(20))],
    );

    assert_eq!(summary.id_changes, vec![("30000010".to_string(), "30000099".to_string())]);
    assert!(summary.delisted_ids.is_empty(), "換id不該被判成下架");

    assert_eq!(
        listing(&record, "30000010").duplicate_of,
        Some("30000099".to_string()),
        "舊代表應該改指向新代表"
    );
    assert_eq!(listing(&record, "30000099").duplicate_of, None, "新id應該成為代表");

    assert!(record.review_of("30000010").is_none(), "評價不該留在舊id上");
    let new_review = record.review_of("30000099").unwrap();
    assert_eq!(new_review.decision.unwrap().as_str(), "want");
    assert_eq!(new_review.reason, Some("喜歡".to_string()));
}

#[test]
fn duplicate_listing_transfer_cascades_to_other_duplicates() {
    let mut record = make_tracked_search();

    round(
        &mut record,
        date("2026-09-01"),
        vec![
            card("30000020", "松山區-測試路二", "6F/12F", 40.0, Some(30.0), Some(15)),
            card("30000021", "松山區-測試路二", "6F/12F", 40.0, Some(30.0), Some(15)),
        ],
    );

    let summary = round(
        &mut record,
        date("2026-09-02"),
        vec![
            card("30000099", "松山區-測試路二", "6F/12F", 40.0, Some(30.0), Some(15)),
            card("30000021", "松山區-測試路二", "6F/12F", 40.0, Some(30.0), Some(15)),
        ],
    );

    assert_eq!(summary.id_changes, vec![("30000020".to_string(), "30000021".to_string())]);

    assert_eq!(
        listing(&record, "30000020").duplicate_of,
        Some("30000021".to_string()),
        "舊代表要指向新代表（既有的B，不是憑空冒出的C）"
    );
    assert_eq!(listing(&record, "30000021").duplicate_of, None, "B 應該成為新代表");
    assert_eq!(
        listing(&record, "30000099").duplicate_of,
        Some("30000021".to_string()),
        "C 是同戶第三筆刊登，應該掛在新代表B底下"
    );
}

#[test]
fn delisting_requires_two_consecutive_misses() {
    let mut record = make_tracked_search();

    round(
        &mut record,
        date("2026-09-01"),
        vec![card("30000030", "松山區-測試路三", "7F/9F", 33.0, None, None)],
    );

    let day2 = round(&mut record, date("2026-09-02"), vec![]);
    assert!(day2.delisted_ids.is_empty(), "第一次沒看到不該直接判下架");
    assert!(!listing(&record, "30000030").delisted);

    let day3 = round(&mut record, date("2026-09-03"), vec![]);
    assert_eq!(day3.delisted_ids, vec!["30000030".to_string()]);

    let l = listing(&record, "30000030");
    assert!(l.delisted);
    assert_eq!(l.delisted_date.map(|d| d.to_text()), Some("2026-09-03".to_string()));
}

#[test]
fn relisting_with_same_id_clears_delisted_flag() {
    let mut record = make_tracked_search();

    round(
        &mut record,
        date("2026-09-01"),
        vec![card("30000040", "松山區-測試路四", "2F/5F", 28.0, None, None)],
    );
    round(&mut record, date("2026-09-02"), vec![]);
    round(&mut record, date("2026-09-03"), vec![]);

    assert!(listing(&record, "30000040").delisted, "前置條件：這時應該已經判定下架");

    round(
        &mut record,
        date("2026-09-04"),
        vec![card("30000040", "松山區-測試路四", "2F/5F", 28.0, None, None)],
    );

    let l = listing(&record, "30000040");
    assert!(!l.delisted);
    assert_eq!(l.delisted_date, None);
}

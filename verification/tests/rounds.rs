use taipei_housing::date::Date;
use taipei_housing::db::models::{CheckRunEventType, Listing, ReviewDecision};
use taipei_housing::db::record::{SearchRecord, Write};
use taipei_housing::delist::{
    card_household_key, close_check_run, reconcile_tracked_search, ReconcileSummary,
};
use taipei_housing::double::Double;
use taipei_housing::scraper::ScrapedCard;

fn double(x: f64) -> Double {
    Double { bits: x.to_bits() }
}

fn empty() -> SearchRecord {
    SearchRecord {
        tracked_search_id: 7,
        listings: vec![],
        reviews: vec![],
        check_runs: vec![],
        last_checked: None,
    }
}

fn card(id: &str, address: &str, floor: &str, area: f64) -> ScrapedCard {
    ScrapedCard {
        id: id.to_string(),
        title: format!("title of {id}"),
        price: 3500,
        unit_price: double(95.0),
        rooms: "3房2廳2衛".to_string(),
        area: double(area),
        main_area: None,
        age: None,
        floor: floor.to_string(),
        community: None,
        address: address.to_string(),
        agent: None,
    }
}

fn day(n: u32) -> Date {
    Date { year: 2026, month: 9, day: n }
}

fn round(record: &mut SearchRecord, checked_date: Date, scraped: Vec<ScrapedCard>) -> ReconcileSummary {
    let reconciliation = reconcile_tracked_search(record, checked_date, &scraped);
    let check_run_id = record.previous_run().unwrap_or(0) + 1;
    close_check_run(record, reconciliation, &scraped, check_run_id).0
}

fn listing<'a>(record: &'a SearchRecord, id: &str) -> &'a Listing {
    &record.listings[record.find_listing(id).unwrap()]
}

fn representative_of(record: &SearchRecord, id: &str) -> String {
    let l = listing(record, id);
    l.duplicate_of.clone().unwrap_or(l.card.id.clone())
}

/// Ids are unique, and every duplicate is one of a representative.
fn assert_sound(record: &SearchRecord) {
    for (i, l) in record.listings.iter().enumerate() {
        for m in &record.listings[i + 1..] {
            assert_ne!(l.card.id, m.card.id);
        }
        if let Some(d) = &l.duplicate_of {
            assert_eq!(listing(record, d).duplicate_of, None);
        }
    }
}

#[test]
fn smallest_number_takes_the_place_of_a_missing_representative() {
    let mut record = empty();
    let a = |id: &str| card(id, "A", "1F/2F", 30.0);
    round(&mut record, day(1), vec![a("500"), a("70"), a("9"), a("x"), a("1000")]);
    assert_eq!(representative_of(&record, "9"), "500");
    let summary = round(&mut record, day(2), vec![a("1000"), a("x"), a("70"), a("9")]);
    assert_eq!(summary.id_changes, vec![("500".to_string(), "9".to_string())]);
    assert!(summary.new_ids.is_empty());
    for id in ["500", "70", "9", "x", "1000"] {
        assert_eq!(representative_of(&record, id), "9");
    }
    assert_eq!(
        listing(&record, "500").note,
        Some("代表轉移給 9（原代表本身已從頁面消失，但同戶其他刊登仍在架）".to_string())
    );
    assert_eq!(listing(&record, "9").note, None);
    assert_sound(&record);
}

#[test]
fn ids_without_a_number_come_last_and_the_first_of_them_wins() {
    let mut record = empty();
    let a = |id: &str| card(id, "A", "1F/2F", 30.0);
    round(&mut record, day(1), vec![a("1"), a("y"), a("x")]);
    let summary = round(&mut record, day(2), vec![a("x"), a("y")]);
    assert_eq!(summary.id_changes, vec![("1".to_string(), "y".to_string())]);
}

#[test]
fn writes_of_a_round_are_told_in_order() {
    let mut record = empty();
    let a = |id: &str| card(id, "A", "1F/2F", 30.0);
    round(&mut record, day(1), vec![a("10")]);
    record.apply(&Write::SaveReview {
        listing_id: "10".to_string(),
        decision: Some(ReviewDecision::Pass),
        reason: None,
    });
    let scraped = vec![a("20"), card("30", "B", "1F/2F", 40.0)];
    let rec = reconcile_tracked_search(&mut record, day(2), &scraped);
    assert_eq!(rec.new_ids, vec!["20".to_string(), "30".to_string()]);
    assert_eq!(rec.id_changes, vec![("10".to_string(), "20".to_string())]);
    assert_eq!(rec.total_active_representatives, 2);
    assert_eq!(rec.note, "新增 2 筆、下架 0 筆、換id轉移 1 筆");
    assert_eq!(rec.checked_date, day(2));
    assert_eq!(rec.writes.len(), 6);
    assert!(matches!(&rec.writes[0], Write::InsertListing { card, duplicate_of: None, note: Some(n), first_seen }
        if card.id == "20" && n == "由 10 轉移而來（591 id 換了但內容判定為同一戶）" && *first_seen == day(2)));
    assert!(matches!(&rec.writes[1], Write::RepointDuplicates { from, to } if from == "10" && to == "20"));
    assert!(matches!(&rec.writes[2], Write::SetDuplicateOf { id, duplicate_of: Some(d), note: None }
        if id == "10" && d == "20"));
    assert!(matches!(&rec.writes[3], Write::SaveReview { listing_id, decision: Some(ReviewDecision::Pass), reason: None }
        if listing_id == "20"));
    assert!(matches!(&rec.writes[4], Write::DeleteReview { listing_id } if listing_id == "10"));
    assert!(matches!(&rec.writes[5], Write::InsertListing { card, duplicate_of: None, note: None, .. }
        if card.id == "30"));

    let (summary, writes) = close_check_run(&mut record, rec, &scraped, 2);
    assert_eq!(summary.check_run_id, 2);
    assert_eq!(writes.len(), 5);
    assert!(matches!(&writes[0], Write::MarkSeen { id, check_run_id: 2 } if id == "20"));
    assert!(matches!(&writes[1], Write::MarkSeen { id, check_run_id: 2 } if id == "30"));
    assert!(matches!(&writes[2], Write::AddEvent { check_run_id: 2, listing_id, event_type: CheckRunEventType::New }
        if listing_id == "20"));
    assert!(matches!(&writes[3], Write::AddEvent { check_run_id: 2, listing_id, event_type: CheckRunEventType::New }
        if listing_id == "30"));
    assert!(matches!(&writes[4], Write::SetLastChecked { date } if *date == day(2)));

    assert_eq!(record.last_checked, Some(day(2)));
    assert_eq!(record.check_runs.len(), 2);
    assert_eq!(record.check_runs[1].new_count, 2);
    assert_eq!(record.check_runs[1].total_count, 2);
    assert_eq!(
        record.check_runs[1].note,
        Some("新增 2 筆、下架 0 筆、換id轉移 1 筆".to_string())
    );
    assert_eq!(listing(&record, "20").last_seen_check_run_id, Some(2));
    assert_eq!(listing(&record, "10").last_seen_check_run_id, Some(1));
}

#[test]
fn a_card_may_come_twice() {
    let mut record = empty();
    let mut again = card("10", "A", "1F/2F", 30.0);
    again.price = 3000;
    let scraped = vec![card("10", "A", "1F/2F", 30.0), again];
    let rec = reconcile_tracked_search(&mut record, day(1), &scraped);
    assert_eq!(rec.new_ids, vec!["10".to_string()]);
    let (_, writes) = close_check_run(&mut record, rec, &scraped, 1);
    assert_eq!(writes.len(), 3);
    assert_eq!(record.listings.len(), 1);
    assert_eq!(listing(&record, "10").card.price, 3000);
}

#[test]
fn known_listing_is_updated_and_keeps_its_first_day() {
    let mut record = empty();
    round(&mut record, day(1), vec![card("10", "A", "1F/2F", 30.0)]);
    let mut changed = card("10", "A2", "2F/2F", 31.0);
    changed.title = "another title".to_string();
    round(&mut record, day(2), vec![changed]);
    let l = listing(&record, "10");
    assert_eq!(l.card.title, "another title");
    assert_eq!(l.card.address, "A2");
    assert_eq!(l.first_seen, day(1));
    assert_eq!(l.last_seen_check_run_id, Some(2));
}

#[test]
fn a_listing_is_compared_as_it_was_when_the_round_began() {
    let mut record = empty();
    round(&mut record, day(1), vec![card("10", "A", "1F/2F", 30.0)]);
    // The listing moves to another address in the round in which a new card
    // shows its old one.
    let summary = round(
        &mut record,
        day(2),
        vec![card("10", "B", "1F/2F", 50.0), card("11", "A", "1F/2F", 30.0)],
    );
    assert_eq!(summary.total_active_representatives, 1);
    assert_eq!(representative_of(&record, "11"), "10");
}

#[test]
fn listing_found_today_is_preferred_to_one_that_is_missing() {
    let mut record = empty();
    round(&mut record, day(1), vec![card("10", "A", "1F/2F", 30.0), card("20", "B", "1F/2F", 30.0)]);
    // The new card matches both, by its community and its address.
    record.listings[0].card.community = Some("C".to_string());
    record.listings[1].card.community = Some("C".to_string());
    let mut new = card("30", "A", "1F/2F", 30.0);
    new.community = Some("C".to_string());
    let mut other = card("20", "B", "1F/2F", 30.0);
    other.community = Some("C".to_string());
    let summary = round(&mut record, day(2), vec![new, other]);
    assert!(summary.id_changes.is_empty());
    assert_eq!(representative_of(&record, "30"), "20");
}

#[test]
fn a_missing_duplicate_gets_a_new_id_below_its_representative() {
    let mut record = empty();
    let mut b = card("20", "A", "1F/2F", 30.0);
    b.main_area = Some(double(20.0));
    b.age = Some(5);
    round(&mut record, day(1), vec![card("10", "A", "1F/2F", 30.0), b]);
    assert_eq!(representative_of(&record, "20"), "10");
    // Both are gone; the new card matches the duplicate alone.
    let mut new = card("30", "Z", "9F/9F", 30.0);
    new.main_area = Some(double(20.0));
    new.age = Some(5);
    let summary = round(&mut record, day(2), vec![new]);
    assert_eq!(summary.id_changes, vec![("20".to_string(), "30".to_string())]);
    for id in ["10", "20", "30"] {
        assert_eq!(representative_of(&record, id), "10");
    }
    assert!(!listing(&record, "10").delisted);
    assert_sound(&record);
    // The representative itself has been missing for two rounds now.
    let summary = round(&mut record, day(3), vec![]);
    assert_eq!(summary.delisted_ids, vec!["10".to_string()]);
}

#[test]
fn household_comes_back_when_one_of_its_listings_does() {
    let mut record = empty();
    let a = |id: &str| card(id, "A", "1F/2F", 30.0);
    round(&mut record, day(1), vec![a("10")]);
    round(&mut record, day(2), vec![]);
    let gone = round(&mut record, day(3), vec![]);
    assert_eq!(gone.delisted_ids, vec!["10".to_string()]);
    assert_eq!(gone.total_active_representatives, 0);
    // Under a new id.
    let summary = round(&mut record, day(4), vec![a("20")]);
    assert_eq!(summary.id_changes, vec![("10".to_string(), "20".to_string())]);
    assert_eq!(summary.total_active_representatives, 1);
    assert!(!listing(&record, "20").delisted);
    assert!(listing(&record, "10").delisted);
}

#[test]
fn representative_off_the_market_is_put_on_it_with_a_new_duplicate() {
    let mut record = empty();
    let mut b = card("20", "A", "1F/2F", 30.0);
    b.main_area = Some(double(20.0));
    b.age = Some(5);
    round(&mut record, day(1), vec![card("10", "A", "1F/2F", 30.0), b]);
    round(&mut record, day(2), vec![]);
    round(&mut record, day(3), vec![]);
    assert!(listing(&record, "10").delisted);
    let mut new = card("30", "Z", "9F/9F", 30.0);
    new.main_area = Some(double(20.0));
    new.age = Some(5);
    let scraped = vec![new];
    let rec = reconcile_tracked_search(&mut record, day(4), &scraped);
    assert!(matches!(rec.writes.last(), Some(Write::Relist { id }) if id == "10"));
    assert!(!listing(&record, "10").delisted);
    assert_eq!(listing(&record, "10").delisted_date, None);
}

#[test]
fn nothing_is_delisted_before_there_was_a_round() {
    let mut record = empty();
    record.apply(&Write::InsertListing {
        card: card("10", "A", "1F/2F", 30.0),
        first_seen: day(1),
        duplicate_of: None,
        note: None,
    });
    let first = round(&mut record, day(2), vec![]);
    assert!(first.delisted_ids.is_empty());
    // Never seen in a round, so that the next one is enough.
    let second = round(&mut record, day(3), vec![]);
    assert_eq!(second.delisted_ids, vec!["10".to_string()]);
    // Off the market it stays as it is.
    let third = round(&mut record, day(4), vec![]);
    assert!(third.delisted_ids.is_empty());
    assert_eq!(listing(&record, "10").delisted_date, Some(day(3)));
}

#[test]
fn events_tell_what_is_gone() {
    let mut record = empty();
    round(&mut record, day(1), vec![card("10", "A", "1F/2F", 30.0)]);
    round(&mut record, day(2), vec![]);
    let rec = reconcile_tracked_search(&mut record, day(3), &vec![]);
    assert!(matches!(rec.writes.as_slice(), [Write::Delist { id, date }] if id == "10" && *date == day(3)));
    assert_eq!(rec.note, "新增 0 筆、下架 1 筆、換id轉移 0 筆");
    let (_, writes) = close_check_run(&mut record, rec, &vec![], 3);
    assert!(matches!(&writes[0], Write::AddEvent { listing_id, event_type: CheckRunEventType::Delisted, check_run_id: 3 }
        if listing_id == "10"));
}

#[test]
fn review_of_a_missing_representative_replaces_that_of_its_heir() {
    let mut record = empty();
    let a = |id: &str| card(id, "A", "1F/2F", 30.0);
    round(&mut record, day(1), vec![a("10"), a("20")]);
    for (id, reason) in [("10", "first"), ("20", "second"), ("10", "third")] {
        record.apply(&Write::SaveReview {
            listing_id: id.to_string(),
            decision: Some(ReviewDecision::Want),
            reason: Some(reason.to_string()),
        });
    }
    round(&mut record, day(2), vec![a("20")]);
    assert!(record.review_of("10").is_none());
    assert_eq!(record.review_of("20").unwrap().reason, Some("third".to_string()));
    assert_eq!(record.reviews.len(), 1);
}

#[test]
fn the_same_cards_again_bring_nothing_new() {
    let mut record = empty();
    let scraped = || {
        vec![
            card("10", "A", "1F/2F", 30.0),
            card("11", "A", "1F/2F", 30.0),
            card("20", "B", "1F/2F", 30.0),
        ]
    };
    let first = round(&mut record, day(1), scraped());
    assert_eq!(first.new_ids.len(), 3);
    assert_eq!(first.total_active_representatives, 2);
    let second = round(&mut record, day(2), scraped());
    assert!(second.new_ids.is_empty());
    assert!(second.id_changes.is_empty());
    assert_eq!(second.total_active_representatives, 2);
    assert_eq!(record.count_active(), 2);
}

#[test]
fn a_new_card_that_matches_what_is_missing_is_no_new_household() {
    let mut record = empty();
    round(&mut record, day(1), vec![card("10", "A", "1F/2F", 30.0), card("20", "B", "1F/2F", 30.0)]);
    let summary = round(&mut record, day(2), vec![card("30", "A", "1F/2F", 30.05)]);
    assert_eq!(summary.new_ids, vec!["30".to_string()]);
    assert_eq!(representative_of(&record, "10"), representative_of(&record, "30"));
    assert_eq!(summary.total_active_representatives, 2);
}

#[test]
fn many_rounds_keep_the_record_sound() {
    let mut state: u64 = 42;
    let mut next = move |n: u64| {
        state = state.wrapping_mul(6364136223846793005).wrapping_add(1442695040888963407);
        (state >> 33) % n
    };
    for _ in 0..40 {
        let mut record = empty();
        for n in 1..12u32 {
            let mut scraped = vec![];
            for _ in 0..next(7) {
                let mut c = card(
                    &format!("{}", next(25)),
                    &format!("road {}", next(4)),
                    &format!("{}F/9F", 1 + next(2)),
                    30.0 + next(3) as f64 * 0.06,
                );
                if next(2) == 0 {
                    c.main_area = Some(double(20.0));
                    c.age = Some(next(2) as i64);
                }
                scraped.push(c);
            }
            let before = record.listings.len();
            let ids: Vec<String> = record.listings.iter().map(|l| l.card.id.clone()).collect();
            let reps: Vec<String> = ids.iter().map(|id| representative_of(&record, id)).collect();
            let were_off: Vec<bool> = record.listings.iter().map(|l| l.delisted).collect();
            let found: Vec<String> = scraped.iter().map(|c| c.id.clone()).collect();
            let summary = round(&mut record, day(n), scraped);
            assert_sound(&record);
            assert_eq!(record.listings.len(), before + summary.new_ids.len());
            for (i, id) in ids.iter().enumerate() {
                assert_eq!(&record.listings[i].card.id, id);
                for (j, other) in ids.iter().enumerate() {
                    if reps[i] == reps[j] {
                        assert_eq!(representative_of(&record, id), representative_of(&record, other));
                    }
                }
            }
            for id in &found {
                assert!(!listing(&record, id).delisted);
                assert_eq!(listing(&record, id).last_seen_check_run_id, Some(n as i64));
                assert!(!listing(&record, &representative_of(&record, id)).delisted);
            }
            for (old, new) in &summary.id_changes {
                assert_eq!(representative_of(&record, old), representative_of(&record, new));
                assert!(!summary.delisted_ids.contains(old));
                assert!(!summary.delisted_ids.contains(new));
            }
            for (i, id) in ids.iter().enumerate() {
                assert_eq!(
                    summary.delisted_ids.contains(id),
                    !were_off[i] && record.listings[i].delisted
                );
            }
            let active = record
                .listings
                .iter()
                .filter(|l| l.duplicate_of.is_none() && !l.delisted)
                .count();
            assert_eq!(summary.total_active_representatives, active as i64);
        }
    }
}

#[test]
fn key_of_a_card_is_what_tells_its_household() {
    let mut c = card("10", "A", "1F/2F", 30.0);
    c.community = Some("C".to_string());
    c.main_area = Some(double(20.0));
    c.age = Some(5);
    let key = card_household_key(&c);
    assert_eq!(key.community, Some("C"));
    assert_eq!(key.address, "A");
    assert_eq!(key.floor, "1F/2F");
    assert_eq!(key.area.bits, 30.0_f64.to_bits());
    assert_eq!(key.main_area.unwrap().bits, 20.0_f64.to_bits());
    assert_eq!(key.age, Some(5));
}

use taipei_housing::date::Date;
use taipei_housing::db::models::{NewSearch, ReviewDecision, TrackedSearch};
use taipei_housing::db::record::Write;
use taipei_housing::db::tables::SearchWrite;
use taipei_housing::double::Double;
use taipei_housing::import_json::parse_search_url;
use taipei_housing::json::to_json;
use taipei_housing::pipeline::PipelineRunner;
use taipei_housing::scraper::ScrapedCard;
use taipei_housing::web::handlers::{
    add_reply, add_tracked_search, delete_reply, group_label, parse_known_pattern, refresh_one,
    render_index, review_reply, run_now, submit_review, AddTrackedSearchForm, ListingRow, Reply,
    ReviewForm, ReviewMark, TrackedSearchRow,
};
use taipei_housing::web::templates::Stats;

fn search(id: i64, name: Option<&str>) -> TrackedSearchRow {
    TrackedSearchRow {
        id,
        district: "松山區".to_string(),
        building_type: "華廈".to_string(),
        price_range: "3000_4000".to_string(),
        name: name.map(|s| s.to_string()),
        search_url: format!("https://example.com/{id}"),
    }
}

fn row(search: i64, id: &str, first_seen: Date) -> ListingRow {
    let double = Double { bits: 36.3_f64.to_bits() };
    ListingRow {
        tracked_search_id: search,
        card: ScrapedCard {
            id: id.to_string(),
            title: "t".to_string(),
            price: 5,
            unit_price: double,
            rooms: "r".to_string(),
            area: double,
            main_area: Some(double),
            age: Some(3),
            floor: "f".to_string(),
            community: Some("c".to_string()),
            address: "a".to_string(),
            agent: Some("g".to_string()),
        },
        delisted: true,
        note: Some("n".to_string()),
        decision: Some("want".to_string()),
        reason: Some("because".to_string()),
        first_seen,
    }
}

fn day(n: u32) -> Date {
    Date { year: 2026, month: 9, day: n }
}

#[test]
fn searches_are_shown_under_their_names() {
    assert_eq!(group_label(&search(1, None)), "松山區華廈3000_4000");
    assert_eq!(group_label(&search(1, Some("mine"))), "mine");
    assert_eq!(group_label(&search(1, Some(""))), "");
}

#[test]
fn page_shows_each_listing_under_its_search() {
    let mark = |id: i64, decision: Option<&str>| ReviewMark {
        tracked_search_id: id,
        decision: decision.map(|s| s.to_string()),
    };
    let marks = vec![
        mark(1, Some("want")),
        mark(2, Some("want")),
        mark(1, None),
        mark(1, Some("pass")),
        mark(1, Some("want")),
    ];
    let searches = vec![search(1, None), search(2, Some("two")), search(3, Some("three"))];
    let rows = vec![
        row(2, "b1", day(1)),
        row(1, "a1", day(2)),
        row(9, "lost", day(2)),
        row(2, "b2", day(2)),
    ];
    let page = render_index(day(2), &marks, &searches, &rows);
    assert_eq!(page.groups.len(), 3);
    let shown: Vec<Vec<(String, bool)>> = page
        .groups
        .iter()
        .map(|g| g.listings.iter().map(|l| (l.id.clone(), l.is_new_today)).collect())
        .collect();
    assert_eq!(shown[0], vec![("a1".to_string(), true)]);
    assert_eq!(shown[1], vec![("b1".to_string(), false), ("b2".to_string(), true)]);
    assert!(shown[2].is_empty());
    assert_eq!(page.groups[1].label, "two");
    assert_eq!(page.groups[1].search_url, "https://example.com/2");
    assert_eq!(page.groups[1].tracked_search_id, 2);
    assert_eq!(
        page.groups[0].stats,
        Stats { tracked_count: 0, new_today: 0, reviewed_count: 3, want_count: 2, delisted_count: 1 }
    );
    assert_eq!(page.groups[2].stats, Stats::default());
    let l = &page.groups[0].listings[0];
    assert_eq!(l.tracked_search_id, 1);
    assert_eq!(l.price, 5);
    assert_eq!(l.agent, Some("g".to_string()));
    assert_eq!(l.reason, Some("because".to_string()));
    assert!(l.delisted);
    assert_eq!(l.detail_url(), "https://sale.591.com.tw/home/house/detail/2/a1.html");
    assert!(l.decision_is("want"));
    assert!(!l.decision_is("pass"));
}

#[test]
fn figures_are_those_of_the_cards() {
    let on_market = |search: i64, id: &str, first_seen: Date| ListingRow {
        delisted: false,
        ..row(search, id, first_seen)
    };
    let rows = vec![
        on_market(1, "a1", day(2)),
        on_market(2, "b1", day(2)),
        on_market(1, "a2", day(1)),
        on_market(1, "a3", day(2)),
        // Seen today for the first time and gone already.
        row(1, "a4", day(2)),
        row(1, "a5", day(1)),
    ];
    let page = render_index(day(2), &vec![], &vec![search(1, None), search(2, None)], &rows);
    for g in &page.groups {
        let count = |f: &dyn Fn(bool, bool) -> bool| {
            g.listings.iter().filter(|l| f(l.delisted, l.is_new_today)).count() as i64
        };
        assert_eq!(g.stats.tracked_count, count(&|delisted, _| !delisted));
        assert_eq!(g.stats.new_today, count(&|delisted, new| !delisted && new));
        assert_eq!(g.stats.delisted_count, count(&|delisted, _| delisted));
    }
    assert_eq!(
        page.groups[0].stats,
        Stats { tracked_count: 3, new_today: 2, reviewed_count: 0, want_count: 0, delisted_count: 2 }
    );
    assert_eq!(
        page.groups[1].stats,
        Stats { tracked_count: 1, new_today: 1, reviewed_count: 0, want_count: 0, delisted_count: 0 }
    );
}

fn redirect(reply: &Reply) -> &str {
    match reply {
        Reply::Redirect { to } => to,
        other => panic!("{other:?}"),
    }
}

#[test]
fn runs_are_started_from_the_page() {
    let mut runner = PipelineRunner::new();
    let (started, reply) = run_now(&mut runner);
    assert!(started);
    assert_eq!(redirect(&reply), "/?updating=started");
    let (started, reply) = run_now(&mut runner);
    assert!(!started);
    assert_eq!(redirect(&reply), "/?updating=already");
    let (started, reply) = refresh_one(&mut runner, 12);
    assert!(!started);
    assert_eq!(redirect(&reply), "/?group=12&updating=already");
    runner.finish(&vec![], "".to_string());
    let (started, reply) = refresh_one(&mut runner, -3);
    assert!(started);
    assert_eq!(redirect(&reply), "/?group=-3&updating=started");
    let status = runner.status();
    assert!(status.running);
    assert_eq!((status.total, status.completed), (0, 0));
    assert_eq!(status.current_label, None);
    assert_eq!(status.last_result.unwrap().finished_at, "");
}

#[test]
fn searches_are_deleted_from_the_page() {
    assert_eq!(redirect(&delete_reply(true)), "/");
    assert!(matches!(delete_reply(false), Reply::ServerError { message } if message == "刪除失敗"));
}

fn form(decision: Option<&str>, reason: &str) -> ReviewForm {
    ReviewForm {
        tracked_search_id: 4,
        listing_id: "30000001".to_string(),
        decision: decision.map(|s| s.to_string()),
        reason: reason.to_string(),
    }
}

#[test]
fn reviews_are_taken_in() {
    assert!(matches!(submit_review(&form(Some("want"), "  喜歡 \n")).unwrap(),
        Write::SaveReview { listing_id, decision: Some(ReviewDecision::Want), reason: Some(r) }
        if listing_id == "30000001" && r == "喜歡"));
    assert!(matches!(submit_review(&form(Some("pass"), " \u{3000}")).unwrap(),
        Write::SaveReview { decision: Some(ReviewDecision::Pass), reason: None, .. }));
    assert!(matches!(submit_review(&form(None, "x")).unwrap(),
        Write::SaveReason { listing_id, reason: Some(r) } if listing_id == "30000001" && r == "x"));
    for word in ["", "Want", "want ", "maybe"] {
        assert!(matches!(submit_review(&form(Some(word), "")),
            Err(Reply::BadRequest { message }) if message == "decision 必須是 want 或 pass"));
    }
}

#[test]
fn reviews_are_answered() {
    assert_eq!(redirect(&review_reply(&form(Some("want"), ""), true)), "/?group=4");
    assert!(matches!(review_reply(&form(None, ""), true), Reply::NoContent));
    for decision in [None, Some("want")] {
        assert!(matches!(review_reply(&form(decision, ""), false),
            Reply::ServerError { message } if message == "寫入評價失敗"));
    }
}

fn add(name: &str, url: &str) -> AddTrackedSearchForm {
    AddTrackedSearchForm { name: name.to_string(), search_url: url.to_string() }
}

fn added(form: &AddTrackedSearchForm) -> NewSearch {
    match add_tracked_search(form) {
        Ok(SearchWrite::AddSearch { search }) => search,
        other => panic!("{other:?}"),
    }
}

#[test]
fn new_searches_are_taken_in() {
    let s = added(&add(
        " 我的\"清單\" ",
        "\thttps://sale.591.com.tw/?section=3&shape=2&price=1_2 ",
    ));
    assert_eq!(s.name, "我的\"清單\"");
    assert_eq!(s.search_url, "https://sale.591.com.tw/?section=3&shape=2&price=1_2");
    assert_eq!(s.district, "中山區");
    assert_eq!(s.building_type, "電梯大樓");
    assert_eq!(s.price_range, "1_2");
    assert_eq!(s.criteria_json, "\"我的\\\"清單\\\"\"");

    let s = added(&add("x", "http://example.com"));
    assert_eq!(s.district, "");
    assert_eq!(s.building_type, "");
    assert_eq!(s.price_range, "");
    assert_eq!(s.criteria_json, "\"x\"");
}

#[test]
fn what_is_wrong_with_a_new_search_is_told() {
    for (name, url) in [("", "http://x"), ("  ", "http://x"), ("x", ""), ("x", " "), ("", "")] {
        assert!(matches!(add_tracked_search(&add(name, url)),
            Err(Reply::BadRequest { message }) if message == "名稱和搜尋網址都要填"));
    }
    for url in ["ftp://x", "example.com", "http:/x", "HTTP://x"] {
        assert!(matches!(add_tracked_search(&add("x", url)),
            Err(Reply::BadRequest { message }) if message == "搜尋網址看起來不是有效的網址"));
    }
    assert_eq!(redirect(&add_reply(Some(17))), "/?group=17");
    assert!(matches!(add_reply(None), Reply::ServerError { message } if message == "新增失敗"));
}

#[test]
fn patterns_are_read_as_in_files() {
    for url in [
        "https://sale.591.com.tw/?section=4&shape=5&price=3000_4000",
        "section=3&shape=2&price=",
        "?section=3&shape=2",
        "?section=3&price=1",
        "?shape=2&price=1",
        "?section=5&shape=2&price=1",
        "?section=3&shape=3&price=1",
        "",
    ] {
        assert_eq!(parse_known_pattern(url), parse_search_url(url).ok());
    }
    assert_eq!(
        parse_known_pattern("?section=4&shape=5&price=9"),
        Some(("松山區".to_string(), "華廈".to_string(), "9".to_string()))
    );
}

#[test]
fn texts_are_written_as_json() {
    assert_eq!(to_json("").unwrap(), "\"\"");
    assert_eq!(to_json("a\"b\\c/d").unwrap(), "\"a\\\"b\\\\c/d\"");
    assert_eq!(to_json("\u{8}\t\n\u{c}\r").unwrap(), "\"\\b\\t\\n\\f\\r\"");
    assert_eq!(to_json("\u{0}\u{1f}\u{7f}é松").unwrap(), "\"\\u0000\\u001f\u{7f}é松\"");
}

/// Adds a search the way the database does.
fn save(searches: &mut Vec<TrackedSearch>, new: NewSearch, new_id: i64) -> i64 {
    if let Some(s) = searches.iter_mut().find(|s| s.search_url == new.search_url) {
        s.name = Some(new.name);
        return s.id;
    }
    searches.push(TrackedSearch {
        id: new_id,
        district: new.district,
        building_type: new.building_type,
        price_range: new.price_range,
        name: Some(new.name),
        search_url: new.search_url,
        artifact_url: None,
        criteria_json: new.criteria_json,
        dedup_note: None,
        last_checked: None,
    });
    new_id
}

#[test]
fn an_address_is_followed_once() {
    let url = "https://sale.591.com.tw/?section=4&shape=5&price=1_2";
    let mut searches = vec![];
    assert_eq!(save(&mut searches, added(&add("one", url)), 1), 1);
    assert_eq!(save(&mut searches, added(&add("other", "https://example.com")), 2), 2);
    let other = format!("{:?}", searches[1]);
    assert_eq!(save(&mut searches, added(&add("two", &format!(" {url}\n"))), 3), 1);
    assert_eq!(searches.len(), 2);
    assert_eq!(searches[0].name, Some("two".to_string()));
    // What was written down with the first name stays.
    assert_eq!(searches[0].criteria_json, "\"one\"");
    assert_eq!(searches[0].district, "松山區");
    assert_eq!(format!("{:?}", searches[1]), other);
}

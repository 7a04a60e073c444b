use taipei_housing::double::Double;
use taipei_housing::scraper::pages::{
    drop_tracking_redirects, next_page_link, parse_declared_total, PageWalk,
};
use taipei_housing::scraper::parse::{
    count_without_id, is_page_readable, is_readable, needs_retry, number_texts, parse_card,
    parse_page, parse_price, CardError, CardNumbers, RawCardJs,
};
use taipei_housing::scraper::{contains_card, dedup_by_id, ScrapedCard};

fn texts(attrs: &[&str]) -> Vec<String> {
    attrs.iter().map(|s| s.to_string()).collect()
}

fn raw() -> RawCardJs {
    RawCardJs {
        id: Some("18000001".to_string()),
        title: Some("採光三房".to_string()),
        attrs: texts(&["電梯大樓", "3房2廳2衛", "權狀36.3坪", "主建26.09坪", "37年", "15F/20F"]),
        community: Some("建成花園廣場".to_string()),
        section: "松山區-".to_string(),
        address: "民生東路五段".to_string(),
        agent: Some("仲介王".to_string()),
        price_value: "2,688".to_string(),
        price_section_text: "2,688萬 87.33萬/坪".to_string(),
    }
}

/// Reads the numbers of a card the way the program does.
fn numbers(raw: &RawCardJs) -> CardNumbers {
    let read = |t: &Option<String>| {
        t.as_ref()
            .and_then(|s| s.parse::<f64>().ok())
            .map(|x| Double { bits: x.to_bits() })
    };
    let wanted = number_texts(raw);
    CardNumbers { attrs: wanted.attrs.iter().map(read).collect(), unit_price: read(&wanted.unit_price) }
}

fn parsed(raw: RawCardJs) -> Result<ScrapedCard, CardError> {
    let n = numbers(&raw);
    assert!(is_readable(&raw, &n));
    parse_card(raw, &n)
}

fn value(d: Double) -> f64 {
    f64::from_bits(d.bits)
}

#[test]
fn card_is_read() {
    let wanted = number_texts(&raw());
    assert_eq!(
        wanted.attrs,
        vec![None, None, Some("36.3".to_string()), Some("26.09".to_string()), None, None]
    );
    assert_eq!(wanted.unit_price, Some("87.33".to_string()));

    let c = parsed(raw()).unwrap();
    assert_eq!(c.id, "18000001");
    assert_eq!(c.title, "採光三房");
    assert_eq!(c.price, 2688);
    assert_eq!(value(c.unit_price), 87.33);
    assert_eq!(c.rooms, "3房2廳2衛");
    assert_eq!(value(c.area), 36.3);
    assert_eq!(c.main_area.map(value), Some(26.09));
    assert_eq!(c.age, Some(37));
    assert_eq!(c.floor, "15F/20F");
    assert_eq!(c.community, Some("建成花園廣場".to_string()));
    assert_eq!(c.address, "松山區-民生東路五段");
    assert_eq!(c.agent, Some("仲介王".to_string()));
}

#[test]
fn main_area_and_age_may_be_missing() {
    let mut r = raw();
    r.attrs = texts(&["3房2廳2衛", "權狀36.3坪坪", "15F/20F", "年", "三年", "3 年"]);
    r.community = Some("依現場名稱".to_string());
    r.agent = Some("".to_string());
    let c = parsed(r).unwrap();
    assert_eq!(c.main_area, None);
    assert_eq!(c.age, None);
    assert_eq!(c.community, None);
    assert_eq!(c.agent, None);
    assert_eq!(value(c.area), 36.3);

    let mut r = raw();
    r.community = Some("".to_string());
    r.agent = None;
    let c = parsed(r).unwrap();
    assert_eq!(c.community, None);
    assert_eq!(c.agent, None);

    let mut r = raw();
    r.community = None;
    assert_eq!(parsed(r).unwrap().community, None);
}

#[test]
fn last_attribute_of_a_kind_wins() {
    let mut r = raw();
    r.attrs = texts(&[
        "1房", "2房", "權狀1坪", "權狀2坪", "1F", "2F/3F", "1年", "002年", "主建3坪", "主建4坪",
    ]);
    let c = parsed(r).unwrap();
    assert_eq!(c.rooms, "2房");
    assert_eq!(value(c.area), 2.0);
    assert_eq!(c.floor, "2F/3F");
    assert_eq!(c.age, Some(2));
    assert_eq!(c.main_area.map(value), Some(4.0));
}

#[test]
fn what_is_wrong_with_a_card_is_told() {
    let mut r = raw();
    r.id = None;
    r.title = None;
    assert!(matches!(parsed(r), Err(CardError::MissingId)));

    let mut r = raw();
    r.title = None;
    r.attrs = texts(&[]);
    assert!(matches!(parsed(r), Err(CardError::MissingTitle { id }) if id == "18000001"));

    let mut r = raw();
    r.attrs[2] = "權狀很大坪".to_string();
    assert!(matches!(parsed(r), Err(CardError::BadArea { id, attr })
        if id == "18000001" && attr == "權狀很大坪"));

    let mut r = raw();
    r.attrs[3] = "主建坪".to_string();
    assert!(matches!(parsed(r), Err(CardError::BadMainArea { attr, .. }) if attr == "主建坪"));

    let mut r = raw();
    r.attrs = texts(&["權狀x", "主建y"]);
    assert!(matches!(parsed(r), Err(CardError::BadArea { .. })));

    let mut r = raw();
    r.attrs = texts(&[]);
    assert!(matches!(parsed(r), Err(CardError::NoRooms { id, attrs })
        if id == "18000001" && attrs.is_empty()));

    let mut r = raw();
    r.attrs = texts(&["3房"]);
    assert!(matches!(parsed(r), Err(CardError::NoArea { attrs, .. }) if attrs == texts(&["3房"])));

    let mut r = raw();
    r.attrs = texts(&["3房", "權狀36.3坪"]);
    r.price_value = "".to_string();
    assert!(matches!(parsed(r), Err(CardError::NoFloor { attrs, .. })
        if attrs == texts(&["3房", "權狀36.3坪"])));

    let mut r = raw();
    r.price_value = "面議".to_string();
    r.price_section_text = "".to_string();
    assert!(matches!(parsed(r), Err(CardError::BadPrice { value, .. }) if value == "面議"));

    let mut r = raw();
    r.price_section_text = "2,688萬".to_string();
    assert!(matches!(parsed(r), Err(CardError::NoUnitPrice { text, .. }) if text == "2,688萬"));

    let mut r = raw();
    r.price_section_text = "2,688萬 x萬/坪 87.33萬/坪".to_string();
    assert!(matches!(parsed(r), Err(CardError::BadUnitPrice { id }) if id == "18000001"));
}

#[test]
fn prices_are_read() {
    let id = "1".to_string();
    let u = Some(Double { bits: 1.5_f64.to_bits() });
    let text = "a 1.5萬/坪".to_string();
    for (value, price) in [("1,234,567", 1234567), ("-5", -5), ("+7", 7), (",8,", 8)] {
        let (p, got) = parse_price(&value.to_string(), &text, u, &id).unwrap();
        assert_eq!(p, price);
        assert_eq!(got.bits, 1.5_f64.to_bits());
    }
    assert!(parse_price(&"9223372036854775808".to_string(), &text, u, &id).is_err());
}

#[test]
fn an_age_that_is_too_large_cannot_be_read() {
    let mut r = raw();
    r.attrs[4] = "9223372036854775807年".to_string();
    assert_eq!(parsed(r).unwrap().age, Some(i64::MAX));

    let mut r = raw();
    r.attrs[4] = "9223372036854775808年".to_string();
    let n = numbers(&r);
    assert!(!is_readable(&r, &n));

    // What is wrong before it is told all the same.
    let mut r = raw();
    r.attrs[2] = "權狀x坪".to_string();
    r.attrs[4] = "9223372036854775808年".to_string();
    assert!(matches!(parsed(r), Err(CardError::BadArea { .. })));
    let mut r = raw();
    r.title = None;
    r.attrs[4] = "9223372036854775808年".to_string();
    assert!(matches!(parsed(r), Err(CardError::MissingTitle { .. })));
}

#[test]
fn page_passes_over_cards_without_an_id() {
    let mut nameless = raw();
    nameless.id = None;
    nameless.attrs = texts(&[]);
    let mut second = raw();
    second.id = Some("2".to_string());
    let page = vec![raw(), nameless, second];
    assert_eq!(count_without_id(&page), 1);
    assert!(needs_retry(0, &page));
    assert!(needs_retry(1, &page));
    assert!(!needs_retry(2, &page));
    assert!(!needs_retry(0, &vec![raw()]));
    let n: Vec<CardNumbers> = page.iter().map(numbers).collect();
    assert!(is_page_readable(&page, &n));
    let cards = parse_page(page, &n).unwrap();
    assert_eq!(cards.iter().map(|c| c.id.as_str()).collect::<Vec<&str>>(), vec!["18000001", "2"]);
}

#[test]
fn first_card_that_cannot_be_read_ends_a_page() {
    let mut bad = raw();
    bad.title = None;
    let mut worse = raw();
    worse.price_value = "x".to_string();
    let mut worst = raw();
    worst.attrs[4] = "9223372036854775808年".to_string();
    let page = vec![raw(), bad, worse, worst];
    let n: Vec<CardNumbers> = page.iter().map(numbers).collect();
    assert!(is_page_readable(&page, &n));
    assert!(matches!(parse_page(page, &n), Err(CardError::MissingTitle { .. })));

    let mut worst = raw();
    worst.attrs[4] = "9223372036854775808年".to_string();
    let page = vec![raw(), worst];
    let n: Vec<CardNumbers> = page.iter().map(numbers).collect();
    assert!(!is_page_readable(&page, &n));
}

fn card(id: &str, title: &str, price: i64, area: f64) -> ScrapedCard {
    ScrapedCard {
        id: id.to_string(),
        title: title.to_string(),
        price,
        unit_price: Double { bits: 1.0_f64.to_bits() },
        rooms: "1房".to_string(),
        area: Double { bits: area.to_bits() },
        main_area: None,
        age: None,
        floor: "1F".to_string(),
        community: None,
        address: "a".to_string(),
        agent: None,
    }
}

fn ids(cards: &[ScrapedCard]) -> Vec<&str> {
    cards.iter().map(|c| c.id.as_str()).collect()
}

#[test]
fn first_card_of_each_id_is_kept() {
    let cards = vec![
        card("1", "a", 1, 1.0),
        card("2", "b", 1, 1.0),
        card("1", "c", 1, 1.0),
        card("3", "d", 1, 1.0),
        card("2", "e", 1, 1.0),
    ];
    assert!(contains_card(&cards, &"3".to_string()));
    assert!(!contains_card(&cards, &"4".to_string()));
    let kept = dedup_by_id(cards);
    assert_eq!(ids(&kept), vec!["1", "2", "3"]);
    assert_eq!(kept[0].title, "a");
    assert_eq!(kept[1].title, "b");
}

fn without_redirects(cards: Vec<ScrapedCard>) -> Vec<ScrapedCard> {
    let areas: Vec<String> =
        cards.iter().map(|c| format!("{:.2}", f64::from_bits(c.area.bits))).collect();
    drop_tracking_redirects(cards, &areas)
}

#[test]
fn redirects_are_dropped() {
    let kept = without_redirects(vec![
        card("2400001", "a", 100, 30.0),
        card("18000001", "a", 100, 30.001),
        card("18000002", "a", 100, 30.0),
        card("2400002", "b", 100, 30.0),
        card("2400003", "b", 100, 30.0),
        card("2400004", "a", 101, 30.0),
        card("2400005", "a", 100, 30.01),
        card("24", "a", 100, 30.0),
        card("12400006", "c", 1, 1.0),
    ]);
    assert_eq!(
        ids(&kept),
        vec!["18000001", "18000002", "2400002", "2400003", "2400004", "2400005", "12400006"]
    );
}

#[test]
fn pages_are_walked_through() {
    let links = |texts: &[&str]| -> Vec<Option<String>> {
        texts.iter().map(|t| Some(t.to_string())).collect()
    };
    assert_eq!(next_page_link(&links(&["1", "2", "3", "下一頁"]), 1), Some(1));
    assert_eq!(next_page_link(&links(&["1", " 3\n", "3"]), 2), Some(1));
    assert_eq!(next_page_link(&links(&["1", "2", "12"]), 2), None);
    assert_eq!(next_page_link(&vec![None, Some("3".to_string())], 2), Some(1));
    assert_eq!(next_page_link(&vec![], 1), None);

    let mut walk = PageWalk::start();
    walk.collect(vec![card("1", "a", 1, 1.0), card("2", "b", 1, 1.0)]);
    assert_eq!(walk.next_link(&links(&["1", "2"])), Some(1));
    assert!(walk.turn().is_ok());
    walk.collect(vec![card("2", "b", 1, 1.0), card("3", "c", 1, 1.0)]);
    assert_eq!(walk.next_link(&links(&["1", "2"])), None);
    assert_eq!(ids(&walk.finish()), vec!["1", "2", "3"]);
}

#[test]
fn a_walk_ends_after_fifty_pages() {
    let mut walk = PageWalk::start();
    for _ in 1..50 {
        assert!(walk.turn().is_ok());
    }
    assert_eq!(walk.page, 50);
    assert!(walk.turn().is_err());
    assert_eq!(walk.page, 50);
}

#[test]
fn declared_total_is_read() {
    assert_eq!(parse_declared_total("108"), Some(108));
    assert_eq!(parse_declared_total(""), None);
    assert_eq!(parse_declared_total("1,080"), None);
    assert_eq!(parse_declared_total(" 108"), None);
}

#[test]
fn what_is_wrong_with_a_card_is_told_in_words() {
    let id = || "7".to_string();
    let x = || "x".to_string();
    let attrs = || texts(&["3房"]);
    let q = "\"x\"";
    let list = "[\"3房\"]";
    for (e, quoted, wanted) in [
        (CardError::MissingId, "", "卡片缺少 data-id"),
        (CardError::MissingTitle { id: id() }, "", "卡片缺少 title（id=7）"),
        (CardError::BadArea { id: id(), attr: x() }, q, "area 格式錯誤 \"x\"（7）"),
        (CardError::BadMainArea { id: id(), attr: x() }, q, "mainArea 格式錯誤 \"x\"（7）"),
        (CardError::NoRooms { id: id(), attrs: attrs() }, list, "attrs 找不到 rooms（7）: [\"3房\"]"),
        (CardError::NoArea { id: id(), attrs: attrs() }, list, "attrs 找不到 area（7）: [\"3房\"]"),
        (CardError::NoFloor { id: id(), attrs: attrs() }, list, "attrs 找不到 floor（7）: [\"3房\"]"),
        (CardError::BadPrice { id: id(), value: x() }, q, "price 格式錯誤 \"x\"（7）"),
        (CardError::NoUnitPrice { id: id(), text: x() }, q, "unitPrice 解析失敗 \"x\"（7）"),
        (CardError::BadUnitPrice { id: id() }, "", "unitPrice 數字格式錯誤（7）"),
    ] {
        assert_eq!(e.message(quoted), wanted);
    }
}

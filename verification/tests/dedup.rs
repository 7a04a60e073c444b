use taipei_housing::dedup::{same_household, HouseholdKey, AREA_TOLERANCE, MAIN_AREA_TOLERANCE};
use taipei_housing::double::Double;

fn double(x: f64) -> Double {
    Double { bits: x.to_bits() }
}

fn key<'a>(
    community: Option<&'a str>,
    address: &'a str,
    floor: &'a str,
    area: f64,
    main_area: Option<f64>,
    age: Option<i64>,
) -> HouseholdKey<'a> {
    HouseholdKey {
        community,
        address,
        floor,
        area: double(area),
        main_area: main_area.map(double),
        age,
    }
}

#[test]
fn tolerances_are_a_tenth_and_a_hundredth() {
    assert_eq!(AREA_TOLERANCE, 0.1_f64.to_bits());
    assert_eq!(MAIN_AREA_TOLERANCE, 0.01_f64.to_bits());
}

#[test]
fn identical_listing_is_same_household() {
    let a = key(Some("建成花園廣場"), "松山區-民生東路五段", "15F/20F", 36.3, Some(26.09), Some(37));
    let b = a;
    assert!(same_household(&a, &b));
}

#[test]
fn area_within_0_1_tolerance_still_matches() {
    let a = key(Some("建成花園廣場"), "松山區-民生東路五段", "15F/20F", 36.30, Some(26.09), Some(37));
    let b = key(Some("建成花園廣場"), "松山區-民生東路五段", "15F/20F", 36.39, Some(26.09), Some(37));
    assert!(same_household(&a, &b));
}

#[test]
fn area_beyond_tolerance_does_not_match() {
    let a = key(Some("建成花園廣場"), "松山區-民生東路五段", "15F/20F", 36.3, Some(26.09), Some(37));
    let b = key(Some("建成花園廣場"), "松山區-民生東路五段", "15F/20F", 36.5, Some(26.09), Some(37));
    assert!(!same_household(&a, &b));
}

#[test]
fn different_community_name_same_address_floor_area_matches() {
    let a = key(Some("僑福新村"), "松山區-健康路", "10F/13F", 38.14, None, Some(48));
    let b = key(Some("僑福新邨"), "松山區-健康路", "10F/13F", 38.14, None, Some(48));
    assert!(same_household(&a, &b));
}

#[test]
fn inconsistent_floor_format_confirmed_by_main_area_and_age() {
    let a = key(Some("南京新貴族"), "松山區-八德路四段245巷", "1F~2F/8F", 32.77, Some(25.76), Some(35));
    let b = key(Some("南京新貴族"), "松山區-八德路四段245巷", "1F/8F", 32.77, Some(25.76), Some(35));
    assert!(same_household(&a, &b));
}

#[test]
fn different_floor_without_main_area_age_confirmation_is_different_household() {
    let a = key(Some("南京新貴族"), "松山區-八德路四段245巷", "1F/8F", 32.77, Some(25.76), Some(35));
    let b = key(Some("南京新貴族"), "松山區-八德路四段245巷", "3F/8F", 32.77, Some(20.10), Some(35));
    assert!(!same_household(&a, &b));
}

#[test]
fn main_area_and_age_alone_overrides_mismatched_address_and_community() {
    let a = key(Some("建成花園廣場"), "松山區-民生東路五段", "15F/20F", 36.3, Some(26.09), Some(37));
    let b = key(Some("民生社區"), "松山區-民生東路5段", "15F/20F", 36.3, Some(26.09), Some(37));
    assert!(same_household(&a, &b));
}

#[test]
fn missing_main_area_or_age_cannot_confirm_alone() {
    let a = key(None, "松山區-某路", "5F/10F", 30.0, None, Some(40));
    let b = key(None, "松山區-某路", "6F/10F", 30.0, None, Some(40));
    assert!(!same_household(&a, &b));
}

#[test]
fn household_key_has_no_price_field_by_design() {
    let a = key(Some("X"), "Y", "1F/1F", 30.0, None, None);
    let b = key(Some("X"), "Y", "1F/1F", 30.0, None, None);
    assert!(same_household(&a, &b));
}

#[test]
fn community_alone_places_a_household() {
    let a = key(Some("X"), "Y", "1F/1F", 30.0, None, None);
    let b = key(Some("X"), "Z", "1F/1F", 30.05, None, None);
    let c = key(None, "Z", "1F/1F", 30.0, None, None);
    assert!(same_household(&a, &b));
    assert!(!same_household(&a, &c));
    let d = key(None, "W", "1F/1F", 30.0, None, None);
    assert!(!same_household(&c, &d), "two unknown communities are not one");
}

#[test]
fn order_of_the_two_listings_does_not_matter() {
    let keys = [
        key(Some("X"), "Y", "1F/1F", 30.0, None, None),
        key(Some("X"), "Z", "1F/1F", 30.1, Some(20.0), Some(3)),
        key(None, "Y", "2F/2F", 30.05, Some(20.01), Some(3)),
        key(Some("Q"), "W", "1F/1F", 29.9, Some(20.005), Some(4)),
    ];
    for a in &keys {
        assert!(same_household(a, a));
        for b in &keys {
            assert_eq!(same_household(a, b), same_household(b, a));
        }
    }
}

#[test]
fn an_area_that_is_no_number_matches_nothing() {
    let a = key(Some("X"), "Y", "1F/1F", f64::NAN, None, None);
    assert!(!same_household(&a, &a));
    let b = key(Some("X"), "Y", "1F/1F", f64::INFINITY, None, None);
    assert!(!same_household(&b, &b));
}

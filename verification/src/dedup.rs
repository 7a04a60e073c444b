//! Whether two listings are one household.
//!
//! The same apartment is often advertised by several agents. This module
//! answers only whether two listings are the same apartment; which of them
//! represents the household, and what happens when one disappears, is decided
//! elsewhere.

use crate::double;
use crate::double::{close, Double};
use crate::text::same_text;
use vstd::arithmetic::power2::*;
use vstd::prelude::*;

verus! {

/// One tenth, as a double.
pub const AREA_TOLERANCE: u64 = 0x3fb9_9999_9999_999a;

/// One hundredth, as a double.
pub const MAIN_AREA_TOLERANCE: u64 = 0x3f84_7ae1_47ae_147b;

/// What tells one household from another. The price is left out on purpose:
/// the same apartment is often advertised again for less.
#[derive(Clone, Copy, Debug)]
pub struct HouseholdKey<'a> {
    pub community: Option<&'a str>,
    pub address: &'a str,
    pub floor: &'a str,
    pub area: Double,
    pub main_area: Option<Double>,
    pub age: Option<i64>,
}

pub struct HouseholdView {
    pub community: Option<Seq<char>>,
    pub address: Seq<char>,
    pub floor: Seq<char>,
    pub area: Double,
    pub main_area: Option<Double>,
    pub age: Option<i64>,
}

impl<'a> View for HouseholdKey<'a> {
    type V = HouseholdView;

    open spec fn view(&self) -> HouseholdView {
        HouseholdView {
            community: self.community.deep_view(),
            address: self.address@,
            floor: self.floor@,
            area: self.area,
            main_area: self.main_area,
            age: self.age,
        }
    }
}

pub open spec fn areas_agree(a: HouseholdView, b: HouseholdView) -> bool {
    double::is_close(a.area, b.area, Double { bits: AREA_TOLERANCE })
}

/// Main area and age agree, and both are known on both sides.
pub open spec fn main_areas_and_ages_agree(a: HouseholdView, b: HouseholdView) -> bool {
    &&& a.main_area is Some
    &&& b.main_area is Some
    &&& a.age is Some
    &&& a.age == b.age
    &&& double::is_close(a.main_area->0, b.main_area->0, Double { bits: MAIN_AREA_TOLERANCE })
}

/// The addresses agree, or the communities do and are known.
pub open spec fn places_agree(a: HouseholdView, b: HouseholdView) -> bool {
    a.address == b.address || (a.community is Some && a.community == b.community)
}

/// One household: the areas agree, and so do either place and floor or main
/// area and age.
pub open spec fn is_same_household(a: HouseholdView, b: HouseholdView) -> bool {
    &&& areas_agree(a, b)
    &&& (places_agree(a, b) && a.floor == b.floor) || main_areas_and_ages_agree(a, b)
}

fn main_area_and_age_match(a: &HouseholdKey, b: &HouseholdKey) -> (r: bool)
    ensures
        r == main_areas_and_ages_agree(a@, b@),
{
    match (a.main_area, b.main_area, a.age, b.age) {
        (Some(ma_a), Some(ma_b), Some(age_a), Some(age_b)) => {
            close(ma_a, ma_b, Double { bits: MAIN_AREA_TOLERANCE }) && age_a == age_b
        },
        _ => false,
    }
}

fn address_or_community_match(a: &HouseholdKey, b: &HouseholdKey) -> (r: bool)
    ensures
        r == places_agree(a@, b@),
{
    if same_text(a.address, b.address) {
        return true;
    }
    match (a.community, b.community) {
        (Some(x), Some(y)) => same_text(x, y),
        _ => false,
    }
}

/// Whether two listings are one household.
pub fn same_household(a: &HouseholdKey, b: &HouseholdKey) -> (r: bool)
    ensures
        r == is_same_household(a@, b@),
{
    if !close(a.area, b.area, Double { bits: AREA_TOLERANCE }) {
        return false;
    }
    if address_or_community_match(a, b) {
        if same_text(a.floor, b.floor) {
            return true;
        }
        // The floor of a unit on two storeys may be written in two ways
        // ("1F~2F/8F", "1F/8F").
        if main_area_and_age_match(a, b) {
            return true;
        }
    }
    main_area_and_age_match(a, b)
}

/// Being one household does not depend on which listing is named first.
pub proof fn law_same_household_symmetric(a: HouseholdView, b: HouseholdView)
    ensures
        is_same_household(a, b) == is_same_household(b, a),
{
}

/// A listing with a finite area is one household with itself.
pub proof fn law_same_household_reflexive(a: HouseholdView)
    requires
        a.area.is_finite(),
    ensures
        is_same_household(a, a),
{
    let t = Double { bits: AREA_TOLERANCE };
    assert(double::is_tolerance(t));
    lemma_pow2_pos(t.scale());
    assert(t.units() >= 0) by (nonlinear_arith)
        requires
            t.units() == t.significand() * pow2(t.scale()),
            pow2(t.scale()) > 0,
    ;
    assert(double::distance(a.area.units(), a.area.units()) == 0);
}

/// Listings whose areas differ by more than the tolerance are never one
/// household, whatever else agrees.
pub proof fn law_areas_must_agree(a: HouseholdView, b: HouseholdView)
    requires
        !areas_agree(a, b),
    ensures
        !is_same_household(a, b),
{
}

/// Missing values confirm nothing: without a main area or an age on either
/// side, place and floor must agree.
pub proof fn law_missing_values_confirm_nothing(a: HouseholdView, b: HouseholdView)
    requires
        a.main_area is None || b.main_area is None || a.age is None || b.age is None,
    ensures
        is_same_household(a, b) ==> places_agree(a, b) && a.floor == b.floor,
{
}

proof fn lemma_area_tolerance(a: Double, b: Double)
    ensures
        double::is_close(a, b, Double { bits: AREA_TOLERANCE }) <==> {
            &&& (a.bits / 0x10_0000_0000_0000) % 2048 != 2047
            &&& (b.bits / 0x10_0000_0000_0000) % 2048 != 2047
            &&& 10 * (a.units() - b.units()) <= pow2(1074) + 9 * pow2(1018)
            &&& 10 * (b.units() - a.units()) <= pow2(1074) + 9 * pow2(1018)
        },
{
    let t = Double { bits: AREA_TOLERANCE };
    assert(t.exponent() == 1019);
    assert(t.scale() == 1018);
    assert(t.significand() == 0x19_9999_9999_999a);
    let p = pow2(1018) as int;
    lemma_pow2_adds(56, 1018);
    lemma_pow2_adds(32, 24);
    lemma2_to64();
    assert(pow2(56) == 0x1_0000_0000 * 0x100_0000);
    assert(pow2(1074) == 0x100_0000_0000_0000 * p);
    assert(t.units() == 0x19_9999_9999_999a * p);
}

proof fn lemma_main_area_tolerance(a: Double, b: Double)
    ensures
        double::is_close(a, b, Double { bits: MAIN_AREA_TOLERANCE }) <==> {
            &&& (a.bits / 0x10_0000_0000_0000) % 2048 != 2047
            &&& (b.bits / 0x10_0000_0000_0000) % 2048 != 2047
            &&& 100 * (a.units() - b.units()) < pow2(1074) + 62 * pow2(1015)
            &&& 100 * (b.units() - a.units()) < pow2(1074) + 62 * pow2(1015)
        },
{
    let t = Double { bits: MAIN_AREA_TOLERANCE };
    assert(t.exponent() == 1016);
    assert(t.scale() == 1015);
    assert(t.significand() == 0x14_7ae1_47ae_147b);
    let p = pow2(1015) as int;
    lemma_pow2_adds(59, 1015);
    lemma_pow2_adds(32, 27);
    lemma2_to64();
    assert(pow2(59) == 0x1_0000_0000 * 0x800_0000);
    assert(pow2(1074) == 0x800_0000_0000_0000 * p);
    assert(t.units() == 0x14_7ae1_47ae_147b * p);
}

/// What one household has in common. The areas are numbers that lie within a
/// tenth of each other, but for the rounding of the difference; and either the
/// address or a named community is the same and so is the floor, or age and
/// main area are both given, the ages are equal and the main areas lie within
/// a hundredth of each other. (`units` counts a number such that one is two to
/// the power 1074.)
pub proof fn law_one_household_has_in_common(a: HouseholdView, b: HouseholdView)
    requires
        is_same_household(a, b),
    ensures
        (a.area.bits / 0x10_0000_0000_0000) % 2048 != 2047,
        (b.area.bits / 0x10_0000_0000_0000) % 2048 != 2047,
        10 * (a.area.units() - b.area.units()) <= pow2(1074) + 9 * pow2(1018),
        10 * (b.area.units() - a.area.units()) <= pow2(1074) + 9 * pow2(1018),
        a.floor != b.floor || (a.address != b.address && (a.community is None || a.community
            != b.community)) ==> {
            &&& a.age is Some
            &&& b.age is Some
            &&& a.age->0 == b.age->0
            &&& a.main_area is Some
            &&& b.main_area is Some
            &&& 100 * (a.main_area->0.units() - b.main_area->0.units()) < pow2(1074) + 62 * pow2(
                1015,
            )
            &&& 100 * (b.main_area->0.units() - a.main_area->0.units()) < pow2(1074) + 62 * pow2(
                1015,
            )
        },
{
    lemma_area_tolerance(a.area, b.area);
    if main_areas_and_ages_agree(a, b) {
        lemma_main_area_tolerance(a.main_area->0, b.main_area->0);
    }
}

/// What is enough for one household: areas within a tenth of each other, and
/// one place and floor, or one age and main areas within a hundredth.
pub proof fn law_agreement_makes_one_household(a: HouseholdView, b: HouseholdView)
    requires
        (a.area.bits / 0x10_0000_0000_0000) % 2048 != 2047,
        (b.area.bits / 0x10_0000_0000_0000) % 2048 != 2047,
        10 * (a.area.units() - b.area.units()) <= pow2(1074) + 9 * pow2(1018),
        10 * (b.area.units() - a.area.units()) <= pow2(1074) + 9 * pow2(1018),
    ensures
        a.address == b.address && a.floor == b.floor ==> is_same_household(a, b),
        a.community is Some && a.community == b.community && a.floor == b.floor
            ==> is_same_household(a, b),
        a.age is Some && a.age == b.age && (a.main_area matches Some(x) && b.main_area matches Some(
            y,
        ) && {
            &&& (x.bits / 0x10_0000_0000_0000) % 2048 != 2047
            &&& (y.bits / 0x10_0000_0000_0000) % 2048 != 2047
            &&& 100 * (x.units() - y.units()) < pow2(1074) + 62 * pow2(1015)
            &&& 100 * (y.units() - x.units()) < pow2(1074) + 62 * pow2(1015)
        }) ==> is_same_household(a, b),
{
    lemma_area_tolerance(a.area, b.area);
    if a.main_area is Some && b.main_area is Some {
        lemma_main_area_tolerance(a.main_area->0, b.main_area->0);
    }
}

/// Ages that are known and differ tell households apart, unless place and floor
/// are the same.
pub proof fn law_ages_tell_households_apart(a: HouseholdView, b: HouseholdView)
    requires
        a.age is Some,
        b.age is Some,
        a.age->0 != b.age->0,
        is_same_household(a, b),
    ensures
        a.address == b.address || (a.community is Some && a.community == b.community),
        a.floor == b.floor,
{
    law_one_household_has_in_common(a, b);
}

/// A community that is not named confirms nothing: with another address, and
/// without age and main area, nothing makes one household of two listings.
pub proof fn law_unnamed_community_confirms_nothing(a: HouseholdView, b: HouseholdView)
    requires
        a.community is None || b.community is None,
        a.address != b.address,
        a.age is None || a.main_area is None,
    ensures
        !is_same_household(a, b),
        !is_same_household(b, a),
{
    if is_same_household(a, b) {
        law_one_household_has_in_common(a, b);
    }
    if is_same_household(b, a) {
        law_one_household_has_in_common(b, a);
    }
}

} // verus!

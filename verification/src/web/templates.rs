//! What the page shows.

use crate::double::Double;
use crate::text::same_text;
use vstd::prelude::*;

verus! {

/// A listing on the page.
#[derive(Debug)]
pub struct ListingCard {
    pub tracked_search_id: i64,
    pub id: String,
    pub title: String,
    pub price: i64,
    pub unit_price: Double,
    pub rooms: String,
    pub area: Double,
    pub main_area: Option<Double>,
    pub age: Option<i64>,
    pub floor: String,
    pub community: Option<String>,
    pub address: String,
    pub agent: Option<String>,
    pub delisted: bool,
    pub note: Option<String>,
    pub decision: Option<String>,
    pub reason: Option<String>,
    pub is_new_today: bool,
}

#[verifier::ext_equal]
pub struct ListingCardView {
    pub tracked_search_id: i64,
    pub id: Seq<char>,
    pub title: Seq<char>,
    pub price: i64,
    pub unit_price: Double,
    pub rooms: Seq<char>,
    pub area: Double,
    pub main_area: Option<Double>,
    pub age: Option<i64>,
    pub floor: Seq<char>,
    pub community: Option<Seq<char>>,
    pub address: Seq<char>,
    pub agent: Option<Seq<char>>,
    pub delisted: bool,
    pub note: Option<Seq<char>>,
    pub decision: Option<Seq<char>>,
    pub reason: Option<Seq<char>>,
    pub is_new_today: bool,
}

impl View for ListingCard {
    type V = ListingCardView;

    open spec fn view(&self) -> ListingCardView {
        ListingCardView {
            tracked_search_id: self.tracked_search_id,
            id: self.id@,
            title: self.title@,
            price: self.price,
            unit_price: self.unit_price,
            rooms: self.rooms@,
            area: self.area,
            main_area: self.main_area,
            age: self.age,
            floor: self.floor@,
            community: self.community.deep_view(),
            address: self.address@,
            agent: self.agent.deep_view(),
            delisted: self.delisted,
            note: self.note.deep_view(),
            decision: self.decision.deep_view(),
            reason: self.reason.deep_view(),
            is_new_today: self.is_new_today,
        }
    }
}

impl DeepView for ListingCard {
    type V = ListingCardView;

    open spec fn deep_view(&self) -> ListingCardView {
        self@
    }
}

impl ListingCard {
    /// Where the site shows the listing.
    pub fn detail_url(&self) -> (r: String)
        ensures
            r@ == "https://sale.591.com.tw/home/house/detail/2/"@ + self@.id + ".html"@,
    {
        let mut r = "https://sale.591.com.tw/home/house/detail/2/".to_owned();
        r.append(self.id.as_str());
        r.append(".html");
        r
    }

    /// Whether the user decided this.
    pub fn decision_is(&self, want: &str) -> (r: bool)
        ensures
            r == (self@.decision == Some(want@)),
    {
        match &self.decision {
            Some(d) => same_text(d.as_str(), want),
            None => false,
        }
    }
}

/// The figures of a search.
#[derive(Clone, Copy, Debug, PartialEq, Eq, Structural)]
pub struct Stats {
    pub tracked_count: i64,
    pub new_today: i64,
    pub reviewed_count: i64,
    pub want_count: i64,
    pub delisted_count: i64,
}

impl Default for Stats {
    fn default() -> (r: Stats)
        ensures
            r == (Stats {
                tracked_count: 0,
                new_today: 0,
                reviewed_count: 0,
                want_count: 0,
                delisted_count: 0,
            }),
    {
        Stats {
            tracked_count: 0,
            new_today: 0,
            reviewed_count: 0,
            want_count: 0,
            delisted_count: 0,
        }
    }
}

/// A search on the page, with its listings.
#[derive(Debug)]
pub struct Group {
    pub tracked_search_id: i64,
    pub label: String,
    pub search_url: String,
    pub stats: Stats,
    pub listings: Vec<ListingCard>,
}

#[verifier::ext_equal]
pub struct GroupView {
    pub tracked_search_id: i64,
    pub label: Seq<char>,
    pub search_url: Seq<char>,
    pub stats: Stats,
    pub listings: Seq<ListingCardView>,
}

impl View for Group {
    type V = GroupView;

    open spec fn view(&self) -> GroupView {
        GroupView {
            tracked_search_id: self.tracked_search_id,
            label: self.label@,
            search_url: self.search_url@,
            stats: self.stats,
            listings: self.listings.deep_view(),
        }
    }
}

impl DeepView for Group {
    type V = GroupView;

    open spec fn deep_view(&self) -> GroupView {
        self@
    }
}

/// The page.
#[derive(Debug)]
pub struct IndexTemplate {
    pub groups: Vec<Group>,
}

} // verus!

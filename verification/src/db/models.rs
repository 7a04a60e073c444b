//! The rows of the tables. A row of a tracked search leaves out the search's
//! own id, which the record that holds the row has once, and the times at
//! which the database created and last touched it.

use crate::date::Date;
use crate::scraper::{CardView, ScrapedCard};
use crate::text::same_text;
use vstd::prelude::*;

verus! {

/// A search whose results are followed.
#[derive(Debug)]
pub struct TrackedSearch {
    pub id: i64,
    pub district: String,
    pub building_type: String,
    pub price_range: String,
    /// Present on searches that a user added.
    pub name: Option<String>,
    pub search_url: String,
    pub artifact_url: Option<String>,
    pub criteria_json: String,
    pub dedup_note: Option<String>,
    pub last_checked: Option<Date>,
}

pub struct SearchRowView {
    pub id: i64,
    pub district: Seq<char>,
    pub building_type: Seq<char>,
    pub price_range: Seq<char>,
    pub name: Option<Seq<char>>,
    pub search_url: Seq<char>,
    pub artifact_url: Option<Seq<char>>,
    pub criteria_json: Seq<char>,
    pub dedup_note: Option<Seq<char>>,
    pub last_checked: Option<Date>,
}

impl View for TrackedSearch {
    type V = SearchRowView;

    open spec fn view(&self) -> SearchRowView {
        SearchRowView {
            id: self.id,
            district: self.district@,
            building_type: self.building_type@,
            price_range: self.price_range@,
            name: self.name.deep_view(),
            search_url: self.search_url@,
            artifact_url: self.artifact_url.deep_view(),
            criteria_json: self.criteria_json@,
            dedup_note: self.dedup_note.deep_view(),
            last_checked: self.last_checked,
        }
    }
}

/// What a file tells of its search.
#[derive(Debug)]
pub struct FiledSearch {
    pub district: String,
    pub building_type: String,
    pub price_range: String,
    pub search_url: String,
    pub artifact_url: Option<String>,
    pub criteria_json: String,
    pub dedup_note: Option<String>,
    pub last_checked: Option<Date>,
}

pub struct FiledSearchView {
    pub district: Seq<char>,
    pub building_type: Seq<char>,
    pub price_range: Seq<char>,
    pub search_url: Seq<char>,
    pub artifact_url: Option<Seq<char>>,
    pub criteria_json: Seq<char>,
    pub dedup_note: Option<Seq<char>>,
    pub last_checked: Option<Date>,
}

impl View for FiledSearch {
    type V = FiledSearchView;

    open spec fn view(&self) -> FiledSearchView {
        FiledSearchView {
            district: self.district@,
            building_type: self.building_type@,
            price_range: self.price_range@,
            search_url: self.search_url@,
            artifact_url: self.artifact_url.deep_view(),
            criteria_json: self.criteria_json@,
            dedup_note: self.dedup_note.deep_view(),
            last_checked: self.last_checked,
        }
    }
}

/// A search to be added. What is not known of it is empty.
#[derive(Debug)]
pub struct NewSearch {
    pub district: String,
    pub building_type: String,
    pub price_range: String,
    pub search_url: String,
    pub criteria_json: String,
    pub name: String,
}

#[verifier::ext_equal]
pub struct NewSearchView {
    pub district: Seq<char>,
    pub building_type: Seq<char>,
    pub price_range: Seq<char>,
    pub search_url: Seq<char>,
    pub criteria_json: Seq<char>,
    pub name: Seq<char>,
}

impl View for NewSearch {
    type V = NewSearchView;

    open spec fn view(&self) -> NewSearchView {
        NewSearchView {
            district: self.district@,
            building_type: self.building_type@,
            price_range: self.price_range@,
            search_url: self.search_url@,
            criteria_json: self.criteria_json@,
            name: self.name@,
        }
    }
}

/// An advertisement, found by its id within the search.
#[derive(Debug)]
pub struct Listing {
    pub card: ScrapedCard,
    pub first_seen: Date,
    /// The listing that represents the household; absent on that one itself.
    pub duplicate_of: Option<String>,
    pub delisted: bool,
    pub delisted_date: Option<Date>,
    pub note: Option<String>,
    pub last_seen_check_run_id: Option<i64>,
}

#[verifier::ext_equal]
pub struct ListingView {
    pub card: CardView,
    pub first_seen: Date,
    pub duplicate_of: Option<Seq<char>>,
    pub delisted: bool,
    pub delisted_date: Option<Date>,
    pub note: Option<Seq<char>>,
    pub last_seen_check_run_id: Option<i64>,
}

impl ListingView {
    pub open spec fn id(self) -> Seq<char> {
        self.card.id
    }

    /// The representative of the listing's household.
    pub open spec fn representative(self) -> Seq<char> {
        match self.duplicate_of {
            Some(r) => r,
            None => self.card.id,
        }
    }
}

impl View for Listing {
    type V = ListingView;

    open spec fn view(&self) -> ListingView {
        ListingView {
            card: self.card@,
            first_seen: self.first_seen,
            duplicate_of: self.duplicate_of.deep_view(),
            delisted: self.delisted,
            delisted_date: self.delisted_date,
            note: self.note.deep_view(),
            last_seen_check_run_id: self.last_seen_check_run_id,
        }
    }
}

impl DeepView for Listing {
    type V = ListingView;

    open spec fn deep_view(&self) -> ListingView {
        self@
    }
}

/// One round of checking a search.
#[derive(Debug)]
pub struct CheckRun {
    pub id: i64,
    pub checked_date: Date,
    pub new_count: i64,
    pub total_count: i64,
    pub note: Option<String>,
}

pub struct CheckRunView {
    pub id: i64,
    pub checked_date: Date,
    pub new_count: i64,
    pub total_count: i64,
    pub note: Option<Seq<char>>,
}

impl View for CheckRun {
    type V = CheckRunView;

    open spec fn view(&self) -> CheckRunView {
        CheckRunView {
            id: self.id,
            checked_date: self.checked_date,
            new_count: self.new_count,
            total_count: self.total_count,
            note: self.note.deep_view(),
        }
    }
}

impl DeepView for CheckRun {
    type V = CheckRunView;

    open spec fn deep_view(&self) -> CheckRunView {
        self@
    }
}

#[derive(Debug, Clone, Copy, PartialEq, Eq, Structural)]
pub enum CheckRunEventType {
    New,
    Delisted,
}

impl CheckRunEventType {
    pub open spec fn text(self) -> Seq<char> {
        match self {
            CheckRunEventType::New => "new"@,
            CheckRunEventType::Delisted => "delisted"@,
        }
    }

    /// The word that the table holds.
    pub fn as_str(&self) -> (r: &'static str)
        ensures
            r@ == self.text(),
    {
        match self {
            CheckRunEventType::New => "new",
            CheckRunEventType::Delisted => "delisted",
        }
    }
}

/// What happened to a listing in a round.
#[derive(Debug)]
pub struct CheckRunEvent {
    pub id: i64,
    pub check_run_id: i64,
    pub tracked_search_id: i64,
    pub listing_id: String,
    pub event_type: CheckRunEventType,
}

#[derive(Debug, Clone, Copy, PartialEq, Eq, Structural)]
pub enum ReviewDecision {
    Want,
    Pass,
}

impl ReviewDecision {
    pub open spec fn text(self) -> Seq<char> {
        match self {
            ReviewDecision::Want => "want"@,
            ReviewDecision::Pass => "pass"@,
        }
    }

    /// The word that the table and the form hold.
    pub fn as_str(&self) -> (r: &'static str)
        ensures
            r@ == self.text(),
    {
        match self {
            ReviewDecision::Want => "want",
            ReviewDecision::Pass => "pass",
        }
    }

    /// The decision that a word names.
    pub open spec fn named(word: Seq<char>) -> Option<ReviewDecision> {
        if word == ReviewDecision::Want.text() {
            Some(ReviewDecision::Want)
        } else if word == ReviewDecision::Pass.text() {
            Some(ReviewDecision::Pass)
        } else {
            None
        }
    }

    /// The decision that a word names.
    pub fn parse(word: &str) -> (r: Option<ReviewDecision>)
        ensures
            r == ReviewDecision::named(word@),
    {
        if same_text(word, ReviewDecision::Want.as_str()) {
            Some(ReviewDecision::Want)
        } else if same_text(word, ReviewDecision::Pass.as_str()) {
            Some(ReviewDecision::Pass)
        } else {
            None
        }
    }
}

/// A decision is read back as it was written.
pub proof fn law_decisions_are_read_back(decision: ReviewDecision)
    ensures
        ReviewDecision::named(decision.text()) == Some(decision),
{
    reveal_strlit("want");
    reveal_strlit("pass");
    assert("want"@[0] != "pass"@[0]);
}

/// The words for decisions and for events, letter by letter. No other word
/// names a decision.
pub proof fn law_words_are_spelled(word: Seq<char>)
    ensures
        ReviewDecision::Want.text() == seq!['w', 'a', 'n', 't'],
        ReviewDecision::Pass.text() == seq!['p', 'a', 's', 's'],
        CheckRunEventType::New.text() == seq!['n', 'e', 'w'],
        CheckRunEventType::Delisted.text() == seq!['d', 'e', 'l', 'i', 's', 't', 'e', 'd'],
        ReviewDecision::named(word) == Some(ReviewDecision::Want) <==> word == seq![
            'w',
            'a',
            'n',
            't',
        ],
        ReviewDecision::named(word) == Some(ReviewDecision::Pass) <==> word == seq![
            'p',
            'a',
            's',
            's',
        ],
{
    reveal_strlit("want");
    reveal_strlit("pass");
    reveal_strlit("new");
    reveal_strlit("delisted");
    assert("want"@ =~= seq!['w', 'a', 'n', 't']);
    assert("pass"@ =~= seq!['p', 'a', 's', 's']);
    assert("new"@ =~= seq!['n', 'e', 'w']);
    assert("delisted"@ =~= seq!['d', 'e', 'l', 'i', 's', 't', 'e', 'd']);
    assert("want"@[0] != "pass"@[0]);
}

/// A user's opinion of a listing.
#[derive(Debug)]
pub struct Review {
    pub listing_id: String,
    pub decision: Option<ReviewDecision>,
    pub reason: Option<String>,
}

pub struct ReviewRowView {
    pub listing_id: Seq<char>,
    pub review: ReviewView,
}

/// What was thought of a listing.
pub struct ReviewView {
    pub decision: Option<ReviewDecision>,
    pub reason: Option<Seq<char>>,
}

impl View for Review {
    type V = ReviewRowView;

    open spec fn view(&self) -> ReviewRowView {
        ReviewRowView {
            listing_id: self.listing_id@,
            review: ReviewView { decision: self.decision, reason: self.reason.deep_view() },
        }
    }
}

} // verus!

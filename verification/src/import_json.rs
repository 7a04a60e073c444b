//! Files of listings that were gathered before.
//!
//! In such a file a duplicate may name a listing that itself has become a
//! duplicate. Every chain is followed to its end, so that a duplicate always
//! names the representative of its household.

use crate::date;
use crate::date::Date;
use crate::db::models::{Listing, ListingView};
use crate::double::Double;
use crate::query;
use crate::query::{building_type_name, district_name, find_param};
use crate::scraper::{CardView, ScrapedCard};
use crate::text::{copy_text, copy_texts};
use vstd::prelude::*;

verus! {

/// The longest chain of duplicates that is followed.
pub const MOST_HOPS: u32 = 1000;

/// What each listing of a file is said to be a duplicate of.
pub type Links = Vec<(String, Option<String>)>;

/// What the last entry for an id says; nothing where there is none.
pub open spec fn link_of(
    links: Seq<(Seq<char>, Option<Seq<char>>)>,
    id: Seq<char>,
) -> Option<Option<Seq<char>>>
    decreases links.len(),
{
    if links.len() == 0 {
        None
    } else if links.last().0 == id {
        Some(links.last().1)
    } else {
        link_of(links.drop_last(), id)
    }
}

/// The listing that stands above `id`, where the file knows one.
pub open spec fn above(links: Seq<(Seq<char>, Option<Seq<char>>)>, id: Seq<char>) -> Option<
    Seq<char>,
> {
    match link_of(links, id) {
        Some(Some(next)) => if link_of(links, next) is Some {
            Some(next)
        } else {
            None
        },
        _ => None,
    }
}

/// The end of the chain that begins with `id`, where it has no more than
/// `hops` links.
pub open spec fn chain_end(
    links: Seq<(Seq<char>, Option<Seq<char>>)>,
    id: Seq<char>,
    hops: nat,
) -> Option<Seq<char>>
    decreases hops,
{
    match above(links, id) {
        None => Some(id),
        Some(next) => if hops == 0 {
            None
        } else {
            chain_end(links, next, (hops - 1) as nat)
        },
    }
}

/// The representative of the household of `id`; nothing where the chain is too
/// long to have an end.
pub open spec fn resolved(links: Seq<(Seq<char>, Option<Seq<char>>)>, id: Seq<char>) -> Option<
    Seq<char>,
> {
    chain_end(links, id, MOST_HOPS as nat)
}

fn find_link<'a>(links: &'a Links, id: &String) -> (r: Option<&'a Option<String>>)
    ensures
        match r {
            Some(l) => link_of(links.deep_view(), id@) == Some(l.deep_view()),
            None => link_of(links.deep_view(), id@) is None,
        },
{
    let ghost all = links.deep_view();
    let mut n = links.len();
    assert(all.take(all.len() as int) =~= all);
    while n > 0
        invariant
            n <= links.len(),
            all == links.deep_view(),
            link_of(all.take(n as int), id@) == link_of(all, id@),
        decreases n,
    {
        n = n - 1;
        proof {
            assert(all.take(n + 1).drop_last() =~= all.take(n as int));
            assert(all.take(n + 1).last() == all[n as int]);
        }
        if links[n].0 == *id {
            return Some(&links[n].1);
        }
    }
    None
}

fn find_above(links: &Links, id: &String) -> (r: Option<String>)
    ensures
        r.deep_view() == above(links.deep_view(), id@),
{
    match find_link(links, id) {
        Some(Some(next)) => if find_link(links, next).is_some() {
            Some(next.clone())
        } else {
            None
        },
        _ => None,
    }
}

/// Follows the chain of duplicates to its end; nothing comes back where it has
/// too many links.
fn follow(start: &String, links: &Links) -> (r: Option<String>)
    ensures
        r.deep_view() == resolved(links.deep_view(), start@),
{
    let mut current = start.clone();
    let mut hops: u32 = 0;
    loop
        invariant
            hops <= MOST_HOPS,
            chain_end(links.deep_view(), current@, (MOST_HOPS - hops) as nat) == resolved(
                links.deep_view(),
                start@,
            ),
        decreases MOST_HOPS - hops,
    {
        match find_above(links, &current) {
            Some(next) => {
                if hops >= MOST_HOPS {
                    return None;
                }
                hops = hops + 1;
                current = next;
            },
            None => {
                return Some(current);
            },
        }
    }
}

/// Whether the chain of duplicates ends.
pub fn has_representative(start: &String, links: &Links) -> (r: bool)
    ensures
        r == resolved(links.deep_view(), start@) is Some,
{
    follow(start, links).is_some()
}

/// Follows the chain of duplicates from `start` to the representative of its
/// household. Where a listing of the chain names one that the file does not
/// know, the chain ends with the last that it knows.
pub fn resolve_representative(start: &String, raw_duplicate_of: &Links) -> (r: String)
    requires
        resolved(raw_duplicate_of.deep_view(), start@) is Some,
    ensures
        resolved(raw_duplicate_of.deep_view(), start@) == Some(r@),
{
    match follow(start, raw_duplicate_of) {
        Some(r) => r,
        None => vstd::pervasive::unreached(),
    }
}

/// The representative of a representative is that itself.
pub proof fn law_resolving_twice_changes_nothing(
    links: Seq<(Seq<char>, Option<Seq<char>>)>,
    id: Seq<char>,
)
    requires
        resolved(links, id) is Some,
    ensures
        above(links, resolved(links, id)->0) is None,
        resolved(links, resolved(links, id)->0) == resolved(links, id),
{
    lemma_chain_ends(links, id, MOST_HOPS as nat);
}

proof fn lemma_chain_ends(
    links: Seq<(Seq<char>, Option<Seq<char>>)>,
    id: Seq<char>,
    hops: nat,
)
    requires
        chain_end(links, id, hops) is Some,
    ensures
        above(links, chain_end(links, id, hops)->0) is None,
        link_of(links, id) is Some ==> link_of(links, chain_end(links, id, hops)->0) is Some,
    decreases hops,
{
    match above(links, id) {
        None => {},
        Some(next) => {
            lemma_chain_ends(links, next, (hops - 1) as nat);
        },
    }
}

// ---------------------------------------------------------------------------
// The search of a file
// ---------------------------------------------------------------------------

/// What keeps a file from being taken in.
#[derive(Debug)]
pub enum ImportError {
    /// The search address lacks a parameter.
    MissingParameter { name: String },
    UnknownSection { section: String },
    UnknownShape { shape: String },
    /// A date that cannot be read, with the field that holds it and the search
    /// or the listing that has the field.
    BadDate { field: String, text: String, owner: String },
    BadArea { id: String, area: String },
    BadMainArea { id: String },
}

pub enum ImportErrorView {
    MissingParameter { name: Seq<char> },
    UnknownSection { section: Seq<char> },
    UnknownShape { shape: Seq<char> },
    BadDate { field: Seq<char>, text: Seq<char>, owner: Seq<char> },
    BadArea { id: Seq<char>, area: Seq<char> },
    BadMainArea { id: Seq<char> },
}

impl View for ImportError {
    type V = ImportErrorView;

    open spec fn view(&self) -> ImportErrorView {
        match self {
            ImportError::MissingParameter { name } => ImportErrorView::MissingParameter {
                name: name@,
            },
            ImportError::UnknownSection { section } => ImportErrorView::UnknownSection {
                section: section@,
            },
            ImportError::UnknownShape { shape } => ImportErrorView::UnknownShape { shape: shape@ },
            ImportError::BadDate { field, text, owner } => ImportErrorView::BadDate {
                field: field@,
                text: text@,
                owner: owner@,
            },
            ImportError::BadArea { id, area } => ImportErrorView::BadArea { id: id@, area: area@ },
            ImportError::BadMainArea { id } => ImportErrorView::BadMainArea { id: id@ },
        }
    }
}

impl ImportErrorView {
    /// What a user is told. An address that is at fault is named in full;
    /// `quoted` is the text that could not be read, in quotation marks.
    pub open spec fn message(self, search_url: Seq<char>, quoted: Seq<char>) -> Seq<char> {
        match self {
            ImportErrorView::MissingParameter { name } => "searchUrl 缺少 "@ + name + " 參數: "@
                + search_url,
            ImportErrorView::UnknownSection { section } => "未知的 section="@ + section
                + "，searchUrl: "@ + search_url,
            ImportErrorView::UnknownShape { shape } => "未知的 shape="@ + shape
                + "，searchUrl: "@ + search_url,
            ImportErrorView::BadDate { field, text: _, owner } => field + " 日期格式錯誤 "@
                + quoted + "（"@ + owner + "）"@,
            ImportErrorView::BadArea { id, area: _ } => "area 格式錯誤 "@ + quoted
                + "（listing "@ + id + "）"@,
            ImportErrorView::BadMainArea { id } => "mainArea 格式錯誤（listing "@ + id + "）"@,
        }
    }
}

impl ImportError {
    /// What a user is told. The caller puts the text that could not be read in
    /// quotation marks.
    pub fn message(&self, search_url: &str, quoted: &str) -> (r: String)
        ensures
            r@ == self@.message(search_url@, quoted@),
    {
        match self {
            ImportError::MissingParameter { name } => {
                let mut r = "searchUrl 缺少 ".to_owned();
                r.append(name.as_str());
                r.append(" 參數: ");
                r.append(search_url);
                r
            },
            ImportError::UnknownSection { section } => {
                let mut r = "未知的 section=".to_owned();
                r.append(section.as_str());
                r.append("，searchUrl: ");
                r.append(search_url);
                r
            },
            ImportError::UnknownShape { shape } => {
                let mut r = "未知的 shape=".to_owned();
                r.append(shape.as_str());
                r.append("，searchUrl: ");
                r.append(search_url);
                r
            },
            ImportError::BadDate { field, text: _, owner } => {
                let mut r = field.clone();
                r.append(" 日期格式錯誤 ");
                r.append(quoted);
                r.append("（");
                r.append(owner.as_str());
                r.append("）");
                r
            },
            ImportError::BadArea { id, area: _ } => {
                let mut r = "area 格式錯誤 ".to_owned();
                r.append(quoted);
                r.append("（listing ");
                r.append(id.as_str());
                r.append("）");
                r
            },
            ImportError::BadMainArea { id } => {
                let mut r = "mainArea 格式錯誤（listing ".to_owned();
                r.append(id.as_str());
                r.append("）");
                r
            },
        }
    }
}

/// District, type of building and price range of a search.
pub open spec fn search_parts(url: Seq<char>) -> Result<
    (Seq<char>, Seq<char>, Seq<char>),
    ImportErrorView,
> {
    let section = query::param(url, "section"@);
    let shape = query::param(url, "shape"@);
    let price = query::param(url, "price"@);
    if section is None {
        Err(ImportErrorView::MissingParameter { name: "section"@ })
    } else if shape is None {
        Err(ImportErrorView::MissingParameter { name: "shape"@ })
    } else if price is None {
        Err(ImportErrorView::MissingParameter { name: "price"@ })
    } else if query::district_of(section->0) is None {
        Err(ImportErrorView::UnknownSection { section: section->0 })
    } else if query::building_type_of(shape->0) is None {
        Err(ImportErrorView::UnknownShape { shape: shape->0 })
    } else {
        Ok((query::district_of(section->0)->0, query::building_type_of(shape->0)->0, price->0))
    }
}

pub open spec fn parts_result(r: Result<(String, String, String), ImportError>) -> Result<
    (Seq<char>, Seq<char>, Seq<char>),
    ImportErrorView,
> {
    match r {
        Ok(parts) => Ok((parts.0@, parts.1@, parts.2@)),
        Err(e) => Err(e@),
    }
}

/// Reads district, type of building and price range off a search address.
pub fn parse_search_url(url: &str) -> (r: Result<(String, String, String), ImportError>)
    ensures
        parts_result(r) == search_parts(url@),
{
    let section = match find_param(url, "section") {
        Some(v) => v,
        None => {
            return Err(ImportError::MissingParameter { name: "section".to_owned() });
        },
    };
    let shape = match find_param(url, "shape") {
        Some(v) => v,
        None => {
            return Err(ImportError::MissingParameter { name: "shape".to_owned() });
        },
    };
    let price = match find_param(url, "price") {
        Some(v) => v,
        None => {
            return Err(ImportError::MissingParameter { name: "price".to_owned() });
        },
    };
    let district = match district_name(section) {
        Some(d) => d,
        None => {
            return Err(ImportError::UnknownSection { section: section.to_owned() });
        },
    };
    let building_type = match building_type_name(shape) {
        Some(b) => b,
        None => {
            return Err(ImportError::UnknownShape { shape: shape.to_owned() });
        },
    };
    Ok((district, building_type, price.to_owned()))
}

// ---------------------------------------------------------------------------
// A file
// ---------------------------------------------------------------------------

/// A file of listings.
#[derive(Debug)]
pub struct RawFile {
    pub search_url: String,
    pub artifact_url: Option<String>,
    /// The criteria of the search, written as JSON.
    pub criteria_json: String,
    pub dedup_note: Option<String>,
    pub last_checked: Option<String>,
    pub history: Vec<RawHistoryEntry>,
    pub listings: Vec<RawListing>,
}

/// One round of checking, as a file tells of it.
#[derive(Debug)]
pub struct RawHistoryEntry {
    pub date: String,
    pub new_count: i64,
    pub total_count: i64,
    pub new_ids: Vec<String>,
    pub delisted_ids: Vec<String>,
    pub note: Option<String>,
}

/// A listing, as a file holds it.
#[derive(Debug)]
pub struct RawListing {
    pub id: String,
    pub title: String,
    pub price: i64,
    pub unit_price: Double,
    pub rooms: String,
    pub area: String,
    pub main_area: Option<String>,
    pub age: Option<i64>,
    pub floor: String,
    pub community: Option<String>,
    pub address: String,
    pub agent: Option<String>,
    pub first_seen: String,
    pub duplicate_of: Option<String>,
    pub delisted: bool,
    pub delisted_date: Option<String>,
    pub note: Option<String>,
}

pub struct RawFileView {
    pub search_url: Seq<char>,
    pub artifact_url: Option<Seq<char>>,
    pub criteria_json: Seq<char>,
    pub dedup_note: Option<Seq<char>>,
    pub last_checked: Option<Seq<char>>,
    pub history: Seq<RawHistoryView>,
    pub listings: Seq<RawListingView>,
}

pub struct RawHistoryView {
    pub date: Seq<char>,
    pub new_count: i64,
    pub total_count: i64,
    pub new_ids: Seq<Seq<char>>,
    pub delisted_ids: Seq<Seq<char>>,
    pub note: Option<Seq<char>>,
}

pub struct RawListingView {
    pub id: Seq<char>,
    pub title: Seq<char>,
    pub price: i64,
    pub unit_price: Double,
    pub rooms: Seq<char>,
    pub area: Seq<char>,
    pub main_area: Option<Seq<char>>,
    pub age: Option<i64>,
    pub floor: Seq<char>,
    pub community: Option<Seq<char>>,
    pub address: Seq<char>,
    pub agent: Option<Seq<char>>,
    pub first_seen: Seq<char>,
    pub duplicate_of: Option<Seq<char>>,
    pub delisted: bool,
    pub delisted_date: Option<Seq<char>>,
    pub note: Option<Seq<char>>,
}

impl View for RawHistoryEntry {
    type V = RawHistoryView;

    open spec fn view(&self) -> RawHistoryView {
        RawHistoryView {
            date: self.date@,
            new_count: self.new_count,
            total_count: self.total_count,
            new_ids: self.new_ids.deep_view(),
            delisted_ids: self.delisted_ids.deep_view(),
            note: self.note.deep_view(),
        }
    }
}

impl DeepView for RawHistoryEntry {
    type V = RawHistoryView;

    open spec fn deep_view(&self) -> RawHistoryView {
        self@
    }
}

impl View for RawListing {
    type V = RawListingView;

    open spec fn view(&self) -> RawListingView {
        RawListingView {
            id: self.id@,
            title: self.title@,
            price: self.price,
            unit_price: self.unit_price,
            rooms: self.rooms@,
            area: self.area@,
            main_area: self.main_area.deep_view(),
            age: self.age,
            floor: self.floor@,
            community: self.community.deep_view(),
            address: self.address@,
            agent: self.agent.deep_view(),
            first_seen: self.first_seen@,
            duplicate_of: self.duplicate_of.deep_view(),
            delisted: self.delisted,
            delisted_date: self.delisted_date.deep_view(),
            note: self.note.deep_view(),
        }
    }
}

impl DeepView for RawListing {
    type V = RawListingView;

    open spec fn deep_view(&self) -> RawListingView {
        self@
    }
}

impl View for RawFile {
    type V = RawFileView;

    open spec fn view(&self) -> RawFileView {
        RawFileView {
            search_url: self.search_url@,
            artifact_url: self.artifact_url.deep_view(),
            criteria_json: self.criteria_json@,
            dedup_note: self.dedup_note.deep_view(),
            last_checked: self.last_checked.deep_view(),
            history: self.history.deep_view(),
            listings: self.listings.deep_view(),
        }
    }
}

/// The numbers of a listing that are not whole, as far as they could be read.
#[derive(Clone, Copy, Debug)]
pub struct ListingNumbers {
    pub area: Option<Double>,
    pub main_area: Option<Double>,
}

/// The dates of a file, as far as they are there and could be read.
#[derive(Debug)]
pub struct FileDates {
    pub last_checked: Option<Date>,
    /// One place for each round.
    pub history: Vec<Option<Date>>,
    /// One place for each listing.
    pub first_seen: Vec<Option<Date>>,
    pub delisted: Vec<Option<Date>>,
}

#[verifier::ext_equal]
pub struct FileDatesView {
    pub last_checked: Option<Date>,
    pub history: Seq<Option<Date>>,
    pub first_seen: Seq<Option<Date>>,
    pub delisted: Seq<Option<Date>>,
}

impl View for FileDates {
    type V = FileDatesView;

    open spec fn view(&self) -> FileDatesView {
        FileDatesView {
            last_checked: self.last_checked,
            history: self.history@,
            first_seen: self.first_seen@,
            delisted: self.delisted@,
        }
    }
}

/// The date that a text writes, where there is a text.
pub open spec fn date_in(text: Option<Seq<char>>) -> Option<Date> {
    match text {
        Some(t) => date::parsed_date(t),
        None => None,
    }
}

/// The dates of a file.
pub open spec fn dates_of(file: RawFileView) -> FileDatesView {
    FileDatesView {
        last_checked: date_in(file.last_checked),
        history: Seq::new(
            file.history.len(),
            |i: int| date::parsed_date(file.history[i].date),
        ),
        first_seen: Seq::new(
            file.listings.len(),
            |i: int| date::parsed_date(file.listings[i].first_seen),
        ),
        delisted: Seq::new(
            file.listings.len(),
            |i: int| date_in(file.listings[i].delisted_date),
        ),
    }
}

fn read_date_in(text: &Option<String>) -> (r: Option<Date>)
    ensures
        r == date_in(text.deep_view()),
{
    match text {
        Some(t) => Date::parse(t.as_str()),
        None => None,
    }
}

/// Reads the dates of a file.
pub fn read_dates(file: &RawFile) -> (r: FileDates)
    ensures
        r@ == dates_of(file@),
{
    let ghost wanted = dates_of(file@);
    let mut history: Vec<Option<Date>> = Vec::new();
    for i in 0..file.history.len()
        invariant
            wanted == dates_of(file@),
            history@ == wanted.history.take(i as int),
    {
        history.push(Date::parse(file.history[i].date.as_str()));
        assert(file@.history[i as int] == file.history[i as int]@);
        assert(history@ =~= wanted.history.take(i + 1));
    }
    let mut first_seen: Vec<Option<Date>> = Vec::new();
    let mut delisted: Vec<Option<Date>> = Vec::new();
    for i in 0..file.listings.len()
        invariant
            wanted == dates_of(file@),
            first_seen@ == wanted.first_seen.take(i as int),
            delisted@ == wanted.delisted.take(i as int),
    {
        first_seen.push(Date::parse(file.listings[i].first_seen.as_str()));
        delisted.push(read_date_in(&file.listings[i].delisted_date));
        assert(file@.listings[i as int] == file.listings[i as int]@);
        assert(first_seen@ =~= wanted.first_seen.take(i + 1));
        assert(delisted@ =~= wanted.delisted.take(i + 1));
    }
    let r = FileDates {
        last_checked: read_date_in(&file.last_checked),
        history,
        first_seen,
        delisted,
    };
    assert(r@ =~= wanted);
    r
}

// ---------------------------------------------------------------------------
// What a file comes to
// ---------------------------------------------------------------------------

/// A round of checking, to be written down.
#[derive(Debug)]
pub struct PlannedRun {
    pub checked_date: Date,
    pub new_count: i64,
    pub total_count: i64,
    pub note: Option<String>,
    pub new_ids: Vec<String>,
    pub delisted_ids: Vec<String>,
}

pub struct PlannedRunView {
    pub checked_date: Date,
    pub new_count: i64,
    pub total_count: i64,
    pub note: Option<Seq<char>>,
    pub new_ids: Seq<Seq<char>>,
    pub delisted_ids: Seq<Seq<char>>,
}

impl View for PlannedRun {
    type V = PlannedRunView;

    open spec fn view(&self) -> PlannedRunView {
        PlannedRunView {
            checked_date: self.checked_date,
            new_count: self.new_count,
            total_count: self.total_count,
            note: self.note.deep_view(),
            new_ids: self.new_ids.deep_view(),
            delisted_ids: self.delisted_ids.deep_view(),
        }
    }
}

impl DeepView for PlannedRun {
    type V = PlannedRunView;

    open spec fn deep_view(&self) -> PlannedRunView {
        self@
    }
}

/// What a file comes to.
#[derive(Debug)]
pub struct ImportPlan {
    pub district: String,
    pub building_type: String,
    pub price_range: String,
    pub search_url: String,
    pub artifact_url: Option<String>,
    pub criteria_json: String,
    pub dedup_note: Option<String>,
    pub last_checked: Option<Date>,
    pub runs: Vec<PlannedRun>,
    /// The listings, not yet seen in a round.
    pub listings: Vec<Listing>,
    pub representative_count: usize,
    pub duplicate_count: usize,
    pub delisted_count: usize,
}

#[verifier::ext_equal]
pub struct ImportPlanView {
    pub district: Seq<char>,
    pub building_type: Seq<char>,
    pub price_range: Seq<char>,
    pub search_url: Seq<char>,
    pub artifact_url: Option<Seq<char>>,
    pub criteria_json: Seq<char>,
    pub dedup_note: Option<Seq<char>>,
    pub last_checked: Option<Date>,
    pub runs: Seq<PlannedRunView>,
    pub listings: Seq<ListingView>,
    pub representative_count: nat,
    pub duplicate_count: nat,
    pub delisted_count: nat,
}

impl View for ImportPlan {
    type V = ImportPlanView;

    open spec fn view(&self) -> ImportPlanView {
        ImportPlanView {
            district: self.district@,
            building_type: self.building_type@,
            price_range: self.price_range@,
            search_url: self.search_url@,
            artifact_url: self.artifact_url.deep_view(),
            criteria_json: self.criteria_json@,
            dedup_note: self.dedup_note.deep_view(),
            last_checked: self.last_checked,
            runs: self.runs.deep_view(),
            listings: self.listings.deep_view(),
            representative_count: self.representative_count as nat,
            duplicate_count: self.duplicate_count as nat,
            delisted_count: self.delisted_count as nat,
        }
    }
}

/// One place for each round and each listing.
pub open spec fn places_fit(
    file: RawFileView,
    numbers: Seq<ListingNumbers>,
    dates: FileDatesView,
) -> bool {
    &&& numbers.len() == file.listings.len()
    &&& dates.history.len() == file.history.len()
    &&& dates.first_seen.len() == file.listings.len()
    &&& dates.delisted.len() == file.listings.len()
}

pub open spec fn link_of_listing() -> spec_fn(RawListingView) -> (Seq<char>, Option<Seq<char>>) {
    |l: RawListingView| (l.id, l.duplicate_of)
}

/// What each listing of a file is said to be a duplicate of.
pub open spec fn links_of(file: RawFileView) -> Seq<(Seq<char>, Option<Seq<char>>)> {
    file.listings.map_values(link_of_listing())
}

/// The first `n` rounds, or the first of them whose date cannot be read.
pub open spec fn runs_upto(file: RawFileView, dates: FileDatesView, n: int) -> Result<
    Seq<PlannedRunView>,
    ImportErrorView,
>
    decreases n,
{
    if n <= 0 {
        Ok(seq![])
    } else {
        match runs_upto(file, dates, n - 1) {
            Err(e) => Err(e),
            Ok(runs) => {
                let h = file.history[n - 1];
                match dates.history[n - 1] {
                    None => Err(
                        ImportErrorView::BadDate {
                            field: "history.date"@,
                            text: h.date,
                            owner: file.search_url,
                        },
                    ),
                    Some(checked_date) => Ok(
                        runs.push(
                            PlannedRunView {
                                checked_date,
                                new_count: h.new_count,
                                total_count: h.total_count,
                                note: h.note,
                                new_ids: h.new_ids,
                                delisted_ids: h.delisted_ids,
                            },
                        ),
                    ),
                }
            },
        }
    }
}

/// A listing of a file, or what is wrong with it. Nothing is said of one whose
/// chain of duplicates has no end.
pub open spec fn planned_listing(
    file: RawFileView,
    numbers: Seq<ListingNumbers>,
    dates: FileDatesView,
    i: int,
) -> Option<Result<ListingView, ImportErrorView>> {
    let l = file.listings[i];
    if numbers[i].area is None {
        Some(Err(ImportErrorView::BadArea { id: l.id, area: l.area }))
    } else if l.main_area is Some && numbers[i].main_area is None {
        Some(Err(ImportErrorView::BadMainArea { id: l.id }))
    } else if dates.first_seen[i] is None {
        Some(
            Err(
                ImportErrorView::BadDate {
                    field: "firstSeen"@,
                    text: l.first_seen,
                    owner: l.id,
                },
            ),
        )
    } else if l.delisted_date is Some && dates.delisted[i] is None {
        Some(
            Err(
                ImportErrorView::BadDate {
                    field: "delistedDate"@,
                    text: l.delisted_date->0,
                    owner: l.id,
                },
            ),
        )
    } else {
        match resolved(links_of(file), l.id) {
            None => None,
            Some(representative) => Some(
                Ok(
                    ListingView {
                        card: CardView {
                            id: l.id,
                            title: l.title,
                            price: l.price,
                            unit_price: l.unit_price,
                            rooms: l.rooms,
                            area: numbers[i].area->0,
                            main_area: if l.main_area is Some {
                                numbers[i].main_area
                            } else {
                                None
                            },
                            age: l.age,
                            floor: l.floor,
                            community: l.community,
                            address: l.address,
                            agent: l.agent,
                        },
                        first_seen: dates.first_seen[i]->0,
                        duplicate_of: if representative == l.id {
                            None
                        } else {
                            Some(representative)
                        },
                        delisted: l.delisted,
                        delisted_date: if l.delisted_date is Some {
                            dates.delisted[i]
                        } else {
                            None
                        },
                        note: l.note,
                        last_seen_check_run_id: None,
                    },
                ),
            ),
        }
    }
}

/// The first `n` listings, or the first of them that cannot be taken in.
pub open spec fn listings_upto(
    file: RawFileView,
    numbers: Seq<ListingNumbers>,
    dates: FileDatesView,
    n: int,
) -> Option<Result<Seq<ListingView>, ImportErrorView>>
    decreases n,
{
    if n <= 0 {
        Some(Ok(seq![]))
    } else {
        match listings_upto(file, numbers, dates, n - 1) {
            Some(Ok(listings)) => match planned_listing(file, numbers, dates, n - 1) {
                Some(Ok(l)) => Some(Ok(listings.push(l))),
                Some(Err(e)) => Some(Err(e)),
                None => None,
            },
            other => other,
        }
    }
}

pub open spec fn is_representative() -> spec_fn(ListingView) -> bool {
    |l: ListingView| l.duplicate_of is None
}

pub open spec fn is_duplicate() -> spec_fn(ListingView) -> bool {
    |l: ListingView| l.duplicate_of is Some
}

pub open spec fn is_delisted() -> spec_fn(ListingView) -> bool {
    |l: ListingView| l.delisted
}

/// What a file comes to, or what is wrong with it: the search comes first,
/// then the rounds, then the listings. Nothing is said of a file with a chain
/// of duplicates without an end, unless something is wrong before that.
pub open spec fn planned(
    file: RawFileView,
    numbers: Seq<ListingNumbers>,
    dates: FileDatesView,
) -> Option<Result<ImportPlanView, ImportErrorView>> {
    match search_parts(file.search_url) {
        Err(e) => Some(Err(e)),
        Ok((district, building_type, price_range)) => if file.last_checked is Some
            && dates.last_checked is None {
            Some(
                Err(
                    ImportErrorView::BadDate {
                        field: "lastChecked"@,
                        text: file.last_checked->0,
                        owner: file.search_url,
                    },
                ),
            )
        } else {
            match runs_upto(file, dates, file.history.len() as int) {
                Err(e) => Some(Err(e)),
                Ok(runs) => match listings_upto(
                    file,
                    numbers,
                    dates,
                    file.listings.len() as int,
                ) {
                    None => None,
                    Some(Err(e)) => Some(Err(e)),
                    Some(Ok(listings)) => Some(
                        Ok(
                            ImportPlanView {
                                district,
                                building_type,
                                price_range,
                                search_url: file.search_url,
                                artifact_url: file.artifact_url,
                                criteria_json: file.criteria_json,
                                dedup_note: file.dedup_note,
                                last_checked: if file.last_checked is Some {
                                    dates.last_checked
                                } else {
                                    None
                                },
                                runs,
                                listings,
                                representative_count: listings.filter(is_representative()).len(),
                                duplicate_count: listings.filter(is_duplicate()).len(),
                                delisted_count: listings.filter(is_delisted()).len(),
                            },
                        ),
                    ),
                },
            }
        },
    }
}

pub open spec fn plan_result(r: Result<ImportPlan, ImportError>) -> Result<
    ImportPlanView,
    ImportErrorView,
> {
    match r {
        Ok(plan) => Ok(plan@),
        Err(e) => Err(e@),
    }
}

pub open spec fn plan_outcome(r: Option<Result<ImportPlan, ImportError>>) -> Option<
    Result<ImportPlanView, ImportErrorView>,
> {
    match r {
        Some(v) => Some(plan_result(v)),
        None => None,
    }
}

fn links(file: &RawFile) -> (r: Links)
    ensures
        r.deep_view() == links_of(file@),
{
    let mut r: Links = Vec::new();
    for i in 0..file.listings.len()
        invariant
            r.deep_view() == links_of(file@).take(i as int),
    {
        let l = &file.listings[i];
        let ghost before = r.deep_view();
        r.push((l.id.clone(), copy_text(&l.duplicate_of)));
        proof {
            assert(file@.listings[i as int] == l@);
            assert(r.deep_view() =~= before.push((l.id@, l.duplicate_of.deep_view())));
            assert(r.deep_view() =~= links_of(file@).take(i + 1));
        }
    }
    assert(r.deep_view() =~= links_of(file@));
    r
}

/// The view of the rounds that were read.
spec fn runs_result(r: Result<Vec<PlannedRun>, ImportError>) -> Result<
    Seq<PlannedRunView>,
    ImportErrorView,
> {
    match r {
        Ok(runs) => Ok(runs.deep_view()),
        Err(e) => Err(e@),
    }
}

proof fn lemma_runs_end(file: RawFileView, dates: FileDatesView, m: int, n: int)
    requires
        0 <= m <= n,
        runs_upto(file, dates, m) is Err,
    ensures
        runs_upto(file, dates, n) == runs_upto(file, dates, m),
    decreases n,
{
    if m < n {
        lemma_runs_end(file, dates, m, n - 1);
    }
}

fn plan_runs(file: &RawFile, dates: &FileDates) -> (r: Result<Vec<PlannedRun>, ImportError>)
    requires
        dates.history.len() == file.history.len(),
    ensures
        runs_result(r) == runs_upto(file@, dates@, file@.history.len() as int),
{
    let mut runs: Vec<PlannedRun> = Vec::new();
    assert(runs.deep_view() =~= Seq::<PlannedRunView>::empty());
    for i in 0..file.history.len()
        invariant
            dates.history.len() == file.history.len(),
            runs_upto(file@, dates@, i as int) == Ok::<Seq<PlannedRunView>, ImportErrorView>(
                runs.deep_view(),
            ),
    {
        let h = &file.history[i];
        assert(file@.history[i as int] == h@);
        match dates.history[i] {
            None => {
                let e = ImportError::BadDate {
                    field: "history.date".to_owned(),
                    text: h.date.clone(),
                    owner: file.search_url.clone(),
                };
                proof {
                    lemma_runs_end(file@, dates@, i + 1, file@.history.len() as int);
                }
                return Err(e);
            },
            Some(checked_date) => {
                let ghost before = runs.deep_view();
                let run = PlannedRun {
                    checked_date,
                    new_count: h.new_count,
                    total_count: h.total_count,
                    note: copy_text(&h.note),
                    new_ids: copy_texts(&h.new_ids),
                    delisted_ids: copy_texts(&h.delisted_ids),
                };
                let ghost v = run@;
                runs.push(run);
                assert(runs.deep_view() =~= before.push(v));
            },
        }
    }
    Ok(runs)
}

/// The view of a listing that was read.
spec fn listing_outcome(r: Option<Result<Listing, ImportError>>) -> Option<
    Result<ListingView, ImportErrorView>,
> {
    match r {
        Some(Ok(l)) => Some(Ok(l@)),
        Some(Err(e)) => Some(Err(e@)),
        None => None,
    }
}

fn plan_listing(
    file: &RawFile,
    all_links: &Links,
    numbers: &Vec<ListingNumbers>,
    dates: &FileDates,
    i: usize,
) -> (r: Option<Result<Listing, ImportError>>)
    requires
        i < file.listings.len(),
        all_links.deep_view() == links_of(file@),
        places_fit(file@, numbers@, dates@),
    ensures
        listing_outcome(r) == planned_listing(file@, numbers@, dates@, i as int),
{
    let l = &file.listings[i];
    assert(file@.listings[i as int] == l@);
    let area = match numbers[i].area {
        Some(area) => area,
        None => {
            return Some(Err(ImportError::BadArea { id: l.id.clone(), area: l.area.clone() }));
        },
    };
    let main_area = match &l.main_area {
        Some(_) => match numbers[i].main_area {
            Some(main_area) => Some(main_area),
            None => {
                return Some(Err(ImportError::BadMainArea { id: l.id.clone() }));
            },
        },
        None => None,
    };
    let first_seen = match dates.first_seen[i] {
        Some(d) => d,
        None => {
            return Some(
                Err(
                    ImportError::BadDate {
                        field: "firstSeen".to_owned(),
                        text: l.first_seen.clone(),
                        owner: l.id.clone(),
                    },
                ),
            );
        },
    };
    let delisted_date = match &l.delisted_date {
        Some(text) => match dates.delisted[i] {
            Some(d) => Some(d),
            None => {
                return Some(
                    Err(
                        ImportError::BadDate {
                            field: "delistedDate".to_owned(),
                            text: text.clone(),
                            owner: l.id.clone(),
                        },
                    ),
                );
            },
        },
        None => None,
    };
    if !has_representative(&l.id, all_links) {
        return None;
    }
    let representative = resolve_representative(&l.id, all_links);
    let duplicate_of = if representative == l.id {
        None
    } else {
        Some(representative)
    };
    Some(
        Ok(
            Listing {
                card: ScrapedCard {
                    id: l.id.clone(),
                    title: l.title.clone(),
                    price: l.price,
                    unit_price: l.unit_price,
                    rooms: l.rooms.clone(),
                    area,
                    main_area,
                    age: l.age,
                    floor: l.floor.clone(),
                    community: copy_text(&l.community),
                    address: l.address.clone(),
                    agent: copy_text(&l.agent),
                },
                first_seen,
                duplicate_of,
                delisted: l.delisted,
                delisted_date,
                note: copy_text(&l.note),
                last_seen_check_run_id: None,
            },
        ),
    )
}

proof fn lemma_listings_end(
    file: RawFileView,
    numbers: Seq<ListingNumbers>,
    dates: FileDatesView,
    m: int,
    n: int,
)
    requires
        0 <= m <= n,
        !(listings_upto(file, numbers, dates, m) matches Some(Ok(_))),
    ensures
        listings_upto(file, numbers, dates, n) == listings_upto(file, numbers, dates, m),
    decreases n,
{
    if m < n {
        lemma_listings_end(file, numbers, dates, m, n - 1);
    }
}

/// The view of the listings that were read.
spec fn listings_outcome(r: Option<Result<Vec<Listing>, ImportError>>) -> Option<
    Result<Seq<ListingView>, ImportErrorView>,
> {
    match r {
        Some(Ok(ls)) => Some(Ok(ls.deep_view())),
        Some(Err(e)) => Some(Err(e@)),
        None => None,
    }
}

fn plan_listings(file: &RawFile, numbers: &Vec<ListingNumbers>, dates: &FileDates) -> (r: Option<
    Result<Vec<Listing>, ImportError>,
>)
    requires
        places_fit(file@, numbers@, dates@),
    ensures
        listings_outcome(r) == listings_upto(
            file@,
            numbers@,
            dates@,
            file@.listings.len() as int,
        ),
{
    let all_links = links(file);
    let mut listings: Vec<Listing> = Vec::new();
    assert(listings.deep_view() =~= Seq::<ListingView>::empty());
    for i in 0..file.listings.len()
        invariant
            all_links.deep_view() == links_of(file@),
            places_fit(file@, numbers@, dates@),
            listings_upto(file@, numbers@, dates@, i as int) == Some(
                Ok::<Seq<ListingView>, ImportErrorView>(listings.deep_view()),
            ),
    {
        match plan_listing(file, &all_links, numbers, dates, i) {
            Some(Ok(l)) => {
                let ghost before = listings.deep_view();
                let ghost v = l@;
                listings.push(l);
                assert(listings.deep_view() =~= before.push(v));
            },
            Some(Err(e)) => {
                proof {
                    lemma_listings_end(
                        file@,
                        numbers@,
                        dates@,
                        i + 1,
                        file@.listings.len() as int,
                    );
                }
                return Some(Err(e));
            },
            None => {
                proof {
                    lemma_listings_end(
                        file@,
                        numbers@,
                        dates@,
                        i + 1,
                        file@.listings.len() as int,
                    );
                }
                return None;
            },
        }
    }
    Some(Ok(listings))
}

/// How many listings are representatives, duplicates and off the market.
fn count_listings(listings: &Vec<Listing>) -> (r: (usize, usize, usize))
    ensures
        r.0 == listings.deep_view().filter(is_representative()).len(),
        r.1 == listings.deep_view().filter(is_duplicate()).len(),
        r.2 == listings.deep_view().filter(is_delisted()).len(),
{
    let ghost all = listings.deep_view();
    let mut representatives: usize = 0;
    let mut duplicates: usize = 0;
    let mut delisted: usize = 0;
    proof {
        reveal(Seq::filter);
    }
    for i in 0..listings.len()
        invariant
            all == listings.deep_view(),
            representatives == all.take(i as int).filter(is_representative()).len(),
            duplicates == all.take(i as int).filter(is_duplicate()).len(),
            delisted == all.take(i as int).filter(is_delisted()).len(),
            representatives <= i,
            duplicates <= i,
            delisted <= i,
    {
        proof {
            reveal(Seq::filter);
            assert(all.take(i + 1).drop_last() =~= all.take(i as int));
            assert(all.take(i + 1).last() == listings[i as int]@);
        }
        match &listings[i].duplicate_of {
            None => {
                representatives = representatives + 1;
            },
            Some(_) => {
                duplicates = duplicates + 1;
            },
        }
        if listings[i].delisted {
            delisted = delisted + 1;
        }
    }
    assert(all.take(all.len() as int) =~= all);
    (representatives, duplicates, delisted)
}

fn try_plan(file: &RawFile, numbers: &Vec<ListingNumbers>, dates: &FileDates) -> (r: Option<
    Result<ImportPlan, ImportError>,
>)
    requires
        places_fit(file@, numbers@, dates@),
    ensures
        plan_outcome(r) == planned(file@, numbers@, dates@),
{
    let (district, building_type, price_range) = match parse_search_url(file.search_url.as_str()) {
        Ok(parts) => parts,
        Err(e) => {
            return Some(Err(e));
        },
    };
    let last_checked = match &file.last_checked {
        Some(text) => match dates.last_checked {
            Some(d) => Some(d),
            None => {
                return Some(
                    Err(
                        ImportError::BadDate {
                            field: "lastChecked".to_owned(),
                            text: text.clone(),
                            owner: file.search_url.clone(),
                        },
                    ),
                );
            },
        },
        None => None,
    };
    let runs = match plan_runs(file, dates) {
        Ok(runs) => runs,
        Err(e) => {
            return Some(Err(e));
        },
    };
    let listings = match plan_listings(file, numbers, dates) {
        Some(Ok(listings)) => listings,
        Some(Err(e)) => {
            return Some(Err(e));
        },
        None => {
            return None;
        },
    };
    let (representative_count, duplicate_count, delisted_count) = count_listings(&listings);
    Some(
        Ok(
            ImportPlan {
                district,
                building_type,
                price_range,
                search_url: file.search_url.clone(),
                artifact_url: copy_text(&file.artifact_url),
                criteria_json: file.criteria_json.clone(),
                dedup_note: copy_text(&file.dedup_note),
                last_checked,
                runs,
                listings,
                representative_count,
                duplicate_count,
                delisted_count,
            },
        ),
    )
}

/// Whether every chain of duplicates that is looked at has an end.
pub fn can_plan(file: &RawFile, numbers: &Vec<ListingNumbers>, dates: &FileDates) -> (r: bool)
    requires
        places_fit(file@, numbers@, dates@),
    ensures
        r == planned(file@, numbers@, dates@) is Some,
{
    try_plan(file, numbers, dates).is_some()
}

/// Tells what a file comes to whose dates and numbers have been read.
pub fn plan_import(file: &RawFile, numbers: &Vec<ListingNumbers>, dates: &FileDates) -> (r: Result<
    ImportPlan,
    ImportError,
>)
    requires
        places_fit(file@, numbers@, dates@),
        planned(file@, numbers@, dates@) is Some,
    ensures
        Some(plan_result(r)) == planned(file@, numbers@, dates@),
{
    match try_plan(file, numbers, dates) {
        Some(r) => r,
        None => vstd::pervasive::unreached(),
    }
}

/// Tells what a file comes to whose numbers have been read. Nothing comes back
/// where a chain of duplicates has no end.
pub fn import_file(file: &RawFile, numbers: &Vec<ListingNumbers>) -> (r: Option<
    Result<ImportPlan, ImportError>,
>)
    requires
        numbers.len() == file.listings.len(),
    ensures
        plan_outcome(r) == planned(file@, numbers@, dates_of(file@)),
{
    let dates = read_dates(file);
    if can_plan(file, numbers, &dates) {
        Some(plan_import(file, numbers, &dates))
    } else {
        None
    }
}

// ---------------------------------------------------------------------------
// Laws
// ---------------------------------------------------------------------------

proof fn lemma_link_of_is_entry(links: Seq<(Seq<char>, Option<Seq<char>>)>, id: Seq<char>)
    ensures
        link_of(links, id) is Some <==> exists|i: int|
            0 <= i < links.len() && (#[trigger] links[i]).0 == id,
    decreases links.len(),
{
    if links.len() > 0 {
        let front = links.drop_last();
        lemma_link_of_is_entry(front, id);
        assert(links[links.len() - 1] == links.last());
        if exists|i: int| 0 <= i < links.len() && (#[trigger] links[i]).0 == id {
            let i = choose|i: int| 0 <= i < links.len() && (#[trigger] links[i]).0 == id;
            if i < front.len() {
                assert(front[i].0 == id);
            }
        }
        if exists|i: int| 0 <= i < front.len() && (#[trigger] front[i]).0 == id {
            let i = choose|i: int| 0 <= i < front.len() && (#[trigger] front[i]).0 == id;
            assert(links[i].0 == id);
        }
    }
}

pub(crate) proof fn lemma_listings_are_planned(
    file: RawFileView,
    numbers: Seq<ListingNumbers>,
    dates: FileDatesView,
    n: int,
)
    requires
        0 <= n,
        listings_upto(file, numbers, dates, n) matches Some(Ok(_)),
    ensures
        ({
            let ls = listings_upto(file, numbers, dates, n)->0->Ok_0;
            &&& ls.len() == n
            &&& forall|i: int|
                0 <= i < n ==> planned_listing(file, numbers, dates, i) == Some(
                    Ok::<ListingView, ImportErrorView>(#[trigger] ls[i]),
                )
        }),
    decreases n,
{
    if n > 0 {
        lemma_listings_are_planned(file, numbers, dates, n - 1);
    }
}

pub(crate) proof fn lemma_runs_are_planned(file: RawFileView, dates: FileDatesView, n: int)
    requires
        0 <= n,
        runs_upto(file, dates, n) is Ok,
    ensures
        ({
            let runs = runs_upto(file, dates, n)->Ok_0;
            &&& runs.len() == n
            &&& forall|i: int|
                0 <= i < n ==> {
                    &&& dates.history[i] == Some((#[trigger] runs[i]).checked_date)
                    &&& runs[i].new_count == file.history[i].new_count
                    &&& runs[i].total_count == file.history[i].total_count
                    &&& runs[i].note == file.history[i].note
                    &&& runs[i].new_ids == file.history[i].new_ids
                    &&& runs[i].delisted_ids == file.history[i].delisted_ids
                }
        }),
    decreases n,
{
    if n > 0 {
        lemma_runs_are_planned(file, dates, n - 1);
    }
}

/// In what a file comes to, every duplicate names a listing of the file that
/// represents its household, however long the chain of duplicates was.
pub proof fn law_import_has_one_level(
    file: RawFileView,
    numbers: Seq<ListingNumbers>,
    dates: FileDatesView,
    i: int,
)
    requires
        planned(file, numbers, dates) matches Some(Ok(_)),
        0 <= i < file.listings.len(),
    ensures
        ({
            let ls = planned(file, numbers, dates)->0->Ok_0.listings;
            &&& ls.len() == file.listings.len()
            &&& ls[i].duplicate_of is Some ==> exists|j: int|
                0 <= j < ls.len() && (#[trigger] ls[j]).id() == ls[i].duplicate_of->0
                    && ls[j].duplicate_of is None
        }),
{
    let n = file.listings.len() as int;
    let links = links_of(file);
    lemma_listings_are_planned(file, numbers, dates, n);
    let ls = planned(file, numbers, dates)->0->Ok_0.listings;
    assert(planned_listing(file, numbers, dates, i) == Some(
        Ok::<ListingView, ImportErrorView>(ls[i]),
    ));
    if ls[i].duplicate_of is Some {
        let id = file.listings[i].id;
        let rep = resolved(links, id)->0;
        assert(links[i].0 == id);
        lemma_link_of_is_entry(links, id);
        lemma_chain_ends(links, id, MOST_HOPS as nat);
        law_resolving_twice_changes_nothing(links, id);
        lemma_link_of_is_entry(links, rep);
        let j = choose|j: int| 0 <= j < links.len() && (#[trigger] links[j]).0 == rep;
        assert(file.listings[j].id == rep);
        assert(planned_listing(file, numbers, dates, j) == Some(
            Ok::<ListingView, ImportErrorView>(ls[j]),
        ));
        assert(ls[j].id() == rep && ls[j].duplicate_of is None);
    }
}

/// Every listing of a file is either a representative or a duplicate.
pub proof fn law_counts_cover_the_listings(
    file: RawFileView,
    numbers: Seq<ListingNumbers>,
    dates: FileDatesView,
)
    requires
        planned(file, numbers, dates) matches Some(Ok(_)),
    ensures
        ({
            let plan = planned(file, numbers, dates)->0->Ok_0;
            &&& plan.representative_count + plan.duplicate_count == file.listings.len()
            &&& plan.delisted_count <= file.listings.len()
        }),
{
    let n = file.listings.len() as int;
    lemma_listings_are_planned(file, numbers, dates, n);
    let ls = planned(file, numbers, dates)->0->Ok_0.listings;
    lemma_counts(ls);
}

proof fn lemma_counts(ls: Seq<ListingView>)
    ensures
        ls.filter(is_representative()).len() + ls.filter(is_duplicate()).len() == ls.len(),
        ls.filter(is_delisted()).len() <= ls.len(),
    decreases ls.len(),
{
    reveal(Seq::filter);
    if ls.len() > 0 {
        lemma_counts(ls.drop_last());
    }
}

/// What an import takes of a listing: every field as the file has it, the
/// numbers and dates as they were read, and no round in which it was seen. It
/// is only the listing above that may be another than the file names.
pub proof fn law_listing_is_as_the_file_has_it(
    file: RawFileView,
    numbers: Seq<ListingNumbers>,
    dates: FileDatesView,
    i: int,
)
    requires
        planned(file, numbers, dates) matches Some(Ok(_)),
        0 <= i < file.listings.len(),
    ensures
        ({
            let l = planned(file, numbers, dates)->0->Ok_0.listings[i];
            let f = file.listings[i];
            &&& l.card.id == f.id
            &&& l.card.title == f.title
            &&& l.card.price == f.price
            &&& l.card.unit_price == f.unit_price
            &&& l.card.rooms == f.rooms
            &&& l.card.age == f.age
            &&& l.card.floor == f.floor
            &&& l.card.community == f.community
            &&& l.card.address == f.address
            &&& l.card.agent == f.agent
            &&& l.delisted == f.delisted
            &&& l.note == f.note
            &&& numbers[i].area == Some(l.card.area)
            &&& f.main_area is Some ==> l.card.main_area is Some && numbers[i].main_area
                == l.card.main_area
            &&& f.main_area is None ==> l.card.main_area is None
            &&& dates.first_seen[i] == Some(l.first_seen)
            &&& f.delisted_date is Some ==> l.delisted_date is Some && dates.delisted[i]
                == l.delisted_date
            &&& f.delisted_date is None ==> l.delisted_date is None
            &&& l.last_seen_check_run_id is None
        }),
{
    let n = file.listings.len() as int;
    lemma_listings_are_planned(file, numbers, dates, n);
    let ls = planned(file, numbers, dates)->0->Ok_0.listings;
    assert(planned_listing(file, numbers, dates, i) == Some(
        Ok::<ListingView, ImportErrorView>(ls[i]),
    ));
}

/// The dates of a file are read from its own texts, each from the one that it
/// stands for.
pub proof fn law_dates_come_from_their_texts(file: RawFileView, i: int, h: int)
    requires
        0 <= i < file.listings.len(),
        0 <= h < file.history.len(),
    ensures
        ({
            let dates = dates_of(file);
            let read = |text: Seq<char>, d: Option<Date>|
                match date::date_read(text, "%Y-%m-%d"@) {
                    Some(found) => d == Some(
                        Date { year: found.0, month: found.1, day: found.2 },
                    ),
                    None => d is None,
                };
            &&& read(file.listings[i].first_seen, dates.first_seen[i])
            &&& file.listings[i].delisted_date matches Some(text) ==> read(text, dates.delisted[i])
            &&& file.listings[i].delisted_date is None ==> dates.delisted[i] is None
            &&& read(file.history[h].date, dates.history[h])
            &&& file.last_checked matches Some(text) ==> read(text, dates.last_checked)
            &&& file.last_checked is None ==> dates.last_checked is None
            &&& dates.first_seen.len() == file.listings.len()
            &&& dates.delisted.len() == file.listings.len()
            &&& dates.history.len() == file.history.len()
        }),
{
}

proof fn lemma_link_is(file: RawFileView, i: int)
    requires
        0 <= i < file.listings.len(),
        forall|a: int, b: int|
            #![trigger file.listings[a], file.listings[b]]
            0 <= a < b < file.listings.len() ==> file.listings[a].id != file.listings[b].id,
    ensures
        link_of(links_of(file), file.listings[i].id) == Some(file.listings[i].duplicate_of),
{
    let links = links_of(file);
    lemma_link_upto(links, i, links.len() as int);
    assert(links.take(links.len() as int) =~= links);
}

proof fn lemma_link_upto(links: Seq<(Seq<char>, Option<Seq<char>>)>, i: int, n: int)
    requires
        0 <= i < n <= links.len(),
        forall|k: int| i < k < links.len() ==> (#[trigger] links[k]).0 != links[i].0,
    ensures
        link_of(links.take(n), links[i].0) == Some(links[i].1),
    decreases n,
{
    assert(links.take(n).last() == links[n - 1]);
    assert(links.take(n).drop_last() =~= links.take(n - 1));
    if i < n - 1 {
        lemma_link_upto(links, i, n - 1);
    }
}

proof fn lemma_more_hops(
    links: Seq<(Seq<char>, Option<Seq<char>>)>,
    id: Seq<char>,
    hops: nat,
    more: nat,
)
    requires
        hops <= more,
        chain_end(links, id, hops) is Some,
    ensures
        chain_end(links, id, more) == chain_end(links, id, hops),
    decreases hops,
{
    match above(links, id) {
        None => {},
        Some(next) => {
            lemma_more_hops(links, next, (hops - 1) as nat, (more - 1) as nat);
        },
    }
}

/// A listing goes with the one that it names: where a file has each id once, a
/// listing that names none represents its household, so does one that names an
/// id that the file does not know, and one that names another of the file has
/// the same representative as that one.
pub proof fn law_duplicate_goes_with_the_one_it_names(
    file: RawFileView,
    numbers: Seq<ListingNumbers>,
    dates: FileDatesView,
    i: int,
)
    requires
        planned(file, numbers, dates) matches Some(Ok(_)),
        0 <= i < file.listings.len(),
        forall|a: int, b: int|
            #![trigger file.listings[a], file.listings[b]]
            0 <= a < b < file.listings.len() ==> file.listings[a].id != file.listings[b].id,
    ensures
        ({
            let ls = planned(file, numbers, dates)->0->Ok_0.listings;
            match file.listings[i].duplicate_of {
                None => ls[i].duplicate_of is None,
                Some(t) => {
                    &&& (forall|j: int|
                        0 <= j < file.listings.len() ==> (#[trigger] file.listings[j]).id != t)
                        ==> ls[i].duplicate_of is None
                    &&& forall|j: int|
                        0 <= j < file.listings.len() && (#[trigger] file.listings[j]).id == t
                            ==> ls[i].duplicate_of == (if ls[j].duplicate_of is Some {
                            ls[j].duplicate_of
                        } else {
                            Some(t)
                        })
                },
            }
        }),
{
    let n = file.listings.len() as int;
    let links = links_of(file);
    lemma_listings_are_planned(file, numbers, dates, n);
    let ls = planned(file, numbers, dates)->0->Ok_0.listings;
    let f = file.listings[i];
    assert(planned_listing(file, numbers, dates, i) == Some(
        Ok::<ListingView, ImportErrorView>(ls[i]),
    ));
    lemma_link_is(file, i);
    if f.duplicate_of is Some {
        let t = f.duplicate_of->0;
        lemma_link_of_is_entry(links, t);
        if forall|j: int| 0 <= j < n ==> (#[trigger] file.listings[j]).id != t {
            assert forall|j: int| 0 <= j < links.len() implies (#[trigger] links[j]).0 != t by {
                assert(file.listings[j].id != t);
            }
        }
        assert forall|j: int| 0 <= j < n && (#[trigger] file.listings[j]).id == t implies ls[i]
            .duplicate_of == (if ls[j].duplicate_of is Some {
            ls[j].duplicate_of
        } else {
            Some(t)
        }) by {
            assert(planned_listing(file, numbers, dates, j) == Some(
                Ok::<ListingView, ImportErrorView>(ls[j]),
            ));
            assert(links[j].0 == t);
            assert(above(links, f.id) == Some(t));
            lemma_more_hops(links, t, (MOST_HOPS - 1) as nat, MOST_HOPS as nat);
            assert(resolved(links, f.id) == resolved(links, t));
            let rep = resolved(links, f.id)->0;
            law_resolving_twice_changes_nothing(links, f.id);
            if rep == f.id {
                assert(above(links, f.id) is None);
            }
        }
    }
}

/// What an import takes of the search and its rounds is the file's, field by
/// field.
pub proof fn law_search_and_rounds_are_as_the_file_has_them(
    file: RawFileView,
    numbers: Seq<ListingNumbers>,
    dates: FileDatesView,
    h: int,
)
    requires
        planned(file, numbers, dates) matches Some(Ok(_)),
        0 <= h < file.history.len(),
    ensures
        ({
            let plan = planned(file, numbers, dates)->0->Ok_0;
            let run = plan.runs[h];
            let f = file.history[h];
            &&& plan.search_url == file.search_url
            &&& plan.artifact_url == file.artifact_url
            &&& plan.criteria_json == file.criteria_json
            &&& plan.dedup_note == file.dedup_note
            &&& file.last_checked is None ==> plan.last_checked is None
            &&& file.last_checked is Some ==> plan.last_checked is Some && plan.last_checked
                == dates.last_checked
            &&& plan.listings.len() == file.listings.len()
            &&& plan.runs.len() == file.history.len()
            &&& dates.history[h] == Some(run.checked_date)
            &&& run.new_count == f.new_count
            &&& run.total_count == f.total_count
            &&& run.note == f.note
            &&& run.new_ids == f.new_ids
            &&& run.delisted_ids == f.delisted_ids
            &&& plan.representative_count == plan.listings.filter(
                |l: ListingView| l.duplicate_of is None,
            ).len()
            &&& plan.duplicate_count == plan.listings.filter(
                |l: ListingView| l.duplicate_of is Some,
            ).len()
            &&& plan.delisted_count == plan.listings.filter(|l: ListingView| l.delisted).len()
        }),
{
    lemma_runs_are_planned(file, dates, file.history.len() as int);
    lemma_listings_are_planned(file, numbers, dates, file.listings.len() as int);
    let ls = planned(file, numbers, dates)->0->Ok_0.listings;
    lemma_same_filter(ls, is_representative(), |l: ListingView| l.duplicate_of is None);
    lemma_same_filter(ls, is_duplicate(), |l: ListingView| l.duplicate_of is Some);
    lemma_same_filter(ls, is_delisted(), |l: ListingView| l.delisted);
}

proof fn lemma_same_filter(
    ls: Seq<ListingView>,
    f: spec_fn(ListingView) -> bool,
    g: spec_fn(ListingView) -> bool,
)
    requires
        forall|l: ListingView| #[trigger] f(l) == g(l),
    ensures
        ls.filter(f) == ls.filter(g),
    decreases ls.len(),
{
    reveal(Seq::filter);
    if ls.len() > 0 {
        lemma_same_filter(ls.drop_last(), f, g);
        assert(f(ls.last()) == g(ls.last()));
    }
}

/// When an import succeeds: where the search address names a known district and
/// building and a price, every date and number could be read, and every chain
/// of duplicates has an end.
pub proof fn law_readable_file_is_taken_in(
    file: RawFileView,
    numbers: Seq<ListingNumbers>,
    dates: FileDatesView,
)
    requires
        search_parts(file.search_url) is Ok,
        file.last_checked is Some ==> dates.last_checked is Some,
        forall|h: int| 0 <= h < file.history.len() ==> (#[trigger] dates.history[h]) is Some,
        forall|i: int|
            #![trigger file.listings[i]]
            0 <= i < file.listings.len() ==> {
                &&& numbers[i].area is Some
                &&& file.listings[i].main_area is Some ==> numbers[i].main_area is Some
                &&& dates.first_seen[i] is Some
                &&& file.listings[i].delisted_date is Some ==> dates.delisted[i] is Some
                &&& resolved(links_of(file), file.listings[i].id) is Some
            },
    ensures
        planned(file, numbers, dates) matches Some(Ok(_)),
{
    lemma_runs_readable(file, dates, file.history.len() as int);
    lemma_listings_readable(file, numbers, dates, file.listings.len() as int);
}

proof fn lemma_runs_readable(file: RawFileView, dates: FileDatesView, n: int)
    requires
        0 <= n <= file.history.len(),
        forall|h: int| 0 <= h < file.history.len() ==> (#[trigger] dates.history[h]) is Some,
    ensures
        runs_upto(file, dates, n) is Ok,
    decreases n,
{
    if n > 0 {
        lemma_runs_readable(file, dates, n - 1);
        assert(dates.history[n - 1] is Some);
    }
}

proof fn lemma_listings_readable(
    file: RawFileView,
    numbers: Seq<ListingNumbers>,
    dates: FileDatesView,
    n: int,
)
    requires
        0 <= n <= file.listings.len(),
        forall|i: int|
            #![trigger file.listings[i]]
            0 <= i < file.listings.len() ==> {
                &&& numbers[i].area is Some
                &&& file.listings[i].main_area is Some ==> numbers[i].main_area is Some
                &&& dates.first_seen[i] is Some
                &&& file.listings[i].delisted_date is Some ==> dates.delisted[i] is Some
                &&& resolved(links_of(file), file.listings[i].id) is Some
            },
    ensures
        listings_upto(file, numbers, dates, n) matches Some(Ok(_)),
    decreases n,
{
    if n > 0 {
        lemma_listings_readable(file, numbers, dates, n - 1);
        assert(file.listings[n - 1] == file.listings[n - 1]);
        assert(planned_listing(file, numbers, dates, n - 1) matches Some(Ok(_)));
    }
}

} // verus!

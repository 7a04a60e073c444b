//! What the pages and forms come to.
//!
//! What the database holds is handed in, and what is to be written to it, and
//! what is to be answered, is handed back.

use crate::date::Date;
use crate::db::models::{NewSearch, NewSearchView, ReviewDecision};
use crate::db::record;
use crate::db::record::{RecordView, Write, WriteView};
use crate::db::tables;
use crate::db::tables::{SearchWrite, SearchWriteView, TablesView};
use crate::import_json;
use crate::json;
use crate::json::to_json;
use crate::pipeline::{PipelineRunner, RunStatus};
use crate::query;
use crate::query::{building_type_name, district_name, find_param};
use crate::scraper::{CardView, ScrapedCard};
use crate::text;
use crate::text::{copy_text, decimal_int_text, same_text, starts_with, trim};
use crate::web::templates::{Group, GroupView, IndexTemplate, ListingCard, ListingCardView, Stats};
use vstd::prelude::*;

verus! {

// ---------------------------------------------------------------------------
// The page
// ---------------------------------------------------------------------------

/// A tracked search, as far as the page shows it.
#[derive(Debug)]
pub struct TrackedSearchRow {
    pub id: i64,
    pub district: String,
    pub building_type: String,
    pub price_range: String,
    pub name: Option<String>,
    pub search_url: String,
}

pub struct TrackedSearchView {
    pub id: i64,
    pub district: Seq<char>,
    pub building_type: Seq<char>,
    pub price_range: Seq<char>,
    pub name: Option<Seq<char>>,
    pub search_url: Seq<char>,
}

impl View for TrackedSearchRow {
    type V = TrackedSearchView;

    open spec fn view(&self) -> TrackedSearchView {
        TrackedSearchView {
            id: self.id,
            district: self.district@,
            building_type: self.building_type@,
            price_range: self.price_range@,
            name: self.name.deep_view(),
            search_url: self.search_url@,
        }
    }
}

impl DeepView for TrackedSearchRow {
    type V = TrackedSearchView;

    open spec fn deep_view(&self) -> TrackedSearchView {
        self@
    }
}

/// The name of a search, or what it searches for where it has none.
pub open spec fn label_of(row: TrackedSearchView) -> Seq<char> {
    match row.name {
        Some(name) => name,
        None => row.district + row.building_type + row.price_range,
    }
}

/// The name under which a search is shown.
pub fn group_label(row: &TrackedSearchRow) -> (r: String)
    ensures
        r@ == label_of(row@),
{
    match &row.name {
        Some(name) => name.clone(),
        None => {
            let mut r = row.district.clone();
            r.append(row.building_type.as_str());
            r.append(row.price_range.as_str());
            r
        },
    }
}

/// A listing with its review.
#[derive(Debug)]
pub struct ListingRow {
    pub tracked_search_id: i64,
    pub card: ScrapedCard,
    pub delisted: bool,
    pub note: Option<String>,
    pub decision: Option<String>,
    pub reason: Option<String>,
    pub first_seen: Date,
}

#[verifier::ext_equal]
pub struct ListingRowView {
    pub tracked_search_id: i64,
    pub card: CardView,
    pub delisted: bool,
    pub note: Option<Seq<char>>,
    pub decision: Option<Seq<char>>,
    pub reason: Option<Seq<char>>,
    pub first_seen: Date,
}

impl View for ListingRow {
    type V = ListingRowView;

    open spec fn view(&self) -> ListingRowView {
        ListingRowView {
            tracked_search_id: self.tracked_search_id,
            card: self.card@,
            delisted: self.delisted,
            note: self.note.deep_view(),
            decision: self.decision.deep_view(),
            reason: self.reason.deep_view(),
            first_seen: self.first_seen,
        }
    }
}

impl DeepView for ListingRow {
    type V = ListingRowView;

    open spec fn deep_view(&self) -> ListingRowView {
        self@
    }
}

/// A review, as far as it is counted.
#[derive(Debug)]
pub struct ReviewMark {
    pub tracked_search_id: i64,
    pub decision: Option<String>,
}

pub struct ReviewMarkView {
    pub tracked_search_id: i64,
    pub decision: Option<Seq<char>>,
}

impl View for ReviewMark {
    type V = ReviewMarkView;

    open spec fn view(&self) -> ReviewMarkView {
        ReviewMarkView {
            tracked_search_id: self.tracked_search_id,
            decision: self.decision.deep_view(),
        }
    }
}

impl DeepView for ReviewMark {
    type V = ReviewMarkView;

    open spec fn deep_view(&self) -> ReviewMarkView {
        self@
    }
}

/// The listings of a search that are on the market.
pub open spec fn on_market(id: i64) -> spec_fn(ListingRowView) -> bool {
    |row: ListingRowView| row.tracked_search_id == id && !row.delisted
}

/// Those of them that were first seen today.
pub open spec fn new_on_market(id: i64, today: Date) -> spec_fn(ListingRowView) -> bool {
    |row: ListingRowView|
        row.tracked_search_id == id && !row.delisted && row.first_seen == today
}

/// The listings of a search that are off the market.
pub open spec fn off_market(id: i64) -> spec_fn(ListingRowView) -> bool {
    |row: ListingRowView| row.tracked_search_id == id && row.delisted
}

/// The reviews of a search that hold a decision.
pub open spec fn decided(id: i64) -> spec_fn(ReviewMarkView) -> bool {
    |mark: ReviewMarkView| mark.tracked_search_id == id && mark.decision is Some
}

/// Those of them that hold this decision.
pub open spec fn decided_as(id: i64, d: ReviewDecision) -> spec_fn(ReviewMarkView) -> bool {
    |mark: ReviewMarkView| mark.tracked_search_id == id && mark.decision == Some(d.text())
}

/// The figures of a search.
pub open spec fn stats_of(
    rows: Seq<ListingRowView>,
    marks: Seq<ReviewMarkView>,
    today: Date,
    id: i64,
) -> Stats {
    Stats {
        tracked_count: rows.filter(on_market(id)).len() as i64,
        new_today: rows.filter(new_on_market(id, today)).len() as i64,
        reviewed_count: marks.filter(decided(id)).len() as i64,
        want_count: marks.filter(decided_as(id, ReviewDecision::Want)).len() as i64,
        delisted_count: rows.filter(off_market(id)).len() as i64,
    }
}

/// A listing as the page shows it.
pub open spec fn shown(row: ListingRowView, today: Date) -> ListingCardView {
    ListingCardView {
        tracked_search_id: row.tracked_search_id,
        id: row.card.id,
        title: row.card.title,
        price: row.card.price,
        unit_price: row.card.unit_price,
        rooms: row.card.rooms,
        area: row.card.area,
        main_area: row.card.main_area,
        age: row.card.age,
        floor: row.card.floor,
        community: row.card.community,
        address: row.card.address,
        agent: row.card.agent,
        delisted: row.delisted,
        note: row.note,
        decision: row.decision,
        reason: row.reason,
        is_new_today: row.first_seen == today,
    }
}

/// The search at `g` is the first with the id.
pub open spec fn is_first_search(searches: Seq<TrackedSearchView>, id: i64, g: int) -> bool {
    &&& 0 <= g < searches.len()
    &&& searches[g].id == id
    &&& forall|j: int| 0 <= j < g ==> (#[trigger] searches[j]).id != id
}

/// The listings shown under the search at `g`, in their order.
pub open spec fn shown_under(
    searches: Seq<TrackedSearchView>,
    rows: Seq<ListingRowView>,
    today: Date,
    g: int,
) -> Seq<ListingCardView>
    decreases rows.len(),
{
    if rows.len() == 0 {
        seq![]
    } else if is_first_search(searches, rows.last().tracked_search_id, g) {
        shown_under(searches, rows.drop_last(), today, g).push(shown(rows.last(), today))
    } else {
        shown_under(searches, rows.drop_last(), today, g)
    }
}

/// A search as the page shows it.
pub open spec fn group_of(
    marks: Seq<ReviewMarkView>,
    searches: Seq<TrackedSearchView>,
    rows: Seq<ListingRowView>,
    today: Date,
    g: int,
) -> GroupView {
    GroupView {
        tracked_search_id: searches[g].id,
        label: label_of(searches[g]),
        search_url: searches[g].search_url,
        stats: stats_of(rows, marks, today, searches[g].id),
        listings: shown_under(searches, rows, today, g),
    }
}

/// Counts the figures of a search.
pub fn count_stats(
    rows: &Vec<ListingRow>,
    marks: &Vec<ReviewMark>,
    today: Date,
    id: i64,
) -> (r: Stats)
    requires
        rows.len() <= i64::MAX,
        marks.len() <= i64::MAX,
    ensures
        r == stats_of(rows.deep_view(), marks.deep_view(), today, id),
{
    let ghost all = rows.deep_view();
    let ghost all_marks = marks.deep_view();
    let mut tracked_count: i64 = 0;
    let mut new_today: i64 = 0;
    let mut delisted_count: i64 = 0;
    proof {
        reveal(Seq::filter);
    }
    for i in 0..rows.len()
        invariant
            all == rows.deep_view(),
            rows.len() <= i64::MAX,
            tracked_count == all.take(i as int).filter(on_market(id)).len(),
            new_today == all.take(i as int).filter(new_on_market(id, today)).len(),
            delisted_count == all.take(i as int).filter(off_market(id)).len(),
            tracked_count <= i,
            new_today <= i,
            delisted_count <= i,
    {
        let row = &rows[i];
        proof {
            reveal(Seq::filter);
            assert(all.take(i + 1).drop_last() =~= all.take(i as int));
            assert(all.take(i + 1).last() == row@);
        }
        if row.tracked_search_id == id {
            if row.delisted {
                delisted_count = delisted_count + 1;
            } else {
                tracked_count = tracked_count + 1;
                if row.first_seen == today {
                    new_today = new_today + 1;
                }
            }
        }
    }
    let mut reviewed_count: i64 = 0;
    let mut want_count: i64 = 0;
    for i in 0..marks.len()
        invariant
            all_marks == marks.deep_view(),
            marks.len() <= i64::MAX,
            reviewed_count == all_marks.take(i as int).filter(decided(id)).len(),
            want_count == all_marks.take(i as int).filter(
                decided_as(id, ReviewDecision::Want),
            ).len(),
            reviewed_count <= i,
            want_count <= i,
    {
        let mark = &marks[i];
        proof {
            reveal(Seq::filter);
            assert(all_marks.take(i + 1).drop_last() =~= all_marks.take(i as int));
            assert(all_marks.take(i + 1).last() == mark@);
        }
        if mark.tracked_search_id == id {
            match &mark.decision {
                Some(word) => {
                    reviewed_count = reviewed_count + 1;
                    if same_text(word.as_str(), ReviewDecision::Want.as_str()) {
                        want_count = want_count + 1;
                    }
                },
                None => {},
            }
        }
    }
    proof {
        assert(all.take(all.len() as int) =~= all);
        assert(all_marks.take(all_marks.len() as int) =~= all_marks);
    }
    Stats { tracked_count, new_today, reviewed_count, want_count, delisted_count }
}

fn show(row: &ListingRow, today: Date) -> (r: ListingCard)
    ensures
        r@ == shown(row@, today),
{
    let c = &row.card;
    ListingCard {
        tracked_search_id: row.tracked_search_id,
        id: c.id.clone(),
        title: c.title.clone(),
        price: c.price,
        unit_price: c.unit_price,
        rooms: c.rooms.clone(),
        area: c.area,
        main_area: c.main_area,
        age: c.age,
        floor: c.floor.clone(),
        community: copy_text(&c.community),
        address: c.address.clone(),
        agent: copy_text(&c.agent),
        delisted: row.delisted,
        note: copy_text(&row.note),
        decision: copy_text(&row.decision),
        reason: copy_text(&row.reason),
        is_new_today: row.first_seen == today,
    }
}

fn find_search(searches: &Vec<TrackedSearchRow>, id: i64) -> (r: Option<usize>)
    ensures
        match r {
            Some(g) => is_first_search(searches.deep_view(), id, g as int),
            None => forall|g: int| !is_first_search(searches.deep_view(), id, g),
        },
{
    for g in 0..searches.len()
        invariant
            forall|j: int| 0 <= j < g ==> (#[trigger] searches.deep_view()[j]).id != id,
    {
        assert(searches.deep_view()[g as int] == searches[g as int]@);
        if searches[g].id == id {
            return Some(g);
        }
    }
    None
}

/// A search as the page shows it, with the first `n` listings put under it.
spec fn group_upto(
    marks: Seq<ReviewMarkView>,
    searches: Seq<TrackedSearchView>,
    rows: Seq<ListingRowView>,
    today: Date,
    g: int,
    n: int,
) -> GroupView {
    GroupView {
        listings: shown_under(searches, rows.take(n), today, g),
        ..group_of(marks, searches, rows, today, g)
    }
}

fn empty_groups(
    today: Date,
    marks: &Vec<ReviewMark>,
    searches: &Vec<TrackedSearchRow>,
    rows: &Vec<ListingRow>,
) -> (r: Vec<Group>)
    requires
        rows.len() <= i64::MAX,
        marks.len() <= i64::MAX,
    ensures
        r.len() == searches.len(),
        forall|g: int|
            0 <= g < r.len() ==> #[trigger] r[g]@ == group_upto(
                marks.deep_view(),
                searches.deep_view(),
                rows.deep_view(),
                today,
                g,
                0,
            ),
{
    let mut groups: Vec<Group> = Vec::new();
    for i in 0..searches.len()
        invariant
            rows.len() <= i64::MAX,
            marks.len() <= i64::MAX,
            groups.len() == i,
            forall|g: int|
                0 <= g < i ==> #[trigger] groups[g]@ == group_upto(
                    marks.deep_view(),
                    searches.deep_view(),
                    rows.deep_view(),
                    today,
                    g,
                    0,
                ),
    {
        let ts = &searches[i];
        let group = Group {
            tracked_search_id: ts.id,
            label: group_label(ts),
            search_url: ts.search_url.clone(),
            stats: count_stats(rows, marks, today, ts.id),
            listings: Vec::new(),
        };
        proof {
            assert(searches.deep_view()[i as int] == ts@);
            assert(group@.listings =~= shown_under(
                searches.deep_view(),
                rows.deep_view().take(0),
                today,
                i as int,
            ));
        }
        groups.push(group);
    }
    groups
}

/// Puts the page together. Every search is shown, also one that has not been
/// run yet; a listing is shown under its search.
pub fn render_index(
    today: Date,
    marks: &Vec<ReviewMark>,
    searches: &Vec<TrackedSearchRow>,
    rows: &Vec<ListingRow>,
) -> (r: IndexTemplate)
    requires
        rows.len() <= i64::MAX,
        marks.len() <= i64::MAX,
    ensures
        r.groups.len() == searches.len(),
        forall|g: int|
            0 <= g < searches.len() ==> #[trigger] r.groups[g]@ == group_of(
                marks.deep_view(),
                searches.deep_view(),
                rows.deep_view(),
                today,
                g,
            ),
{
    let mut groups = empty_groups(today, marks, searches, rows);
    let ghost opinions = marks.deep_view();
    let ghost views = searches.deep_view();
    let ghost all = rows.deep_view();
    let n = searches.len();
    for i in 0..rows.len()
        invariant
            n == searches.len(),
            groups.len() == n,
            views == searches.deep_view(),
            all == rows.deep_view(),
            forall|g: int|
                0 <= g < n ==> #[trigger] groups[g]@ == group_upto(
                    opinions,
                    views,
                    all,
                    today,
                    g,
                    i as int,
                ),
    {
        let row = &rows[i];
        proof {
            assert(all[i as int] == row@);
            assert(all.take(i + 1).drop_last() =~= all.take(i as int));
            assert(all.take(i + 1).last() == row@);
        }
        let ghost before = groups@;
        match find_search(searches, row.tracked_search_id) {
            Some(g) => {
                let card = show(row, today);
                let ghost c = card@;
                groups[g].listings.push(card);
                proof {
                    assert(groups[g as int]@.listings =~= before[g as int]@.listings.push(c));
                    assert forall|h: int| 0 <= h < n implies #[trigger] groups[h]@ == group_upto(
                        opinions,
                        views,
                        all,
                        today,
                        h,
                        i + 1,
                    ) by {
                        assert(before[h]@ == group_upto(opinions, views, all, today, h, i as int));
                        if h != g {
                            assert(groups[h] == before[h]);
                            lemma_one_first_search(views, row.tracked_search_id, g as int, h);
                        }
                    }
                }
            },
            None => {
                proof {
                    assert forall|h: int| 0 <= h < n implies #[trigger] groups[h]@ == group_upto(
                        opinions,
                        views,
                        all,
                        today,
                        h,
                        i + 1,
                    ) by {
                        assert(before[h]@ == group_upto(opinions, views, all, today, h, i as int));
                        assert(!is_first_search(views, row.tracked_search_id, h));
                    }
                }
            },
        }
    }
    assert(all.take(all.len() as int) =~= all);
    IndexTemplate { groups }
}

proof fn lemma_one_first_search(searches: Seq<TrackedSearchView>, id: i64, g: int, h: int)
    requires
        is_first_search(searches, id, g),
        g != h,
    ensures
        !is_first_search(searches, id, h),
{
    if is_first_search(searches, id, h) {
        if g < h {
            assert(searches[g].id != id);
        } else {
            assert(searches[h].id != id);
        }
    }
}

pub open spec fn is_on_market() -> spec_fn(ListingCardView) -> bool {
    |c: ListingCardView| !c.delisted
}

pub open spec fn is_off_market() -> spec_fn(ListingCardView) -> bool {
    |c: ListingCardView| c.delisted
}

/// A card that is on the market and marked as new.
pub open spec fn is_marked_new() -> spec_fn(ListingCardView) -> bool {
    |c: ListingCardView| !c.delisted && c.is_new_today
}

proof fn lemma_figures(
    searches: Seq<TrackedSearchView>,
    rows: Seq<ListingRowView>,
    today: Date,
    g: int,
)
    requires
        is_first_search(searches, searches[g].id, g),
    ensures
        ({
            let id = searches[g].id;
            let cards = shown_under(searches, rows, today, g);
            &&& rows.filter(on_market(id)).len() == cards.filter(is_on_market()).len()
            &&& rows.filter(off_market(id)).len() == cards.filter(is_off_market()).len()
            &&& rows.filter(new_on_market(id, today)).len() == cards.filter(
                is_marked_new(),
            ).len()
            &&& cards.filter(is_marked_new()).len() <= cards.filter(is_on_market()).len()
            &&& cards.filter(is_on_market()).len() + cards.filter(is_off_market()).len()
                == cards.len()
            &&& cards.len() <= rows.len()
        }),
    decreases rows.len(),
{
    reveal(Seq::filter);
    if rows.len() > 0 {
        let front = rows.drop_last();
        lemma_figures(searches, front, today, g);
        let before = shown_under(searches, front, today, g);
        let cards = shown_under(searches, rows, today, g);
        let id = rows.last().tracked_search_id;
        if is_first_search(searches, id, g) {
            assert(cards.drop_last() =~= before);
            assert(cards.last() == shown(rows.last(), today));
        } else {
            assert(id != searches[g].id);
        }
    }
}

/// The figures of a search are the numbers of its cards on the page: those on
/// the market, those off it, and those on the market that are marked as new.
pub proof fn law_figures_are_those_of_the_cards(
    marks: Seq<ReviewMarkView>,
    searches: Seq<TrackedSearchView>,
    rows: Seq<ListingRowView>,
    today: Date,
    g: int,
)
    requires
        is_first_search(searches, searches[g].id, g),
        rows.len() <= i64::MAX,
    ensures
        ({
            let group = group_of(marks, searches, rows, today, g);
            &&& group.stats.new_today == group.listings.filter(is_marked_new()).len()
            &&& group.stats.tracked_count == group.listings.filter(is_on_market()).len()
            &&& group.stats.delisted_count == group.listings.filter(is_off_market()).len()
            &&& group.stats.new_today <= group.stats.tracked_count
            &&& group.stats.tracked_count + group.stats.delisted_count == group.listings.len()
        }),
{
    lemma_figures(searches, rows, today, g);
}

/// A listing of a search that is shown is shown under it, and marked as new
/// where it was first seen today.
pub proof fn law_listing_is_shown_under_its_search(
    searches: Seq<TrackedSearchView>,
    rows: Seq<ListingRowView>,
    today: Date,
    i: int,
    g: int,
)
    requires
        0 <= i < rows.len(),
        is_first_search(searches, rows[i].tracked_search_id, g),
    ensures
        shown_under(searches, rows, today, g).contains(shown(rows[i], today)),
        shown(rows[i], today).is_new_today == (rows[i].first_seen == today),
    decreases rows.len(),
{
    let front = rows.drop_last();
    let under = shown_under(searches, front, today, g);
    if i == rows.len() - 1 {
        assert(under.push(shown(rows.last(), today))[under.len() as int] == shown(rows[i], today));
    } else {
        assert(front[i] == rows[i]);
        law_listing_is_shown_under_its_search(searches, front, today, i, g);
        let k = under.index_of(shown(rows[i], today));
        assert(under.push(shown(rows.last(), today))[k] == shown(rows[i], today));
    }
}

// ---------------------------------------------------------------------------
// Answers
// ---------------------------------------------------------------------------

/// What is answered.
#[derive(Debug)]
pub enum Reply {
    Redirect { to: String },
    NoContent,
    /// The request was wrong.
    BadRequest { message: String },
    /// The request was right and something else went wrong.
    ServerError { message: String },
}

pub enum ReplyView {
    Redirect { to: Seq<char> },
    NoContent,
    BadRequest { message: Seq<char> },
    ServerError { message: Seq<char> },
}

impl View for Reply {
    type V = ReplyView;

    open spec fn view(&self) -> ReplyView {
        match self {
            Reply::Redirect { to } => ReplyView::Redirect { to: to@ },
            Reply::NoContent => ReplyView::NoContent,
            Reply::BadRequest { message } => ReplyView::BadRequest { message: message@ },
            Reply::ServerError { message } => ReplyView::ServerError { message: message@ },
        }
    }
}

/// Where the page shows a search.
pub open spec fn group_page(id: i64) -> Seq<char> {
    "/?group="@ + text::decimal_int(id as int)
}

fn page_of_group(id: i64) -> (r: String)
    ensures
        r@ == group_page(id),
{
    let mut r = "/?group=".to_owned();
    r.append(decimal_int_text(id).as_str());
    r
}

/// The answer to the wish to run all searches.
pub fn run_now_reply(started: bool) -> (r: Reply)
    ensures
        r@ == (ReplyView::Redirect {
            to: if started {
                "/?updating=started"@
            } else {
                "/?updating=already"@
            },
        }),
{
    if started {
        Reply::Redirect { to: "/?updating=started".to_owned() }
    } else {
        Reply::Redirect { to: "/?updating=already".to_owned() }
    }
}

/// Takes in the wish to run all searches: a run begins unless one is going on.
pub fn run_now(runner: &mut PipelineRunner) -> (r: (bool, Reply))
    ensures
        r.0 == !old(runner).status.running,
        final(runner).status.running,
        r.0 ==> final(runner).status == (RunStatus {
            running: true,
            total: 0,
            completed: 0,
            current_label: None,
            last_result: old(runner).status.last_result,
        }),
        !r.0 ==> *final(runner) == *old(runner),
        r.1@ == (ReplyView::Redirect {
            to: if r.0 {
                "/?updating=started"@
            } else {
                "/?updating=already"@
            },
        }),
{
    let started = runner.try_spawn();
    (started, run_now_reply(started))
}

/// Takes in the wish to run one search: a run begins unless one is going on.
pub fn refresh_one(runner: &mut PipelineRunner, id: i64) -> (r: (bool, Reply))
    ensures
        r.0 == !old(runner).status.running,
        final(runner).status.running,
        r.0 ==> final(runner).status == (RunStatus {
            running: true,
            total: 0,
            completed: 0,
            current_label: None,
            last_result: old(runner).status.last_result,
        }),
        !r.0 ==> *final(runner) == *old(runner),
        r.1@ == (ReplyView::Redirect {
            to: group_page(id) + (if r.0 {
                "&updating=started"@
            } else {
                "&updating=already"@
            }),
        }),
{
    let started = runner.try_spawn_one();
    let mut to = page_of_group(id);
    if started {
        to.append("&updating=started");
    } else {
        to.append("&updating=already");
    }
    (started, Reply::Redirect { to })
}

/// The answer to the wish to delete a search. It has no page to go back to.
pub fn delete_reply(deleted: bool) -> (r: Reply)
    ensures
        r@ == (if deleted {
            ReplyView::Redirect { to: "/"@ }
        } else {
            ReplyView::ServerError { message: "刪除失敗"@ }
        }),
{
    if deleted {
        Reply::Redirect { to: "/".to_owned() }
    } else {
        Reply::ServerError { message: "刪除失敗".to_owned() }
    }
}

// ---------------------------------------------------------------------------
// Reviews
// ---------------------------------------------------------------------------

/// What a user says of a listing. Without a decision only the reason is meant:
/// it is saved as the user types.
#[derive(Debug)]
pub struct ReviewForm {
    pub tracked_search_id: i64,
    pub listing_id: String,
    pub decision: Option<String>,
    pub reason: String,
}

/// The reason without white space around it, where anything is left.
pub open spec fn given_reason(reason: Seq<char>) -> Option<Seq<char>> {
    let t = text::trimmed(reason);
    if t.len() == 0 {
        None
    } else {
        Some(t)
    }
}

/// What a form asks to be written: a decision with its reason, or a reason
/// alone.
pub open spec fn review_write(form: ReviewForm) -> Result<WriteView, ReplyView> {
    let reason = given_reason(form.reason@);
    match form.decision {
        None => Ok(WriteView::SaveReason { listing_id: form.listing_id@, reason }),
        Some(word) => match ReviewDecision::named(word@) {
            Some(d) => Ok(
                WriteView::SaveReview {
                    listing_id: form.listing_id@,
                    decision: Some(d),
                    reason,
                },
            ),
            None => Err(ReplyView::BadRequest { message: "decision 必須是 want 或 pass"@ }),
        },
    }
}

pub open spec fn write_result(r: Result<Write, Reply>) -> Result<WriteView, ReplyView> {
    match r {
        Ok(w) => Ok(w@),
        Err(reply) => Err(reply@),
    }
}

/// Tells what a review form asks to be written, or what is wrong with it.
pub fn submit_review(form: &ReviewForm) -> (r: Result<Write, Reply>)
    ensures
        write_result(r) == review_write(*form),
{
    let given = trim(form.reason.as_str());
    let reason = if given.unicode_len() == 0 {
        None
    } else {
        Some(given.to_owned())
    };
    match &form.decision {
        Some(word) => match ReviewDecision::parse(word.as_str()) {
            Some(d) => Ok(
                Write::SaveReview {
                    listing_id: form.listing_id.clone(),
                    decision: Some(d),
                    reason,
                },
            ),
            None => Err(
                Reply::BadRequest { message: "decision 必須是 want 或 pass".to_owned() },
            ),
        },
        None => Ok(Write::SaveReason { listing_id: form.listing_id.clone(), reason }),
    }
}

/// The answer to a review. A decision came from the page, which is shown
/// again; a reason alone came from behind it.
pub fn review_reply(form: &ReviewForm, written: bool) -> (r: Reply)
    ensures
        r@ == (if !written {
            ReplyView::ServerError { message: "寫入評價失敗"@ }
        } else if form.decision is Some {
            ReplyView::Redirect { to: group_page(form.tracked_search_id) }
        } else {
            ReplyView::NoContent
        }),
{
    if !written {
        return Reply::ServerError { message: "寫入評價失敗".to_owned() };
    }
    if form.decision.is_some() {
        Reply::Redirect { to: page_of_group(form.tracked_search_id) }
    } else {
        Reply::NoContent
    }
}

/// Saving a reason alone leaves the decision as it was; saving a decision
/// replaces both; and no other review changes.
pub proof fn law_reason_alone_keeps_decision(r: RecordView, form: ReviewForm, other: Seq<char>)
    requires
        review_write(form) is Ok,
        other != form.listing_id@,
    ensures
        ({
            let after = record::apply_write(r, review_write(form)->Ok_0).reviews;
            let id = form.listing_id@;
            &&& after.contains_key(id)
            &&& after[id].reason == given_reason(form.reason@)
            &&& form.decision is None ==> after[id].decision == (if r.reviews.contains_key(id) {
                r.reviews[id].decision
            } else {
                None
            })
            &&& form.decision matches Some(word) ==> after[id].decision == ReviewDecision::named(word@)
            &&& after.contains_key(other) == r.reviews.contains_key(other)
            &&& r.reviews.contains_key(other) ==> after[other] == r.reviews[other]
        }),
{
}

// ---------------------------------------------------------------------------
// New searches
// ---------------------------------------------------------------------------

/// A search that a user wants to be followed.
#[derive(Debug)]
pub struct AddTrackedSearchForm {
    pub name: String,
    pub search_url: String,
}

/// District, type of building and price range, where the address tells all
/// three.
pub open spec fn known_pattern(url: Seq<char>) -> Option<(Seq<char>, Seq<char>, Seq<char>)> {
    match (
        query::param(url, "section"@),
        query::param(url, "shape"@),
        query::param(url, "price"@),
    ) {
        (Some(section), Some(shape), Some(price)) => match (
            query::district_of(section),
            query::building_type_of(shape),
        ) {
            (Some(district), Some(building_type)) => Some((district, building_type, price)),
            _ => None,
        },
        _ => None,
    }
}

pub open spec fn pattern_view(r: Option<(String, String, String)>) -> Option<
    (Seq<char>, Seq<char>, Seq<char>),
> {
    match r {
        Some(parts) => Some((parts.0@, parts.1@, parts.2@)),
        None => None,
    }
}

/// Reads district, type of building and price range off a search address,
/// where it tells them.
pub fn parse_known_pattern(url: &str) -> (r: Option<(String, String, String)>)
    ensures
        pattern_view(r) == known_pattern(url@),
{
    let district = match find_param(url, "section") {
        Some(section) => match district_name(section) {
            Some(d) => d,
            None => {
                return None;
            },
        },
        None => {
            return None;
        },
    };
    let building_type = match find_param(url, "shape") {
        Some(shape) => match building_type_name(shape) {
            Some(b) => b,
            None => {
                return None;
            },
        },
        None => {
            return None;
        },
    };
    match find_param(url, "price") {
        Some(price) => Some((district, building_type, price.to_owned())),
        None => None,
    }
}

/// An address is read here as it is in a file, save that one that does not
/// tell all is no error.
pub proof fn law_patterns_are_read_as_in_files(url: Seq<char>)
    ensures
        match import_json::search_parts(url) {
            Ok(parts) => known_pattern(url) == Some(parts),
            Err(_) => known_pattern(url) is None,
        },
{
}

/// The address looks like one of a page.
pub open spec fn is_web_address(url: Seq<char>) -> bool {
    text::has_prefix(url, "http://"@) || text::has_prefix(url, "https://"@)
}

/// The search that a form asks for, or what is wrong with it.
pub open spec fn new_search(form: AddTrackedSearchForm) -> Result<NewSearchView, ReplyView> {
    let name = text::trimmed(form.name@);
    let search_url = text::trimmed(form.search_url@);
    if name.len() == 0 || search_url.len() == 0 {
        Err(ReplyView::BadRequest { message: "名稱和搜尋網址都要填"@ })
    } else if !is_web_address(search_url) {
        Err(ReplyView::BadRequest { message: "搜尋網址看起來不是有效的網址"@ })
    } else {
        let parts = match known_pattern(search_url) {
            Some(parts) => parts,
            None => (""@, ""@, ""@),
        };
        Ok(
            NewSearchView {
                district: parts.0,
                building_type: parts.1,
                price_range: parts.2,
                search_url,
                criteria_json: json::json_string(name),
                name,
            },
        )
    }
}

/// What a form asks to be written, or what is wrong with it.
pub open spec fn search_write(form: AddTrackedSearchForm) -> Result<SearchWriteView, ReplyView> {
    match new_search(form) {
        Ok(search) => Ok(SearchWriteView::AddSearch { search }),
        Err(reply) => Err(reply),
    }
}

pub open spec fn search_result(r: Result<SearchWrite, Reply>) -> Result<
    SearchWriteView,
    ReplyView,
> {
    match r {
        Ok(w) => Ok(w@),
        Err(reply) => Err(reply@),
    }
}

/// Tells which search a form asks to be added, or what is wrong with it.
pub fn add_tracked_search(form: &AddTrackedSearchForm) -> (r: Result<SearchWrite, Reply>)
    ensures
        search_result(r) == search_write(*form),
{
    let name = trim(form.name.as_str());
    let search_url = trim(form.search_url.as_str());
    if name.unicode_len() == 0 || search_url.unicode_len() == 0 {
        return Err(Reply::BadRequest { message: "名稱和搜尋網址都要填".to_owned() });
    }
    if !(starts_with(search_url, "http://") || starts_with(search_url, "https://")) {
        return Err(Reply::BadRequest { message: "搜尋網址看起來不是有效的網址".to_owned() });
    }
    let (district, building_type, price_range) = match parse_known_pattern(search_url) {
        Some(parts) => parts,
        None => ("".to_owned(), "".to_owned(), "".to_owned()),
    };
    match to_json(name) {
        Some(criteria_json) => Ok(
            SearchWrite::AddSearch {
                search: NewSearch {
                    district,
                    building_type,
                    price_range,
                    search_url: search_url.to_owned(),
                    criteria_json,
                    name: name.to_owned(),
                },
            },
        ),
        None => Err(Reply::ServerError { message: "新增失敗".to_owned() }),
    }
}

/// A form for an address that is followed already gives that search its name
/// and changes nothing else; one for another address adds a search. Either way
/// the address is followed once.
pub proof fn law_form_adds_or_names(t: TablesView, form: AddTrackedSearchForm)
    requires
        tables::distinct_urls(t.searches),
        search_write(form) is Ok,
    ensures
        ({
            let after = tables::after_save(t, search_write(form)->Ok_0);
            let url = text::trimmed(form.search_url@);
            let name = text::trimmed(form.name@);
            &&& tables::distinct_urls(after.searches)
            &&& tables::has_url(after.searches, url)
            &&& forall|i: int|
                0 <= i < t.searches.len() ==> (#[trigger] after.searches[i]) == (
                if t.searches[i].search_url == url {
                    tables::with_name(t.searches[i], name)
                } else {
                    t.searches[i]
                })
            &&& tables::has_url(t.searches, url) ==> after.searches.len() == t.searches.len()
                && after.record == t.record
            &&& !tables::has_url(t.searches, url) ==> after.searches == t.searches.push(
                tables::fresh(new_search(form)->Ok_0, t.record.tracked_search_id),
            )
            &&& after.events == t.events
            &&& tables::after_save(after, search_write(form)->Ok_0) == after
        }),
{
    tables::law_search_is_added_once(t, new_search(form)->Ok_0);
}

/// The answer once the database has been asked to add a search, with the id
/// that it gave.
pub fn add_reply(added: Option<i64>) -> (r: Reply)
    ensures
        r@ == match added {
            Some(id) => ReplyView::Redirect { to: group_page(id) },
            None => ReplyView::ServerError { message: "新增失敗"@ },
        },
{
    match added {
        Some(id) => Reply::Redirect { to: page_of_group(id) },
        None => Reply::ServerError { message: "新增失敗".to_owned() },
    }
}

} // verus!

//! Statements that save a search, fill it or take it away, and what they make of
//! the tables.

use crate::db::models::{
    CheckRunEventType, FiledSearch, FiledSearchView, Listing, ListingView, NewSearch,
    NewSearchView, SearchRowView,
};
use crate::db::record::RecordView;
use vstd::prelude::*;

verus! {

/// A statement that saves a search. The database answers with the id that the
/// search has.
#[derive(Debug)]
pub enum SearchWrite {
    /// Bring the search with this address up to date, or add it. What a user
    /// called it stays.
    SaveSearch { search: FiledSearch },
    /// Give the search with this address a new name, or add it.
    AddSearch { search: NewSearch },
}

pub enum SearchWriteView {
    SaveSearch { search: FiledSearchView },
    AddSearch { search: NewSearchView },
}

impl View for SearchWrite {
    type V = SearchWriteView;

    open spec fn view(&self) -> SearchWriteView {
        match *self {
            SearchWrite::SaveSearch { search } => SearchWriteView::SaveSearch { search: search@ },
            SearchWrite::AddSearch { search } => SearchWriteView::AddSearch { search: search@ },
        }
    }
}

/// One statement on what the tables hold of a search.
#[derive(Debug)]
pub enum Step {
    DeleteEvents,
    DeleteRuns,
    DeleteReviews,
    DeleteListings,
    /// Delete the search's own row.
    DeleteSearch,
    AddEvent { check_run_id: i64, listing_id: String, event_type: CheckRunEventType },
    AddListing { listing: Listing },
}

pub enum StepView {
    DeleteEvents,
    DeleteRuns,
    DeleteReviews,
    DeleteListings,
    DeleteSearch,
    AddEvent { event: EventView },
    AddListing { listing: ListingView },
}

/// What happened to a listing in a round.
pub struct EventView {
    pub check_run_id: i64,
    pub listing_id: Seq<char>,
    pub event_type: CheckRunEventType,
}

impl View for Step {
    type V = StepView;

    open spec fn view(&self) -> StepView {
        match *self {
            Step::DeleteEvents => StepView::DeleteEvents,
            Step::DeleteRuns => StepView::DeleteRuns,
            Step::DeleteReviews => StepView::DeleteReviews,
            Step::DeleteListings => StepView::DeleteListings,
            Step::DeleteSearch => StepView::DeleteSearch,
            Step::AddEvent { check_run_id, listing_id, event_type } => StepView::AddEvent {
                event: EventView { check_run_id, listing_id: listing_id@, event_type },
            },
            Step::AddListing { listing } => StepView::AddListing { listing: listing@ },
        }
    }
}

impl DeepView for Step {
    type V = StepView;

    open spec fn deep_view(&self) -> StepView {
        self@
    }
}

/// The rows of all searches, and all that the tables hold of one of them. Where
/// that one is not among the rows yet, its id is the one that it gets once it
/// is added.
#[verifier::ext_equal]
pub struct TablesView {
    pub searches: Seq<SearchRowView>,
    pub record: RecordView,
    pub events: Seq<EventView>,
}

// ---------------------------------------------------------------------------
// Saving a search
// ---------------------------------------------------------------------------

/// No two searches have one address.
pub open spec fn distinct_urls(searches: Seq<SearchRowView>) -> bool {
    forall|i: int, j: int|
        #![trigger searches[i], searches[j]]
        0 <= i < j < searches.len() ==> searches[i].search_url != searches[j].search_url
}

pub open spec fn has_url(searches: Seq<SearchRowView>, url: Seq<char>) -> bool {
    exists|i: int| 0 <= i < searches.len() && (#[trigger] searches[i]).search_url == url
}

/// The searches after the one with an address was changed, or another added
/// where there is none.
pub open spec fn put(
    searches: Seq<SearchRowView>,
    url: Seq<char>,
    changed: spec_fn(SearchRowView) -> SearchRowView,
    added: SearchRowView,
) -> Seq<SearchRowView> {
    if has_url(searches, url) {
        searches.map_values(
            |s: SearchRowView|
                if s.search_url == url {
                    changed(s)
                } else {
                    s
                },
        )
    } else {
        searches.push(added)
    }
}

/// A search of which a file tells; its id and name are not the file's.
pub open spec fn told_of(
    search: FiledSearchView,
    id: i64,
    name: Option<Seq<char>>,
) -> SearchRowView {
    SearchRowView {
        id,
        district: search.district,
        building_type: search.building_type,
        price_range: search.price_range,
        name,
        search_url: search.search_url,
        artifact_url: search.artifact_url,
        criteria_json: search.criteria_json,
        dedup_note: search.dedup_note,
        last_checked: search.last_checked,
    }
}

/// The searches after that of a file was saved.
pub open spec fn saved(
    searches: Seq<SearchRowView>,
    search: FiledSearchView,
    new_id: i64,
) -> Seq<SearchRowView> {
    put(
        searches,
        search.search_url,
        |s: SearchRowView| told_of(search, s.id, s.name),
        told_of(search, new_id, None),
    )
}

/// A search that a user added, and that has not been run yet.
pub open spec fn fresh(search: NewSearchView, id: i64) -> SearchRowView {
    SearchRowView {
        id,
        district: search.district,
        building_type: search.building_type,
        price_range: search.price_range,
        name: Some(search.name),
        search_url: search.search_url,
        artifact_url: None,
        criteria_json: search.criteria_json,
        dedup_note: None,
        last_checked: None,
    }
}

pub open spec fn with_name(s: SearchRowView, name: Seq<char>) -> SearchRowView {
    SearchRowView { name: Some(name), ..s }
}

/// The searches after a user added one.
pub open spec fn added(
    searches: Seq<SearchRowView>,
    search: NewSearchView,
    new_id: i64,
) -> Seq<SearchRowView> {
    put(
        searches,
        search.search_url,
        |s: SearchRowView| with_name(s, search.name),
        fresh(search, new_id),
    )
}

/// What the tables hold after a search was saved.
pub open spec fn after_save(t: TablesView, w: SearchWriteView) -> TablesView {
    let id = t.record.tracked_search_id;
    match w {
        SearchWriteView::SaveSearch { search } => TablesView {
            searches: saved(t.searches, search, id),
            record: RecordView { last_checked: search.last_checked, ..t.record },
            ..t
        },
        SearchWriteView::AddSearch { search } => TablesView {
            searches: added(t.searches, search, id),
            record: RecordView {
                last_checked: if has_url(t.searches, search.search_url) {
                    t.record.last_checked
                } else {
                    None
                },
                ..t.record
            },
            ..t
        },
    }
}

proof fn lemma_put(
    searches: Seq<SearchRowView>,
    url: Seq<char>,
    changed: spec_fn(SearchRowView) -> SearchRowView,
    added: SearchRowView,
)
    requires
        distinct_urls(searches),
        added.search_url == url,
        forall|s: SearchRowView| s.search_url == url ==> (#[trigger] changed(s)).search_url == url,
    ensures
        distinct_urls(put(searches, url, changed, added)),
        has_url(put(searches, url, changed, added), url),
{
    let after = put(searches, url, changed, added);
    assert forall|i: int| 0 <= i < searches.len() implies (#[trigger] after[i]).search_url
        == searches[i].search_url by {}
    assert forall|i: int, j: int|
        #![trigger after[i], after[j]]
        0 <= i < j < after.len() implies after[i].search_url != after[j].search_url by {
        assert(after[i].search_url == searches[i].search_url);
        if j < searches.len() {
            assert(after[j].search_url == searches[j].search_url);
        }
    }
    if has_url(searches, url) {
        let i = choose|i: int|
            0 <= i < searches.len() && (#[trigger] searches[i]).search_url == url;
        assert(after[i].search_url == url);
    } else {
        assert(after[searches.len() as int].search_url == url);
    }
}

/// The search of a file is the only one with its address. One that was there
/// before keeps its id and its name, the other searches stay as they are, and
/// to save it once more changes nothing.
pub proof fn law_search_is_saved_once(t: TablesView, search: FiledSearchView)
    requires
        distinct_urls(t.searches),
    ensures
        ({
            let w = SearchWriteView::SaveSearch { search };
            let after = after_save(t, w);
            let url = search.search_url;
            &&& distinct_urls(after.searches)
            &&& has_url(after.searches, url)
            &&& forall|i: int|
                0 <= i < t.searches.len() ==> (#[trigger] after.searches[i]) == (
                if t.searches[i].search_url == url {
                    told_of(search, t.searches[i].id, t.searches[i].name)
                } else {
                    t.searches[i]
                })
            &&& has_url(t.searches, url) ==> after.searches.len() == t.searches.len()
            &&& !has_url(t.searches, url) ==> after.searches == t.searches.push(
                told_of(search, t.record.tracked_search_id, None),
            )
            &&& after_save(after, w) == after
        }),
{
    let w = SearchWriteView::SaveSearch { search };
    let after = after_save(t, w);
    let url = search.search_url;
    let changed = |s: SearchRowView| told_of(search, s.id, s.name);
    lemma_put(t.searches, url, changed, told_of(search, t.record.tracked_search_id, None));
    assert forall|i: int|
        0 <= i < t.searches.len() && !has_url(t.searches, url) implies (
        #[trigger] t.searches[i]).search_url != url by {}
    assert(saved(after.searches, search, t.record.tracked_search_id) =~= after.searches);
}

/// The search that a user added is the only one with its address. One that was
/// there before gets the name and is otherwise as it was, so are the other
/// searches, and to add it once more changes nothing. No listing, round, event
/// or review is touched.
pub proof fn law_search_is_added_once(t: TablesView, search: NewSearchView)
    requires
        distinct_urls(t.searches),
    ensures
        ({
            let w = SearchWriteView::AddSearch { search };
            let after = after_save(t, w);
            let url = search.search_url;
            &&& distinct_urls(after.searches)
            &&& has_url(after.searches, url)
            &&& forall|i: int|
                0 <= i < t.searches.len() ==> (#[trigger] after.searches[i]) == (
                if t.searches[i].search_url == url {
                    with_name(t.searches[i], search.name)
                } else {
                    t.searches[i]
                })
            &&& has_url(t.searches, url) ==> after.searches.len() == t.searches.len()
                && after.record == t.record
            &&& !has_url(t.searches, url) ==> after.searches == t.searches.push(
                fresh(search, t.record.tracked_search_id),
            )
            &&& after.record.listings == t.record.listings
            &&& after.record.reviews == t.record.reviews
            &&& after.record.check_runs == t.record.check_runs
            &&& after.events == t.events
            &&& after_save(after, w) == after
        }),
{
    let w = SearchWriteView::AddSearch { search };
    let after = after_save(t, w);
    let url = search.search_url;
    let changed = |s: SearchRowView| with_name(s, search.name);
    lemma_put(t.searches, url, changed, fresh(search, t.record.tracked_search_id));
    assert forall|i: int|
        0 <= i < t.searches.len() && !has_url(t.searches, url) implies (
        #[trigger] t.searches[i]).search_url != url by {}
    assert(added(after.searches, search, t.record.tracked_search_id) =~= after.searches);
}

// ---------------------------------------------------------------------------
// Filling a search and taking it away
// ---------------------------------------------------------------------------

pub open spec fn other_than(id: i64) -> spec_fn(SearchRowView) -> bool {
    |s: SearchRowView| s.id != id
}

/// What the tables hold after a step.
pub open spec fn after_step(t: TablesView, step: StepView) -> TablesView {
    match step {
        StepView::DeleteEvents => TablesView { events: seq![], ..t },
        StepView::DeleteRuns => TablesView {
            record: RecordView { check_runs: seq![], ..t.record },
            ..t
        },
        StepView::DeleteReviews => TablesView {
            record: RecordView { reviews: Map::empty(), ..t.record },
            ..t
        },
        StepView::DeleteListings => TablesView {
            record: RecordView { listings: seq![], ..t.record },
            ..t
        },
        StepView::DeleteSearch => TablesView {
            searches: t.searches.filter(other_than(t.record.tracked_search_id)),
            record: RecordView { last_checked: None, ..t.record },
            ..t
        },
        StepView::AddEvent { event } => TablesView { events: t.events.push(event), ..t },
        StepView::AddListing { listing } => TablesView {
            record: RecordView { listings: t.record.listings.push(listing), ..t.record },
            ..t
        },
    }
}

/// What the tables hold after several steps, one after the other.
pub open spec fn after_steps(t: TablesView, steps: Seq<StepView>) -> TablesView
    decreases steps.len(),
{
    if steps.len() == 0 {
        t
    } else {
        after_step(after_steps(t, steps.drop_last()), steps.last())
    }
}

/// The steps that delete what a search had.
pub open spec fn clearing() -> Seq<StepView> {
    seq![
        StepView::DeleteEvents,
        StepView::DeleteRuns,
        StepView::DeleteReviews,
        StepView::DeleteListings,
    ]
}

/// The steps that delete a search with all that it had.
pub open spec fn deleting() -> Seq<StepView> {
    clearing().push(StepView::DeleteSearch)
}

/// Tells how to delete what a search had.
pub fn clearing_steps() -> (r: Vec<Step>)
    ensures
        r.deep_view() == clearing(),
{
    let r = vec![Step::DeleteEvents, Step::DeleteRuns, Step::DeleteReviews, Step::DeleteListings];
    assert(r.deep_view() =~= clearing());
    r
}

/// Tells how to delete a search with all that it had.
pub fn deleting_steps() -> (r: Vec<Step>)
    ensures
        r.deep_view() == deleting(),
{
    let mut r = clearing_steps();
    r.push(Step::DeleteSearch);
    assert(r.deep_view() =~= deleting());
    r
}

pub(crate) proof fn lemma_steps_add(t: TablesView, a: Seq<StepView>, b: Seq<StepView>)
    ensures
        after_steps(t, a + b) == after_steps(after_steps(t, a), b),
    decreases b.len(),
{
    if b.len() == 0 {
        assert(a + b =~= a);
    } else {
        assert((a + b).drop_last() =~= a + b.drop_last());
        lemma_steps_add(t, a, b.drop_last());
    }
}

pub(crate) proof fn lemma_cleared(t: TablesView)
    ensures
        after_steps(t, clearing()) == (TablesView {
            searches: t.searches,
            record: RecordView {
                listings: seq![],
                reviews: Map::empty(),
                check_runs: seq![],
                ..t.record
            },
            events: seq![],
        }),
{
    reveal_with_fuel(after_steps, 5);
    assert(clearing().drop_last().last() == StepView::DeleteReviews);
    assert(clearing().drop_last().drop_last().last() == StepView::DeleteRuns);
    assert(clearing().drop_last().drop_last().drop_last().last() == StepView::DeleteEvents);
}

proof fn lemma_filtered(searches: Seq<SearchRowView>, id: i64)
    ensures
        ({
            let after = searches.filter(other_than(id));
            &&& forall|i: int| 0 <= i < after.len() ==> (#[trigger] after[i]).id != id
            &&& after.filter(other_than(id)) == after
            &&& forall|s: SearchRowView| #[trigger]
                after.contains(s) <==> searches.contains(s) && s.id != id
        }),
    decreases searches.len(),
{
    reveal(Seq::filter);
    let after = searches.filter(other_than(id));
    if searches.len() > 0 {
        let front = searches.drop_last();
        let last = searches.last();
        lemma_filtered(front, id);
        let f = front.filter(other_than(id));
        assert(searches =~= front.push(last));
        assert forall|s: SearchRowView| #[trigger]
            searches.contains(s) <==> front.contains(s) || s == last by {
            if front.contains(s) {
                let i = choose|i: int| 0 <= i < front.len() && front[i] == s;
                assert(searches[i] == s);
            }
            if s == last {
                assert(searches[searches.len() - 1] == s);
            }
        }
        if last.id != id {
            assert(after == f.push(last));
            assert(after.drop_last() =~= f);
            assert forall|s: SearchRowView| #[trigger]
                after.contains(s) <==> f.contains(s) || s == last by {
                if f.contains(s) {
                    let i = choose|i: int| 0 <= i < f.len() && f[i] == s;
                    assert(after[i] == s);
                }
                if s == last {
                    assert(after[after.len() - 1] == s);
                }
            }
        }
    }
}

/// Nothing is left of a search that was deleted: neither its row nor a listing,
/// a round, an event or a review of it. The other searches stay, and to delete
/// it once more changes nothing.
pub proof fn law_deleted_search_leaves_nothing(t: TablesView)
    ensures
        ({
            let after = after_steps(t, deleting());
            let id = t.record.tracked_search_id;
            &&& forall|i: int|
                0 <= i < after.searches.len() ==> (#[trigger] after.searches[i]).id != id
            &&& forall|s: SearchRowView| #[trigger]
                after.searches.contains(s) <==> t.searches.contains(s) && s.id != id
            &&& after.searches == t.searches.filter(other_than(id))
            &&& after.record == (RecordView {
                tracked_search_id: id,
                listings: seq![],
                reviews: Map::empty(),
                check_runs: seq![],
                last_checked: None,
            })
            &&& after.events.len() == 0
            &&& after_steps(after, deleting()) == after
        }),
{
    let after = after_steps(t, deleting());
    assert(deleting().drop_last() =~= clearing());
    lemma_cleared(t);
    lemma_cleared(after);
    lemma_filtered(t.searches, t.record.tracked_search_id);
    assert(after_steps(after, deleting()) =~= after);
}

/// What adding a search makes of the rows. Where one has the address already,
/// it gets the name, and nothing else of any row changes. Otherwise there is one
/// row more, with what the form gave, and with nothing known that comes of a
/// round or a file.
pub proof fn law_added_search_is_as_the_form_has_it(t: TablesView, search: NewSearchView, i: int)
    requires
        0 <= i < t.searches.len(),
    ensures
        ({
            let after = after_save(t, SearchWriteView::AddSearch { search }).searches;
            let known = exists|k: int|
                0 <= k < t.searches.len() && (#[trigger] t.searches[k]).search_url
                    == search.search_url;
            let was = t.searches[i];
            let last = after[after.len() - 1];
            &&& after.len() == t.searches.len() + (if known { 0int } else { 1int })
            &&& after[i].id == was.id
            &&& after[i].district == was.district
            &&& after[i].building_type == was.building_type
            &&& after[i].price_range == was.price_range
            &&& after[i].search_url == was.search_url
            &&& after[i].artifact_url == was.artifact_url
            &&& after[i].criteria_json == was.criteria_json
            &&& after[i].dedup_note == was.dedup_note
            &&& after[i].last_checked == was.last_checked
            &&& after[i].name == (if was.search_url == search.search_url {
                Some(search.name)
            } else {
                was.name
            })
            &&& !known ==> {
                &&& last.id == t.record.tracked_search_id
                &&& last.district == search.district
                &&& last.building_type == search.building_type
                &&& last.price_range == search.price_range
                &&& last.name == Some(search.name)
                &&& last.search_url == search.search_url
                &&& last.criteria_json == search.criteria_json
                &&& last.artifact_url is None
                &&& last.dedup_note is None
                &&& last.last_checked is None
            }
        }),
{
    assert(t.searches[i].search_url == t.searches[i].search_url);
}

} // verus!

//! How the rows of a search come to be those of a file.
//!
//! The search is saved, what it had before is deleted, and what the file lists
//! is added, so that a file can be taken in any number of times. The rounds get
//! their ids from the database, so they are added before the rest.

use crate::db::models::{
    CheckRunEventType, CheckRunView, FiledSearch, FiledSearchView, Listing, ListingView,
    ReviewView,
};
use crate::db::record;
use crate::db::record::RecordView;
use crate::db::tables;
use crate::db::tables::{EventView, SearchWrite, SearchWriteView, Step, StepView, TablesView};
use crate::import_json;
use crate::import_json::{
    FileDatesView, ImportPlan, ImportPlanView, ListingNumbers, PlannedRun, PlannedRunView,
    RawFileView,
};
use crate::text::copy_text;
use vstd::prelude::*;

verus! {

// ---------------------------------------------------------------------------
// The steps
// ---------------------------------------------------------------------------

/// The events of one type that a round tells of.
pub open spec fn events_of_type(
    check_run_id: i64,
    ids: Seq<Seq<char>>,
    event_type: CheckRunEventType,
) -> Seq<EventView> {
    ids.map_values(|listing_id: Seq<char>| EventView { check_run_id, listing_id, event_type })
}

/// The events of a round: what was new, then what was gone.
pub open spec fn events_of(run: PlannedRunView, check_run_id: i64) -> Seq<EventView> {
    events_of_type(check_run_id, run.new_ids, CheckRunEventType::New) + events_of_type(
        check_run_id,
        run.delisted_ids,
        CheckRunEventType::Delisted,
    )
}

/// The events of all rounds, in their order.
pub open spec fn event_rows(runs: Seq<PlannedRunView>, run_ids: Seq<i64>) -> Seq<EventView>
    decreases runs.len(),
{
    if runs.len() == 0 {
        seq![]
    } else {
        event_rows(runs.drop_last(), run_ids.drop_last()) + events_of(runs.last(), run_ids.last())
    }
}

/// The rounds, each with the id that it got.
pub open spec fn run_rows(runs: Seq<PlannedRunView>, run_ids: Seq<i64>) -> Seq<CheckRunView> {
    Seq::new(
        runs.len(),
        |i: int|
            CheckRunView {
                id: run_ids[i],
                checked_date: runs[i].checked_date,
                new_count: runs[i].new_count,
                total_count: runs[i].total_count,
                note: runs[i].note,
            },
    )
}

/// The last of the rounds that a file tells of.
pub open spec fn last_run(run_ids: Seq<i64>) -> Option<i64> {
    if run_ids.len() == 0 {
        None
    } else {
        Some(run_ids.last())
    }
}

/// A listing of a file that is on the market counts as seen in the last round
/// that the file tells of. One that is not has been missing since some earlier
/// round, of which nothing is known.
pub open spec fn marked(l: ListingView, last_run: Option<i64>) -> ListingView {
    ListingView {
        last_seen_check_run_id: if l.delisted {
            None
        } else {
            last_run
        },
        ..l
    }
}

pub open spec fn listing_rows(listings: Seq<ListingView>, last_run: Option<i64>) -> Seq<
    ListingView,
> {
    listings.map_values(|l: ListingView| marked(l, last_run))
}

pub open spec fn adding_events(events: Seq<EventView>) -> Seq<StepView> {
    events.map_values(|event: EventView| StepView::AddEvent { event })
}

pub open spec fn adding_listings(listings: Seq<ListingView>) -> Seq<StepView> {
    listings.map_values(|listing: ListingView| StepView::AddListing { listing })
}

/// The steps that add what a file lists, once its rounds have their ids.
pub open spec fn filling(plan: ImportPlanView, run_ids: Seq<i64>) -> Seq<StepView> {
    adding_events(event_rows(plan.runs, run_ids)) + adding_listings(
        listing_rows(plan.listings, last_run(run_ids)),
    )
}

fn add_events(
    steps: &mut Vec<Step>,
    check_run_id: i64,
    ids: &Vec<String>,
    event_type: CheckRunEventType,
)
    ensures
        final(steps).deep_view() == old(steps).deep_view() + adding_events(
            events_of_type(check_run_id, ids.deep_view(), event_type),
        ),
{
    let ghost before = steps.deep_view();
    let ghost added = adding_events(events_of_type(check_run_id, ids.deep_view(), event_type));
    assert(before =~= before + added.take(0));
    for i in 0..ids.len()
        invariant
            added == adding_events(events_of_type(check_run_id, ids.deep_view(), event_type)),
            steps.deep_view() == before + added.take(i as int),
    {
        let ghost so_far = steps.deep_view();
        let step = Step::AddEvent { check_run_id, listing_id: ids[i].clone(), event_type };
        let ghost v = step@;
        steps.push(step);
        proof {
            assert(steps.deep_view() =~= so_far.push(v));
            assert(v == added[i as int]);
            assert(steps.deep_view() =~= before + added.take(i + 1));
        }
    }
    assert(added.take(added.len() as int) =~= added);
}

fn mark_listing(l: &Listing, last_run: Option<i64>) -> (r: Listing)
    ensures
        r@ == marked(l@, last_run),
{
    Listing {
        card: l.card.clone(),
        first_seen: l.first_seen,
        duplicate_of: copy_text(&l.duplicate_of),
        delisted: l.delisted,
        delisted_date: l.delisted_date,
        note: copy_text(&l.note),
        last_seen_check_run_id: if l.delisted {
            None
        } else {
            last_run
        },
    }
}

/// What a file tells of its search.
pub open spec fn filed(plan: ImportPlanView) -> FiledSearchView {
    FiledSearchView {
        district: plan.district,
        building_type: plan.building_type,
        price_range: plan.price_range,
        search_url: plan.search_url,
        artifact_url: plan.artifact_url,
        criteria_json: plan.criteria_json,
        dedup_note: plan.dedup_note,
        last_checked: plan.last_checked,
    }
}

/// Tells how to save the search of a file.
pub fn search_to_save(plan: &ImportPlan) -> (r: SearchWrite)
    ensures
        r@ == (SearchWriteView::SaveSearch { search: filed(plan@) }),
{
    SearchWrite::SaveSearch {
        search: FiledSearch {
            district: plan.district.clone(),
            building_type: plan.building_type.clone(),
            price_range: plan.price_range.clone(),
            search_url: plan.search_url.clone(),
            artifact_url: copy_text(&plan.artifact_url),
            criteria_json: plan.criteria_json.clone(),
            dedup_note: copy_text(&plan.dedup_note),
            last_checked: plan.last_checked,
        },
    }
}

/// Tells how to add what a file lists, once its rounds have their ids.
pub fn filling_steps(plan: &ImportPlan, run_ids: &Vec<i64>) -> (r: Vec<Step>)
    requires
        run_ids.len() == plan.runs.len(),
    ensures
        r.deep_view() == filling(plan@, run_ids@),
{
    let mut steps: Vec<Step> = Vec::new();
    let ghost runs = plan@.runs;
    assert(steps.deep_view() =~= adding_events(event_rows(runs.take(0), run_ids@.take(0))));
    for i in 0..plan.runs.len()
        invariant
            runs == plan@.runs,
            run_ids.len() == plan.runs.len(),
            steps.deep_view() == adding_events(
                event_rows(runs.take(i as int), run_ids@.take(i as int)),
            ),
    {
        let run: &PlannedRun = &plan.runs[i];
        add_events(&mut steps, run_ids[i], &run.new_ids, CheckRunEventType::New);
        add_events(&mut steps, run_ids[i], &run.delisted_ids, CheckRunEventType::Delisted);
        proof {
            assert(runs.take(i + 1).drop_last() =~= runs.take(i as int));
            assert(run_ids@.take(i + 1).drop_last() =~= run_ids@.take(i as int));
            assert(runs.take(i + 1).last() == run@);
            assert(steps.deep_view() =~= adding_events(
                event_rows(runs.take(i + 1), run_ids@.take(i + 1)),
            ));
        }
    }
    let last = if run_ids.len() == 0 {
        None
    } else {
        Some(run_ids[run_ids.len() - 1])
    };
    let ghost events = adding_events(event_rows(plan@.runs, run_ids@));
    let ghost added = adding_listings(listing_rows(plan@.listings, last_run(run_ids@)));
    proof {
        assert(runs.take(runs.len() as int) =~= runs);
        assert(run_ids@.take(runs.len() as int) =~= run_ids@);
        assert(events =~= events + added.take(0));
    }
    for i in 0..plan.listings.len()
        invariant
            last == last_run(run_ids@),
            added == adding_listings(listing_rows(plan@.listings, last_run(run_ids@))),
            steps.deep_view() == events + added.take(i as int),
    {
        let ghost so_far = steps.deep_view();
        let step = Step::AddListing { listing: mark_listing(&plan.listings[i], last) };
        let ghost v = step@;
        steps.push(step);
        proof {
            assert(steps.deep_view() =~= so_far.push(v));
            assert(v == added[i as int]);
            assert(steps.deep_view() =~= events + added.take(i + 1));
        }
    }
    assert(added.take(added.len() as int) =~= added);
    steps
}

// ---------------------------------------------------------------------------
// Laws
// ---------------------------------------------------------------------------

/// What the tables hold once a file was taken in: its search is saved, what
/// the search had is deleted, its rounds are added, and then the rest.
pub open spec fn after_import(
    t: TablesView,
    plan: ImportPlanView,
    run_ids: Seq<i64>,
) -> TablesView {
    let told = tables::after_save(t, SearchWriteView::SaveSearch { search: filed(plan) });
    let cleared = tables::after_steps(told, tables::clearing());
    let with_runs = TablesView {
        record: RecordView {
            check_runs: cleared.record.check_runs + run_rows(plan.runs, run_ids),
            ..cleared.record
        },
        ..cleared
    };
    tables::after_steps(with_runs, filling(plan, run_ids))
}

/// What a file lists, as the record of its search holds it.
pub open spec fn listed(
    tracked_search_id: i64,
    plan: ImportPlanView,
    run_ids: Seq<i64>,
) -> RecordView {
    RecordView {
        tracked_search_id,
        listings: listing_rows(plan.listings, last_run(run_ids)),
        reviews: Map::empty(),
        check_runs: run_rows(plan.runs, run_ids),
        last_checked: plan.last_checked,
    }
}

proof fn lemma_events_added(t: TablesView, events: Seq<EventView>)
    ensures
        tables::after_steps(t, adding_events(events)) == (TablesView { events: t.events + events, ..t }),
    decreases events.len(),
{
    let steps = adding_events(events);
    if events.len() == 0 {
        assert(t.events + events =~= t.events);
    } else {
        assert(steps.drop_last() =~= adding_events(events.drop_last()));
        lemma_events_added(t, events.drop_last());
        assert(t.events + events =~= (t.events + events.drop_last()).push(events.last()));
    }
}

proof fn lemma_listings_added(t: TablesView, listings: Seq<ListingView>)
    ensures
        tables::after_steps(t, adding_listings(listings)) == (TablesView {
            record: RecordView { listings: t.record.listings + listings, ..t.record },
            ..t
        }),
    decreases listings.len(),
{
    let steps = adding_listings(listings);
    if listings.len() == 0 {
        assert(t.record.listings + listings =~= t.record.listings);
    } else {
        assert(steps.drop_last() =~= adding_listings(listings.drop_last()));
        lemma_listings_added(t, listings.drop_last());
        assert(t.record.listings + listings =~= (t.record.listings + listings.drop_last()).push(
            listings.last(),
        ));
    }
}

/// After a file was taken in, the tables hold of its search what the file lists
/// and nothing else, whatever they held before. The search keeps its id.
pub proof fn law_import_leaves_what_is_listed(
    t: TablesView,
    plan: ImportPlanView,
    run_ids: Seq<i64>,
)
    ensures
        ({
            let id = t.record.tracked_search_id;
            after_import(t, plan, run_ids) == (TablesView {
                searches: tables::saved(t.searches, filed(plan), id),
                record: listed(id, plan, run_ids),
                events: event_rows(plan.runs, run_ids),
            })
        }),
        record::distinct_ids(plan.listings) ==> record::distinct_ids(
            after_import(t, plan, run_ids).record.listings,
        ),
{
    let told = tables::after_save(t, SearchWriteView::SaveSearch { search: filed(plan) });
    let cleared = tables::after_steps(told, tables::clearing());
    tables::lemma_cleared(told);
    let with_runs = TablesView {
        record: RecordView {
            check_runs: cleared.record.check_runs + run_rows(plan.runs, run_ids),
            ..cleared.record
        },
        ..cleared
    };
    let events = event_rows(plan.runs, run_ids);
    let rows = listing_rows(plan.listings, last_run(run_ids));
    tables::lemma_steps_add(with_runs, adding_events(events), adding_listings(rows));
    lemma_events_added(with_runs, events);
    lemma_listings_added(TablesView { events: with_runs.events + events, ..with_runs }, rows);
    assert(after_import(t, plan, run_ids).record =~= listed(
        t.record.tracked_search_id,
        plan,
        run_ids,
    ));
    assert(after_import(t, plan, run_ids).events =~= events);
    if record::distinct_ids(plan.listings) {
        assert forall|i: int, j: int|
            #![trigger rows[i], rows[j]]
            0 <= i < j < rows.len() implies rows[i].id() != rows[j].id() by {
            assert(plan.listings[i].id() != plan.listings[j].id());
        }
    }
}

/// What the tables hold but for the ids that the database gave to the rounds.
pub open spec fn without_run_ids(t: TablesView) -> TablesView {
    TablesView {
        searches: t.searches,
        record: RecordView {
            listings: t.record.listings.map_values(
                |l: ListingView|
                    ListingView {
                        last_seen_check_run_id: if l.last_seen_check_run_id is Some {
                            Some(0)
                        } else {
                            None
                        },
                        ..l
                    },
            ),
            check_runs: t.record.check_runs.map_values(
                |run: CheckRunView| CheckRunView { id: 0, ..run },
            ),
            ..t.record
        },
        events: t.events.map_values(|event: EventView| EventView { check_run_id: 0, ..event }),
    }
}

proof fn lemma_events_but_for_ids(
    runs: Seq<PlannedRunView>,
    ids: Seq<i64>,
    other_ids: Seq<i64>,
)
    requires
        ids.len() == runs.len(),
        other_ids.len() == runs.len(),
    ensures
        event_rows(runs, ids).map_values(
            |event: EventView| EventView { check_run_id: 0, ..event },
        ) == event_rows(runs, other_ids).map_values(
            |event: EventView| EventView { check_run_id: 0, ..event },
        ),
    decreases runs.len(),
{
    if runs.len() > 0 {
        lemma_events_but_for_ids(runs.drop_last(), ids.drop_last(), other_ids.drop_last());
        let f = |event: EventView| EventView { check_run_id: 0, ..event };
        let a = event_rows(runs.drop_last(), ids.drop_last());
        let b = event_rows(runs.drop_last(), other_ids.drop_last());
        let x = events_of(runs.last(), ids.last());
        let y = events_of(runs.last(), other_ids.last());
        assert(x.map_values(f) =~= y.map_values(f));
        assert((a + x).map_values(f) =~= a.map_values(f) + x.map_values(f));
        assert((b + y).map_values(f) =~= b.map_values(f) + y.map_values(f));
    } else {
        assert(event_rows(runs, ids) =~= event_rows(runs, other_ids));
    }
}

/// To take a file in once more comes to the same, whatever was done to the
/// search in between: no row is doubled and none is left over. Only the rounds
/// have other ids, and where the searches were left alone they stay as they
/// were.
pub proof fn law_import_can_be_repeated(
    before: TablesView,
    between: TablesView,
    plan: ImportPlanView,
    run_ids: Seq<i64>,
    new_run_ids: Seq<i64>,
)
    requires
        between.record.tracked_search_id == before.record.tracked_search_id,
        run_ids.len() == plan.runs.len(),
        new_run_ids.len() == plan.runs.len(),
    ensures
        ({
            let once = after_import(before, plan, run_ids);
            let twice = after_import(between, plan, new_run_ids);
            &&& without_run_ids(twice).record == without_run_ids(once).record
            &&& without_run_ids(twice).events == without_run_ids(once).events
            &&& run_ids == new_run_ids ==> twice.record == once.record && twice.events
                == once.events
            &&& tables::distinct_urls(before.searches) && between.searches == once.searches
                ==> twice.searches == once.searches
        }),
{
    law_import_leaves_what_is_listed(before, plan, run_ids);
    law_import_leaves_what_is_listed(between, plan, new_run_ids);
    lemma_events_but_for_ids(plan.runs, run_ids, new_run_ids);
    let once = after_import(before, plan, run_ids);
    let twice = after_import(between, plan, new_run_ids);
    assert(without_run_ids(twice).record =~= without_run_ids(once).record);
    assert(without_run_ids(twice).events =~= without_run_ids(once).events);
    if tables::distinct_urls(before.searches) && between.searches == once.searches {
        tables::law_search_is_saved_once(before, filed(plan));
    }
}

// ---------------------------------------------------------------------------
// The file
// ---------------------------------------------------------------------------

/// The tables reflect the file: one row for each of its listings and one for
/// each of its rounds, in the file's order, and no review.
pub proof fn law_import_reflects_the_file(
    t: TablesView,
    file: RawFileView,
    numbers: Seq<ListingNumbers>,
    dates: FileDatesView,
    run_ids: Seq<i64>,
)
    requires
        import_json::planned(file, numbers, dates) matches Some(Ok(_)),
        run_ids.len() == file.history.len(),
    ensures
        ({
            let plan = import_json::planned(file, numbers, dates)->0->Ok_0;
            let after = after_import(t, plan, run_ids).record;
            &&& after.listings.len() == file.listings.len()
            &&& forall|i: int|
                0 <= i < file.listings.len() ==> (#[trigger] after.listings[i]).id()
                    == file.listings[i].id
            &&& after.check_runs.len() == file.history.len()
            &&& forall|i: int|
                0 <= i < file.history.len() ==> {
                    &&& (#[trigger] after.check_runs[i]).id == run_ids[i]
                    &&& dates.history[i] == Some(after.check_runs[i].checked_date)
                    &&& after.check_runs[i].new_count == file.history[i].new_count
                    &&& after.check_runs[i].total_count == file.history[i].total_count
                    &&& after.check_runs[i].note == file.history[i].note
                }
            &&& after.reviews == Map::<Seq<char>, ReviewView>::empty()
        }),
{
    let plan = import_json::planned(file, numbers, dates)->0->Ok_0;
    law_import_leaves_what_is_listed(t, plan, run_ids);
    import_json::lemma_listings_are_planned(file, numbers, dates, file.listings.len() as int);
    import_json::lemma_runs_are_planned(file, dates, file.history.len() as int);
    assert forall|i: int| 0 <= i < file.listings.len() implies (#[trigger] listing_rows(
        plan.listings,
        last_run(run_ids),
    )[i]).id() == file.listings[i].id by {
        assert(import_json::planned_listing(file, numbers, dates, i) == Some(
            Ok::<ListingView, import_json::ImportErrorView>(plan.listings[i]),
        ));
    }
}

/// What the tables hold of a listing once its file was taken in is what the
/// file has, field by field, with its numbers and dates as they were read. It
/// counts as seen in the last of the file's rounds, unless it is off the
/// market.
pub proof fn law_tables_hold_the_files_listings(
    t: TablesView,
    file: RawFileView,
    numbers: Seq<ListingNumbers>,
    dates: FileDatesView,
    run_ids: Seq<i64>,
    i: int,
)
    requires
        import_json::planned(file, numbers, dates) matches Some(Ok(_)),
        run_ids.len() == file.history.len(),
        0 <= i < file.listings.len(),
    ensures
        ({
            let plan = import_json::planned(file, numbers, dates)->0->Ok_0;
            let after = after_import(t, plan, run_ids).record;
            let l = after.listings[i];
            let f = file.listings[i];
            &&& after.listings.len() == file.listings.len()
            &&& l.card.id == f.id
            &&& l.card.title == f.title
            &&& l.card.price == f.price
            &&& l.card.unit_price == f.unit_price
            &&& l.card.rooms == f.rooms
            &&& l.card.age == f.age
            &&& l.card.floor == f.floor
            &&& l.card.community == f.community
            &&& l.card.address == f.address
            &&& l.card.agent == f.agent
            &&& l.delisted == f.delisted
            &&& l.note == f.note
            &&& numbers[i].area == Some(l.card.area)
            &&& f.main_area is Some ==> l.card.main_area is Some && numbers[i].main_area
                == l.card.main_area
            &&& f.main_area is None ==> l.card.main_area is None
            &&& dates.first_seen[i] == Some(l.first_seen)
            &&& f.delisted_date is Some ==> l.delisted_date is Some && dates.delisted[i]
                == l.delisted_date
            &&& f.delisted_date is None ==> l.delisted_date is None
            &&& l.duplicate_of == plan.listings[i].duplicate_of
            &&& l.last_seen_check_run_id == (if f.delisted || run_ids.len() == 0 {
                None
            } else {
                Some(run_ids[run_ids.len() - 1])
            })
        }),
{
    let plan = import_json::planned(file, numbers, dates)->0->Ok_0;
    law_import_leaves_what_is_listed(t, plan, run_ids);
    import_json::lemma_listings_are_planned(file, numbers, dates, file.listings.len() as int);
    import_json::law_listing_is_as_the_file_has_it(file, numbers, dates, i);
}

/// What the tables hold of a search whose file was taken in, besides its
/// listings: each round of the file under the id that it got, each id that a
/// round names as an event of that round, no event else, no review, and the
/// row of the search itself.
pub proof fn law_tables_hold_the_files_rounds(
    t: TablesView,
    file: RawFileView,
    numbers: Seq<ListingNumbers>,
    dates: FileDatesView,
    run_ids: Seq<i64>,
    h: int,
)
    requires
        import_json::planned(file, numbers, dates) matches Some(Ok(_)),
        run_ids.len() == file.history.len(),
        0 <= h < file.history.len(),
    ensures
        ({
            let plan = import_json::planned(file, numbers, dates)->0->Ok_0;
            let after = after_import(t, plan, run_ids);
            let run = after.record.check_runs[h];
            let f = file.history[h];
            &&& after.record.check_runs.len() == file.history.len()
            &&& run.id == run_ids[h]
            &&& dates.history[h] == Some(run.checked_date)
            &&& run.new_count == f.new_count
            &&& run.total_count == f.total_count
            &&& run.note == f.note
            &&& forall|k: int|
                0 <= k < f.new_ids.len() ==> after.events.contains(
                    EventView {
                        check_run_id: run_ids[h],
                        listing_id: #[trigger] f.new_ids[k],
                        event_type: CheckRunEventType::New,
                    },
                )
            &&& forall|k: int|
                0 <= k < f.delisted_ids.len() ==> after.events.contains(
                    EventView {
                        check_run_id: run_ids[h],
                        listing_id: #[trigger] f.delisted_ids[k],
                        event_type: CheckRunEventType::Delisted,
                    },
                )
            &&& forall|e: int|
                0 <= e < after.events.len() ==> exists|g: int|
                    0 <= g < file.history.len() && (#[trigger] after.events[e]).check_run_id
                        == #[trigger] run_ids[g] && (match after.events[e].event_type {
                        CheckRunEventType::New => file.history[g].new_ids.contains(
                            after.events[e].listing_id,
                        ),
                        CheckRunEventType::Delisted => file.history[g].delisted_ids.contains(
                            after.events[e].listing_id,
                        ),
                    })
            &&& forall|id: Seq<char>| !(#[trigger] after.record.reviews.contains_key(id))
            &&& after.record.last_checked == (if file.last_checked is Some {
                dates.last_checked
            } else {
                None
            })
            &&& after.record.tracked_search_id == t.record.tracked_search_id
        }),
{
    let plan = import_json::planned(file, numbers, dates)->0->Ok_0;
    law_import_leaves_what_is_listed(t, plan, run_ids);
    import_json::law_search_and_rounds_are_as_the_file_has_them(file, numbers, dates, h);
    import_json::lemma_runs_are_planned(file, dates, file.history.len() as int);
    let events = event_rows(plan.runs, run_ids);
    let f = file.history[h];
    lemma_events_of_round(plan.runs, run_ids, h);
    let own = events_of(plan.runs[h], run_ids[h]);
    assert forall|k: int| 0 <= k < f.new_ids.len() implies events.contains(
        EventView {
            check_run_id: run_ids[h],
            listing_id: #[trigger] f.new_ids[k],
            event_type: CheckRunEventType::New,
        },
    ) by {
        assert(own.contains(own[k]));
    }
    assert forall|k: int| 0 <= k < f.delisted_ids.len() implies events.contains(
        EventView {
            check_run_id: run_ids[h],
            listing_id: #[trigger] f.delisted_ids[k],
            event_type: CheckRunEventType::Delisted,
        },
    ) by {
        assert(own.contains(own[f.new_ids.len() + k]));
    }
    assert forall|e: int| 0 <= e < events.len() implies exists|g: int|
        0 <= g < file.history.len() && (#[trigger] events[e]).check_run_id == #[trigger] run_ids[g]
            && (match events[e].event_type {
            CheckRunEventType::New => file.history[g].new_ids.contains(events[e].listing_id),
            CheckRunEventType::Delisted => file.history[g].delisted_ids.contains(
                events[e].listing_id,
            ),
        }) by {
        let g = lemma_event_has_round(plan.runs, run_ids, e);
        assert(events[e].check_run_id == run_ids[g]);
        assert(plan.runs[g].new_ids == file.history[g].new_ids);
    }
}

proof fn lemma_events_of_round(runs: Seq<PlannedRunView>, run_ids: Seq<i64>, h: int)
    requires
        run_ids.len() == runs.len(),
        0 <= h < runs.len(),
    ensures
        forall|e: EventView| #[trigger]
            events_of(runs[h], run_ids[h]).contains(e) ==> event_rows(runs, run_ids).contains(e),
    decreases runs.len(),
{
    let a = event_rows(runs.drop_last(), run_ids.drop_last());
    let b = events_of(runs.last(), run_ids.last());
    assert forall|e: EventView| #[trigger]
        events_of(runs[h], run_ids[h]).contains(e) implies event_rows(runs, run_ids).contains(e) by {
        if h == runs.len() - 1 {
            let k = b.index_of(e);
            assert((a + b)[a.len() + k] == e);
        } else {
            lemma_events_of_round(runs.drop_last(), run_ids.drop_last(), h);
            assert(events_of(runs.drop_last()[h], run_ids.drop_last()[h]).contains(e));
            let k = a.index_of(e);
            assert((a + b)[k] == e);
        }
    }
}

proof fn lemma_event_has_round(runs: Seq<PlannedRunView>, run_ids: Seq<i64>, e: int) -> (g: int)
    requires
        run_ids.len() == runs.len(),
        0 <= e < event_rows(runs, run_ids).len(),
    ensures
        0 <= g < runs.len(),
        event_rows(runs, run_ids)[e].check_run_id == run_ids[g],
        match event_rows(runs, run_ids)[e].event_type {
            CheckRunEventType::New => runs[g].new_ids.contains(
                event_rows(runs, run_ids)[e].listing_id,
            ),
            CheckRunEventType::Delisted => runs[g].delisted_ids.contains(
                event_rows(runs, run_ids)[e].listing_id,
            ),
        },
    decreases runs.len(),
{
    let a = event_rows(runs.drop_last(), run_ids.drop_last());
    let g = runs.len() - 1;
    if e < a.len() {
        lemma_event_has_round(runs.drop_last(), run_ids.drop_last(), e)
    } else {
        let k = e - a.len();
        let new = runs[g].new_ids;
        if k < new.len() {
            assert(new.contains(new[k]));
        } else {
            let gone = runs[g].delisted_ids;
            assert(gone.contains(gone[k - new.len()]));
        }
        g
    }
}

/// How many ids the rounds of a file name.
pub open spec fn named_ids(runs: Seq<PlannedRunView>) -> nat
    decreases runs.len(),
{
    if runs.len() == 0 {
        0
    } else {
        named_ids(runs.drop_last()) + runs.last().new_ids.len() + runs.last().delisted_ids.len()
    }
}

/// No event is written twice: there are as many as the rounds name ids.
pub proof fn law_one_event_for_each_id(
    t: TablesView,
    plan: ImportPlanView,
    run_ids: Seq<i64>,
)
    requires
        run_ids.len() == plan.runs.len(),
    ensures
        after_import(t, plan, run_ids).events.len() == named_ids(plan.runs),
{
    law_import_leaves_what_is_listed(t, plan, run_ids);
    lemma_named_ids(plan.runs, run_ids);
}

proof fn lemma_named_ids(runs: Seq<PlannedRunView>, run_ids: Seq<i64>)
    requires
        run_ids.len() == runs.len(),
    ensures
        event_rows(runs, run_ids).len() == named_ids(runs),
    decreases runs.len(),
{
    if runs.len() > 0 {
        lemma_named_ids(runs.drop_last(), run_ids.drop_last());
    }
}

/// The row of a search whose file was taken in is what the file tells, under
/// the id and the name that the search had.
pub proof fn law_search_row_is_the_files(
    t: TablesView,
    file: RawFileView,
    numbers: Seq<ListingNumbers>,
    dates: FileDatesView,
    run_ids: Seq<i64>,
    s: int,
)
    requires
        import_json::planned(file, numbers, dates) matches Some(Ok(_)),
        run_ids.len() == file.history.len(),
        0 <= s < after_import(
            t,
            import_json::planned(file, numbers, dates)->0->Ok_0,
            run_ids,
        ).searches.len(),
    ensures
        ({
            let plan = import_json::planned(file, numbers, dates)->0->Ok_0;
            let row = after_import(t, plan, run_ids).searches[s];
            &&& s < t.searches.len() ==> row.id == t.searches[s].id && row.name
                == t.searches[s].name && row.search_url == t.searches[s].search_url
            &&& s >= t.searches.len() ==> row.id == t.record.tracked_search_id && row.name is None
                && row.search_url == file.search_url
            &&& row.search_url != file.search_url ==> row == t.searches[s]
            &&& row.search_url == file.search_url ==> {
                &&& row.district == plan.district
                &&& row.building_type == plan.building_type
                &&& row.price_range == plan.price_range
                &&& row.artifact_url == file.artifact_url
                &&& row.criteria_json == file.criteria_json
                &&& row.dedup_note == file.dedup_note
                &&& file.last_checked is None ==> row.last_checked is None
                &&& file.last_checked is Some ==> row.last_checked == dates.last_checked
            }
        }),
{
    let plan = import_json::planned(file, numbers, dates)->0->Ok_0;
    law_import_leaves_what_is_listed(t, plan, run_ids);
    if s < t.searches.len() && t.searches[s].search_url == plan.search_url {
        assert(tables::has_url(t.searches, plan.search_url));
    }
}

} // verus!

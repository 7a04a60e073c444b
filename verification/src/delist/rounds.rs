//! What holds of one round after the other.

use crate::date::Date;
use crate::db::models::ListingView;
use crate::db::record;
use crate::db::record::{RecordView, WriteView};
use crate::delist;
use crate::delist::{households, laws, reviews, steps, ReconciliationView};
use crate::scraper;
use crate::scraper::CardView;
use vstd::prelude::*;

verus! {


/// The record after a whole round.
pub open spec fn after_round(
    r: RecordView,
    date: Date,
    scraped: Seq<CardView>,
    check_run_id: i64,
) -> RecordView {
    delist::closed(
        delist::settled(r, date, scraped).record,
        delist::reconciled(r, date, scraped),
        scraped,
        check_run_id,
    )
}

pub(crate) proof fn lemma_seen_by(l: ListingView, cards: Seq<CardView>, check_run_id: i64)
    ensures
        steps::listing_after_all(l, delist::seen_writes(cards, check_run_id)) == (if scraper::has_card(
            cards,
            l.id(),
        ) {
            ListingView { last_seen_check_run_id: Some(check_run_id), ..l }
        } else {
            l
        }),
    decreases cards.len(),
{
    let ws = delist::seen_writes(cards, check_run_id);
    if cards.len() > 0 {
        let front = cards.drop_last();
        assert(ws.drop_last() =~= delist::seen_writes(front, check_run_id));
        lemma_seen_by(l, front, check_run_id);
        assert(cards[cards.len() - 1] == cards.last());
        if scraper::has_card(cards, l.id()) {
            let i = choose|i: int| 0 <= i < cards.len() && (#[trigger] cards[i]).id == l.id();
            if i < front.len() {
                assert(front[i].id == l.id());
            }
        }
        if scraper::has_card(front, l.id()) {
            let i = choose|i: int| 0 <= i < front.len() && (#[trigger] front[i]).id == l.id();
            assert(cards[i].id == l.id());
        }
    }
}

/// A write that is not about a listing.
pub open spec fn spares_listings(w: WriteView) -> bool {
    w is AddEvent || w is SetLastChecked
}

pub(crate) proof fn lemma_listing_spared(l: ListingView, ws: Seq<WriteView>)
    requires
        forall|i: int| 0 <= i < ws.len() ==> spares_listings(#[trigger] ws[i]),
    ensures
        steps::listing_after_all(l, ws) == l,
    decreases ws.len(),
{
    if ws.len() > 0 {
        lemma_listing_spared(l, ws.drop_last());
        assert(spares_listings(ws[ws.len() - 1]));
    }
}

/// Writing a round down marks what was found as seen in it, and changes
/// nothing else of the listings.
pub proof fn law_closing_marks_what_was_seen(
    r: RecordView,
    rec: ReconciliationView,
    scraped: Seq<CardView>,
    check_run_id: i64,
)
    ensures
        ({
            let after = delist::closed(r, rec, scraped, check_run_id);
            &&& after.listings.len() == r.listings.len()
            &&& forall|i: int|
                0 <= i < r.listings.len() ==> #[trigger] after.listings[i] == (
                if scraper::has_card(scraped, r.listings[i].id()) {
                    ListingView {
                        last_seen_check_run_id: Some(check_run_id),
                        ..r.listings[i]
                    }
                } else {
                    r.listings[i]
                })
            &&& after.check_runs == r.check_runs.push(delist::run_row(rec, check_run_id))
            &&& after.last_checked == Some(rec.checked_date)
            &&& after.reviews == r.reviews
        }),
{
    let noted = RecordView {
        check_runs: r.check_runs.push(delist::run_row(rec, check_run_id)),
        ..r
    };
    let after = delist::closed(r, rec, scraped, check_run_id);
    let ws = delist::closing_writes(rec, scraped, check_run_id);
    let cards = scraper::first_by_id(scraped);
    let seen = delist::seen_writes(cards, check_run_id);
    let rest = ws.skip(seen.len() as int);
    assert(ws =~= seen + rest);
    assert forall|i: int| 0 <= i < rest.len() implies spares_listings(#[trigger] rest[i]) by {
        assert(rest[i] == ws[i + seen.len()]);
    }
    assert(steps::adds_none(ws));
    delist::lemma_len_after_writes(noted, ws);
    steps::lemma_check_runs_after_writes(noted, ws);
    reviews::lemma_reviews_after_writes(noted, ws);
    reviews::lemma_reviews_spared(noted.reviews, ws);
    assert(ws.last() == WriteView::SetLastChecked { date: rec.checked_date });
    assert forall|i: int| 0 <= i < r.listings.len() implies #[trigger] after.listings[i] == (
    if scraper::has_card(scraped, r.listings[i].id()) {
        ListingView { last_seen_check_run_id: Some(check_run_id), ..r.listings[i] }
    } else {
        r.listings[i]
    }) by {
        let l = r.listings[i];
        steps::lemma_listing_after_writes(noted, ws, i);
        steps::lemma_listing_after_add(l, seen, rest);
        lemma_seen_by(l, cards, check_run_id);
        scraper::lemma_first_by_id_has(scraped, l.id());
        lemma_listing_spared(steps::listing_after_all(l, seen), rest);
    }
}

/// A whole round keeps the record sound.
pub proof fn law_rounds_keep_record_sound(
    r: RecordView,
    date: Date,
    scraped: Seq<CardView>,
    check_run_id: i64,
)
    requires
        laws::is_sound(r.listings),
    ensures
        laws::is_sound(after_round(r, date, scraped, check_run_id).listings),
{
    laws::law_round_keeps_record_sound(r, date, scraped);
    let before = delist::settled(r, date, scraped).record;
    law_closing_marks_what_was_seen(
        before,
        delist::reconciled(r, date, scraped),
        scraped,
        check_run_id,
    );
    let a = before.listings;
    let b = after_round(r, date, scraped, check_run_id).listings;
    assert forall|i: int| #![trigger b[i]] 0 <= i < a.len() implies b[i].id() == a[i].id()
        && b[i].duplicate_of == a[i].duplicate_of by {}
    assert forall|i: int, j: int|
        #![trigger b[i], b[j]]
        0 <= i < j < b.len() implies b[i].id() != b[j].id() by {
        assert(a[i].id() != a[j].id());
    }
    assert forall|i: int|
        0 <= i < b.len() && (#[trigger] b[i]).duplicate_of is Some implies laws::is_representative(
        b,
        b[i].duplicate_of->0,
    ) by {
        let t = b[i].duplicate_of->0;
        assert(a[i].duplicate_of == Some(t));
        assert(laws::is_representative(a, t));
        let j = choose|j: int|
            0 <= j < a.len() && (#[trigger] a[j]).id() == t && a[j].duplicate_of is None;
        assert(b[j].id() == t);
    }
}

/// The id is larger than that of every earlier round.
pub open spec fn is_later_run(r: RecordView, check_run_id: i64) -> bool {
    forall|i: int| 0 <= i < r.check_runs.len() ==> (#[trigger] r.check_runs[i]).id < check_run_id
}

pub(crate) proof fn lemma_round_is_latest(
    r: RecordView,
    date: Date,
    scraped: Seq<CardView>,
    check_run_id: i64,
)
    requires
        is_later_run(r, check_run_id),
    ensures
        record::latest_run(after_round(r, date, scraped, check_run_id).check_runs) == Some(
            check_run_id,
        ),
{
    let before = delist::settled(r, date, scraped).record;
    let rec = delist::reconciled(r, date, scraped);
    steps::lemma_writes_lead_to_record(r, date, scraped);
    steps::lemma_check_runs_after_writes(r, delist::settled(r, date, scraped).writes);
    law_closing_marks_what_was_seen(before, rec, scraped, check_run_id);
    let runs = after_round(r, date, scraped, check_run_id).check_runs;
    let n = r.check_runs.len() as int;
    assert(runs == r.check_runs.push(delist::run_row(rec, check_run_id)));
    assert(runs[n].id == check_run_id);
    assert forall|i: int| 0 <= i < runs.len() implies #[trigger] runs[i].id <= check_run_id by {
        if i < n {
            assert(runs[i] == r.check_runs[i]);
        }
    }
    assert(record::is_latest_run(runs, Some(check_run_id)));
    record::lemma_latest_run_unique(runs, Some(check_run_id), record::latest_run(runs));
}

/// Missing once is not enough: what was found in one round is on the market
/// after the next, whatever that finds.
pub proof fn law_one_miss_does_not_delist(
    r: RecordView,
    date: Date,
    scraped: Seq<CardView>,
    check_run_id: i64,
    next_date: Date,
    next_scraped: Seq<CardView>,
    i: int,
)
    requires
        laws::is_sound(r.listings),
        is_later_run(r, check_run_id),
        0 <= i < after_round(r, date, scraped, check_run_id).listings.len(),
        scraper::has_card(
            scraped,
            after_round(r, date, scraped, check_run_id).listings[i].id(),
        ),
    ensures
        !delist::settled(
            after_round(r, date, scraped, check_run_id),
            next_date,
            next_scraped,
        ).record.listings[i].delisted,
{
    let settled = delist::settled(r, date, scraped).record;
    let between = after_round(r, date, scraped, check_run_id);
    laws::law_round_keeps_record_sound(r, date, scraped);
    law_closing_marks_what_was_seen(
        settled,
        delist::reconciled(r, date, scraped),
        scraped,
        check_run_id,
    );
    law_rounds_keep_record_sound(r, date, scraped, check_run_id);
    lemma_round_is_latest(r, date, scraped, check_run_id);
    let l = settled.listings[i];
    assert(between.listings[i] == ListingView { last_seen_check_run_id: Some(check_run_id), ..l });
    lemma_found_listing_is_on_the_market(r, date, scraped, i);
    if delist::settled(between, next_date, next_scraped).record.listings[i].delisted {
        laws::law_delisting_takes_two_misses(between, next_date, next_scraped, i);
    }
}

pub(crate) proof fn lemma_found_listing_is_on_the_market(
    r: RecordView,
    date: Date,
    scraped: Seq<CardView>,
    i: int,
)
    requires
        laws::is_sound(r.listings),
        0 <= i < delist::settled(r, date, scraped).record.listings.len(),
        scraper::has_card(scraped, delist::settled(r, date, scraped).record.listings[i].id()),
    ensures
        !delist::settled(r, date, scraped).record.listings[i].delisted,
{
    let end = delist::settled(r, date, scraped).record.listings;
    laws::law_round_keeps_record_sound(r, date, scraped);
    let m = lemma_last_of_id(scraped, end[i].id());
    laws::law_every_card_is_in_the_record(r, date, scraped, m);
    let k = choose|k: int|
        0 <= k < end.len() && (#[trigger] end[k]).card == scraped[m] && !end[k].delisted;
    laws::lemma_same_id(end, i, k);
}

/// The last card with an id.
pub(crate) proof fn lemma_last_of_id(cards: Seq<CardView>, id: Seq<char>) -> (m: int)
    requires
        scraper::has_card(cards, id),
    ensures
        laws::is_last_of_id(cards, m),
        cards[m].id == id,
    decreases cards.len(),
{
    if cards.last().id == id {
        assert(laws::is_last_of_id(cards, cards.len() - 1));
        cards.len() - 1
    } else {
        let front = cards.drop_last();
        let i = choose|i: int| 0 <= i < cards.len() && (#[trigger] cards[i]).id == id;
        assert(front[i].id == id);
        let m = lemma_last_of_id(front, id);
        assert forall|k: int| m < k < cards.len() implies (#[trigger] cards[k]).id != cards[m].id by {
            if k < front.len() {
                assert(front[k].id != front[m].id);
            }
        }
        m
    }
}

/// A household is not taken off the market for missing once: where its
/// representative was found in one round, or one of its listings is found in
/// the next, its representative is on the market after that, whichever listing
/// that is by then.
pub proof fn law_household_is_not_delisted_for_one_miss(
    r: RecordView,
    date: Date,
    scraped: Seq<CardView>,
    check_run_id: i64,
    next_date: Date,
    next_scraped: Seq<CardView>,
    i: int,
    k: int,
)
    requires
        laws::is_sound(r.listings),
        is_later_run(r, check_run_id),
        0 <= i < after_round(r, date, scraped, check_run_id).listings.len(),
        ({
            let between = after_round(r, date, scraped, check_run_id);
            let end = delist::settled(between, next_date, next_scraped).record.listings;
            &&& 0 <= k < end.len()
            &&& end[k].id() == end[i].representative()
            &&& scraper::has_card(scraped, between.listings[i].representative())
                || delist::is_household_seen(end, next_scraped, end[k].id())
        }),
    ensures
        !delist::settled(
            after_round(r, date, scraped, check_run_id),
            next_date,
            next_scraped,
        ).record.listings[k].delisted,
{
    let between = after_round(r, date, scraped, check_run_id);
    let end = delist::settled(between, next_date, next_scraped).record.listings;
    law_rounds_keep_record_sound(r, date, scraped, check_run_id);
    laws::law_round_keeps_record_sound(between, next_date, next_scraped);
    laws::law_no_listing_is_lost(between, next_date, next_scraped, i);
    // The listing at `k` represents the household.
    if end[i].duplicate_of is Some {
        assert(laws::is_representative(end, end[i].duplicate_of->0));
        let j = choose|j: int|
            0 <= j < end.len() && (#[trigger] end[j]).id() == end[i].duplicate_of->0
                && end[j].duplicate_of is None;
        laws::lemma_same_id(end, j, k);
    } else {
        laws::lemma_same_id(end, i, k);
    }
    if delist::is_household_seen(end, next_scraped, end[k].id()) {
        laws::law_found_household_is_on_the_market(between, next_date, next_scraped, k);
    } else if scraper::has_card(next_scraped, end[k].id()) {
        lemma_found_listing_is_on_the_market(between, next_date, next_scraped, k);
    } else {
        households::law_new_representative_was_found(between, next_date, next_scraped, i);
        let rep = between.listings[i].representative();
        assert(end[k].id() == rep);
        // It was there after the first round.
        let j = lemma_place_of_representative(between.listings, i);
        laws::law_no_listing_is_lost(between, next_date, next_scraped, j);
        laws::lemma_same_id(end, j, k);
        law_one_miss_does_not_delist(
            r,
            date,
            scraped,
            check_run_id,
            next_date,
            next_scraped,
            j,
        );
    }
}

/// The representative of a listing has a place among the listings.
pub(crate) proof fn lemma_place_of_representative(listings: Seq<ListingView>, i: int) -> (j: int)
    requires
        laws::one_level(listings),
        0 <= i < listings.len(),
    ensures
        0 <= j < listings.len(),
        listings[j].id() == listings[i].representative(),
{
    if listings[i].duplicate_of is Some {
        assert(laws::is_representative(listings, listings[i].duplicate_of->0));
        choose|j: int|
            0 <= j < listings.len() && (#[trigger] listings[j]).id()
                == listings[i].duplicate_of->0 && listings[j].duplicate_of is None
    } else {
        i
    }
}

/// Missing twice is enough: a representative that was not found in one round,
/// and none of whose household is found in the next, is off the market after
/// that.
pub proof fn law_missing_from_two_rounds_delists(
    r: RecordView,
    date: Date,
    scraped: Seq<CardView>,
    check_run_id: i64,
    next_date: Date,
    next_scraped: Seq<CardView>,
    i: int,
)
    requires
        laws::is_sound(r.listings),
        is_later_run(r, check_run_id),
        0 <= i < r.listings.len(),
        r.listings[i].last_seen_check_run_id matches Some(seen) ==> seen < check_run_id,
        !scraper::has_card(scraped, r.listings[i].id()),
        ({
            let end = delist::settled(
                after_round(r, date, scraped, check_run_id),
                next_date,
                next_scraped,
            ).record.listings;
            &&& end[i].duplicate_of is None
            &&& !delist::is_household_seen(end, next_scraped, r.listings[i].id())
        }),
    ensures
        delist::settled(
            after_round(r, date, scraped, check_run_id),
            next_date,
            next_scraped,
        ).record.listings[i].delisted,
{
    let settled = delist::settled(r, date, scraped).record;
    let between = after_round(r, date, scraped, check_run_id);
    laws::law_no_listing_is_lost(r, date, scraped, i);
    law_closing_marks_what_was_seen(
        settled,
        delist::reconciled(r, date, scraped),
        scraped,
        check_run_id,
    );
    assert(between.listings[i] == settled.listings[i]);
    law_rounds_keep_record_sound(r, date, scraped, check_run_id);
    lemma_round_is_latest(r, date, scraped, check_run_id);
    laws::law_two_misses_delist(between, next_date, next_scraped, i);
}

/// The number that a round reports is that of the households on the market
/// once it is written down.
pub proof fn law_reported_total_is_what_is_on_the_market(
    r: RecordView,
    date: Date,
    scraped: Seq<CardView>,
    check_run_id: i64,
)
    ensures
        delist::reconciled(r, date, scraped).total_active_representatives == record::active_count(
            after_round(r, date, scraped, check_run_id).listings,
        ),
{
    let before = delist::settled(r, date, scraped).record;
    law_closing_marks_what_was_seen(
        before,
        delist::reconciled(r, date, scraped),
        scraped,
        check_run_id,
    );
    lemma_active_count_same(
        before.listings,
        after_round(r, date, scraped, check_run_id).listings,
    );
}

pub(crate) proof fn lemma_active_count_same(a: Seq<ListingView>, b: Seq<ListingView>)
    requires
        a.len() == b.len(),
        forall|i: int|
            0 <= i < a.len() ==> record::is_active(#[trigger] b[i]) == record::is_active(a[i]),
    ensures
        record::active_count(a) == record::active_count(b),
    decreases a.len(),
{
    reveal(Seq::filter);
    if a.len() > 0 {
        let n = a.len() - 1;
        assert(record::is_active(b[n]) == record::is_active(a[n]));
        assert forall|i: int| 0 <= i < n implies record::is_active(#[trigger] b.drop_last()[i])
            == record::is_active(a.drop_last()[i]) by {
            assert(record::is_active(b[i]) == record::is_active(a[i]));
        }
        lemma_active_count_same(a.drop_last(), b.drop_last());
    }
}

} // verus!

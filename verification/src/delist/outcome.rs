//! What a round leaves behind, and what it reports and writes down.

use crate::date::Date;
use crate::db::models::{CheckRunEventType, ListingView};
use crate::db::record;
use crate::db::record::{RecordView, WriteView};
use crate::delist;
use crate::delist::{
    households, laws, market, reviews, rounds, steps, ProgressView, ReconciliationView,
};
use crate::scraper;
use crate::scraper::CardView;
use crate::text;
use vstd::prelude::*;

verus! {

// ---------------------------------------------------------------------------
// Contents
// ---------------------------------------------------------------------------

/// A listing that was found holds the card that was found last under its id,
/// and one that was not found holds what it held. A listing keeps the day it
/// was first seen; for one that the round added that is the day of the round.
pub proof fn law_listings_hold_what_was_found(
    r: RecordView,
    date: Date,
    scraped: Seq<CardView>,
    i: int,
)
    requires
        laws::is_sound(r.listings),
        0 <= i < delist::settled(r, date, scraped).record.listings.len(),
    ensures
        ({
            let end = delist::settled(r, date, scraped).record.listings;
            &&& forall|m: int|
                #![trigger scraped[m]]
                0 <= m < scraped.len() && scraped[m].id == end[i].card.id && (forall|k: int|
                    m < k < scraped.len() ==> (#[trigger] scraped[k]).id != scraped[m].id)
                    ==> end[i].card == scraped[m]
            &&& i < r.listings.len() ==> {
                &&& end[i].card.id == r.listings[i].card.id
                &&& end[i].first_seen == r.listings[i].first_seen
                &&& end[i].last_seen_check_run_id == r.listings[i].last_seen_check_run_id
            }
            &&& i < r.listings.len() && (forall|k: int|
                0 <= k < scraped.len() ==> (#[trigger] scraped[k]).id != r.listings[i].card.id)
                ==> end[i].card == r.listings[i].card
            &&& i >= r.listings.len() ==> {
                &&& end[i].first_seen == date
                &&& end[i].last_seen_check_run_id is None
                &&& end[i].delisted_date is None
                &&& exists|k: int|
                    0 <= k < scraped.len() && (#[trigger] scraped[k]).id == end[i].card.id
            }
        }),
{
    let end = delist::settled(r, date, scraped).record.listings;
    let p = delist::matched(r, date, scraped).record.listings;
    laws::lemma_matched_sound(r, date, scraped);
    laws::law_round_keeps_record_sound(r, date, scraped);
    steps::lemma_lengths(r, date, scraped);
    laws::lemma_settled_listing(r, date, scraped, i);
    assert forall|m: int|
        #![trigger scraped[m]]
        0 <= m < scraped.len() && scraped[m].id == end[i].card.id && (forall|k: int|
            m < k < scraped.len() ==> (#[trigger] scraped[k]).id != scraped[m].id)
        implies end[i].card == scraped[m] by {
        assert(laws::is_last_of_id(scraped, m));
        laws::law_every_card_is_in_the_record(r, date, scraped, m);
        let k = choose|k: int|
            0 <= k < end.len() && (#[trigger] end[k]).card == scraped[m] && !end[k].delisted;
        laws::lemma_same_id(end, i, k);
    }
    if i < r.listings.len() {
        laws::law_no_listing_is_lost(r, date, scraped, i);
        laws::lemma_matched_carries(r, date, scraped, i);
    } else {
        let start = delist::started(r);
        let reps = delist::representatives(r.listings);
        let q = delist::all_succeeded(start, scraped, reps);
        steps::lemma_all_succeeded_shape(start, scraped, reps);
        lemma_added_as_new(q, scraped, date, scraped, i);
        market::lemma_added_was_found(r, date, scraped, i);
        assert(delist::is_household_seen(p, scraped, p[i].id()) || p[i].duplicate_of is Some) by {
            if p[i].duplicate_of is None {
                assert(p[i].representative() == p[i].id());
            }
        }
    }
}

proof fn lemma_added_as_new(
    p: ProgressView,
    scraped: Seq<CardView>,
    date: Date,
    cards: Seq<CardView>,
    i: int,
)
    requires
        laws::is_sound(p.record.listings),
        p.record.listings.len() <= i < delist::all_taken(
            p,
            scraped,
            date,
            cards,
        ).record.listings.len(),
    ensures
        ({
            let l = delist::all_taken(p, scraped, date, cards).record.listings[i];
            &&& l.first_seen == date
            &&& l.last_seen_check_run_id is None
            &&& l.delisted_date is None
            &&& !l.delisted
        }),
    decreases cards.len(),
{
    if cards.len() > 0 {
        let front = cards.drop_last();
        let card = cards.last();
        let o = delist::all_taken(p, scraped, date, front);
        laws::lemma_all_taken_sound(p, scraped, date, front);
        let a = o.record.listings;
        if record::has_listing(a, card.id) {
            laws::lemma_taken_known(o, scraped, date, card);
            lemma_added_as_new(p, scraped, date, front, i);
        } else {
            laws::lemma_taken_new(o, scraped, date, card);
            if i < a.len() {
                lemma_added_as_new(p, scraped, date, front, i);
                let b = delist::taken(o, scraped, date, card).record.listings;
                assert(steps::same_contents(a[i], b[i]));
            }
        }
    }
}

/// A listing that is found is not left with a day on which it went off the
/// market, and neither is one that comes back.
pub proof fn law_no_day_stays_of_what_is_back(
    r: RecordView,
    date: Date,
    scraped: Seq<CardView>,
    i: int,
)
    requires
        laws::is_sound(r.listings),
        0 <= i < r.listings.len(),
        (exists|k: int| 0 <= k < scraped.len() && (#[trigger] scraped[k]).id
            == r.listings[i].card.id) || r.listings[i].delisted,
        !delist::settled(r, date, scraped).record.listings[i].delisted,
    ensures
        delist::settled(r, date, scraped).record.listings[i].delisted_date is None,
{
    let p = delist::matched(r, date, scraped).record;
    laws::lemma_matched_sound(r, date, scraped);
    steps::lemma_lengths(r, date, scraped);
    laws::lemma_matched_carries(r, date, scraped, i);
    laws::lemma_settled_listing(r, date, scraped, i);
    if scraper::has_card(scraped, r.listings[i].id()) {
        let start = delist::started(r);
        let reps = delist::representatives(r.listings);
        let q = delist::all_succeeded(start, scraped, reps);
        laws::lemma_all_succeeded_carries(start, scraped, reps, i);
        lemma_found_has_no_day(q, scraped, date, scraped, i);
    }
}

proof fn lemma_found_has_no_day(
    p: ProgressView,
    scraped: Seq<CardView>,
    date: Date,
    cards: Seq<CardView>,
    i: int,
)
    requires
        laws::is_sound(p.record.listings),
        0 <= i < p.record.listings.len(),
        scraper::has_card(cards, p.record.listings[i].id()),
    ensures
        ({
            let q = delist::all_taken(p, scraped, date, cards).record.listings;
            &&& i < q.len()
            &&& q[i].id() == p.record.listings[i].id()
            &&& q[i].delisted_date is None
        }),
    decreases cards.len(),
{
    let id = p.record.listings[i].id();
    let front = cards.drop_last();
    let card = cards.last();
    let o = delist::all_taken(p, scraped, date, front);
    laws::lemma_all_taken_sound(p, scraped, date, front);
    lemma_keeps_place(p, scraped, date, front, i);
    let k = choose|k: int| 0 <= k < cards.len() && (#[trigger] cards[k]).id == id;
    if card.id != id {
        assert(front[k].id == id);
        lemma_found_has_no_day(p, scraped, date, front, i);
    }
    let a = o.record.listings;
    if record::has_listing(a, card.id) {
        laws::lemma_taken_known(o, scraped, date, card);
    } else {
        laws::lemma_taken_new(o, scraped, date, card);
        let b = delist::taken(o, scraped, date, card).record.listings;
        assert(steps::same_contents(a[i], b[i]));
        assert(card.id != id) by {
            assert(a[i].id() == id);
        }
    }
}

proof fn lemma_keeps_place(
    p: ProgressView,
    scraped: Seq<CardView>,
    date: Date,
    cards: Seq<CardView>,
    i: int,
)
    requires
        laws::is_sound(p.record.listings),
        0 <= i < p.record.listings.len(),
    ensures
        ({
            let q = delist::all_taken(p, scraped, date, cards).record.listings;
            i < q.len() && q[i].id() == p.record.listings[i].id()
        }),
    decreases cards.len(),
{
    if cards.len() > 0 {
        let front = cards.drop_last();
        let card = cards.last();
        lemma_keeps_place(p, scraped, date, front, i);
        let o = delist::all_taken(p, scraped, date, front);
        laws::lemma_all_taken_sound(p, scraped, date, front);
        let a = o.record.listings;
        if record::has_listing(a, card.id) {
            laws::lemma_taken_known(o, scraped, date, card);
        } else {
            laws::lemma_taken_new(o, scraped, date, card);
            let b = delist::taken(o, scraped, date, card).record.listings;
            assert(steps::same_contents(a[i], b[i]));
        }
    }
}

// ---------------------------------------------------------------------------
// New ids
// ---------------------------------------------------------------------------

/// Card `m` is the first with its id, and no listing has it.
pub(crate) open spec fn brings_new_id(listings: Seq<ListingView>, scraped: Seq<CardView>, m: int) -> bool {
    &&& forall|k: int| 0 <= k < m ==> (#[trigger] scraped[k]).id != scraped[m].id
    &&& forall|i: int| 0 <= i < listings.len() ==> (#[trigger] listings[i]).card.id
        != scraped[m].id
}

pub(crate) open spec fn places_of_new(listings: Seq<ListingView>, scraped: Seq<CardView>, m: int) -> Seq<int>
    decreases m,
{
    if m <= 0 {
        seq![]
    } else if brings_new_id(listings, scraped, m - 1) {
        places_of_new(listings, scraped, m - 1).push(m - 1)
    } else {
        places_of_new(listings, scraped, m - 1)
    }
}

pub(crate) proof fn lemma_places_of_new(listings: Seq<ListingView>, scraped: Seq<CardView>, m: int)
    requires
        0 <= m <= scraped.len(),
    ensures
        ({
            let at = places_of_new(listings, scraped, m);
            &&& forall|k: int| 0 <= k < at.len() ==> 0 <= #[trigger] at[k] < m
            &&& forall|k: int, l: int| 0 <= k < l < at.len() ==> #[trigger] at[k] < #[trigger] at[l]
            &&& forall|i: int|
                0 <= i < m ==> (#[trigger] at.contains(i) <==> brings_new_id(listings, scraped, i))
        }),
    decreases m,
{
    if m > 0 {
        lemma_places_of_new(listings, scraped, m - 1);
        let front = places_of_new(listings, scraped, m - 1);
        let at = places_of_new(listings, scraped, m);
        let new = brings_new_id(listings, scraped, m - 1);
        assert forall|i: int| 0 <= i < m implies (#[trigger] at.contains(i) <==> brings_new_id(
            listings,
            scraped,
            i,
        )) by {
            if at.contains(i) {
                let k = at.index_of(i);
                assert(at[k] == i);
                if i < m - 1 {
                    assert(front[k] == i);
                    assert(front.contains(i));
                } else if !new {
                    assert(front[k] == i);
                }
            }
            if i < m - 1 && front.contains(i) {
                let k = front.index_of(i);
                assert(at[k] == i);
            }
            if i == m - 1 && new {
                assert(at[at.len() - 1] == i);
            }
        }
    }
}

pub(crate) proof fn lemma_new_in_order(r: RecordView, date: Date, scraped: Seq<CardView>, m: int)
    requires
        laws::is_sound(r.listings),
        0 <= m <= scraped.len(),
    ensures
        ({
            let q = delist::all_succeeded(
                delist::started(r),
                scraped,
                delist::representatives(r.listings),
            );
            let p = delist::all_taken(q, scraped, date, scraped.take(m));
            let at = places_of_new(r.listings, scraped, m);
            &&& p.new_ids.len() == at.len()
            &&& p.record.listings.len() == r.listings.len() + at.len()
            &&& forall|k: int|
                #![trigger p.new_ids[k]]
                0 <= k < at.len() ==> p.new_ids[k] == scraped[at[k]].id && p.record.listings[
                r.listings.len() + k].id() == p.new_ids[k]
        }),
    decreases m,
{
    let start = delist::started(r);
    let reps = delist::representatives(r.listings);
    let q = delist::all_succeeded(start, scraped, reps);
    laws::lemma_matched_sound(r, date, scraped);
    steps::lemma_all_succeeded_shape(start, scraped, reps);
    if m == 0 {
        assert(scraped.take(0) =~= Seq::empty());
    } else {
        lemma_new_in_order(r, date, scraped, m - 1);
        let card = scraped[m - 1];
        let front = scraped.take(m - 1);
        assert(scraped.take(m).drop_last() =~= front);
        assert(scraped.take(m).last() == card);
        let o = delist::all_taken(q, scraped, date, front);
        let p = delist::taken(o, scraped, date, card);
        laws::lemma_all_taken_sound(q, scraped, date, front);
        laws::lemma_all_taken_new_ids(q, scraped, date, front);
        let a = o.record.listings;
        let b = p.record.listings;
        assert(record::has_listing(a, card.id) <==> record::has_listing(
            q.record.listings,
            card.id,
        ) || scraper::has_card(front, card.id));
        lemma_same_ids_known(r, scraped, card.id);
        let new = brings_new_id(r.listings, scraped, m - 1);
        assert(new <==> !record::has_listing(a, card.id)) by {
            if scraper::has_card(front, card.id) {
                let k = choose|k: int| 0 <= k < front.len() && (#[trigger] front[k]).id == card.id;
                assert(scraped[k].id == card.id);
            }
            if record::has_listing(r.listings, card.id) {
                let i = choose|i: int|
                    0 <= i < r.listings.len() && #[trigger] r.listings[i].id() == card.id;
                assert(r.listings[i].card.id == card.id);
            }
            if !new {
                if exists|k: int| 0 <= k < m - 1 && (#[trigger] scraped[k]).id == card.id {
                    let k = choose|k: int| 0 <= k < m - 1 && (#[trigger] scraped[k]).id == card.id;
                    assert(front[k].id == card.id);
                } else {
                    let i = choose|i: int|
                        0 <= i < r.listings.len() && (#[trigger] r.listings[i]).card.id == card.id;
                    assert(r.listings[i].id() == card.id);
                }
            }
        }
        let at = places_of_new(r.listings, scraped, m - 1);
        if new {
            laws::lemma_taken_new(o, scraped, date, card);
            assert forall|k: int|
                #![trigger p.new_ids[k]]
                0 <= k < at.len() + 1 implies p.new_ids[k] == scraped[at.push(m - 1)[k]].id && b[
            r.listings.len() + k].id() == p.new_ids[k] by {
                if k < at.len() {
                    assert(o.new_ids[k] == p.new_ids[k]);
                    assert(steps::same_contents(a[r.listings.len() + k], b[r.listings.len() + k]));
                }
            }
        } else {
            laws::lemma_taken_known(o, scraped, date, card);
            assert forall|k: int|
                #![trigger p.new_ids[k]]
                0 <= k < at.len() implies p.new_ids[k] == scraped[at[k]].id && b[
            r.listings.len() + k].id() == p.new_ids[k] by {
                assert(o.new_ids[k] == p.new_ids[k]);
                assert(b[r.listings.len() + k].id() == a[r.listings.len() + k].id());
            }
        }
    }
}

proof fn lemma_same_ids_known(r: RecordView, scraped: Seq<CardView>, id: Seq<char>)
    ensures
        record::has_listing(
            delist::all_succeeded(
                delist::started(r),
                scraped,
                delist::representatives(r.listings),
            ).record.listings,
            id,
        ) <==> record::has_listing(r.listings, id),
{
    let start = delist::started(r);
    let reps = delist::representatives(r.listings);
    let q = delist::all_succeeded(start, scraped, reps).record.listings;
    steps::lemma_all_succeeded_shape(start, scraped, reps);
    if record::has_listing(q, id) {
        let k = choose|k: int| 0 <= k < q.len() && #[trigger] q[k].id() == id;
        laws::lemma_all_succeeded_carries(start, scraped, reps, k);
        assert(r.listings[k].id() == id);
    }
    if record::has_listing(r.listings, id) {
        let k = choose|k: int| 0 <= k < r.listings.len() && #[trigger] r.listings[k].id() == id;
        laws::lemma_all_succeeded_carries(start, scraped, reps, k);
        assert(q[k].id() == id);
    }
}

/// The ids reported as new are those under which no listing was known, each
/// once, in the order in which they were found first; and the listings that
/// the round adds stand behind the known ones in the same order. At the places
/// `at` of the cards stand the first with such an id.
pub proof fn law_new_ids_come_in_order(r: RecordView, date: Date, scraped: Seq<CardView>) -> (at:
    Seq<int>)
    requires
        laws::is_sound(r.listings),
    ensures
        ({
            let end = delist::settled(r, date, scraped).record.listings;
            let ids = delist::reconciled(r, date, scraped).new_ids;
            let new = |m: int|
                {
                    &&& forall|k: int| 0 <= k < m ==> (#[trigger] scraped[k]).id != scraped[m].id
                    &&& forall|i: int|
                        0 <= i < r.listings.len() ==> (#[trigger] r.listings[i]).card.id
                            != scraped[m].id
                };
            &&& at.len() == ids.len()
            &&& end.len() == r.listings.len() + ids.len()
            &&& forall|k: int| 0 <= k < at.len() ==> 0 <= #[trigger] at[k] < scraped.len()
            &&& forall|k: int, l: int| 0 <= k < l < at.len() ==> #[trigger] at[k] < #[trigger] at[l]
            &&& forall|m: int|
                0 <= m < scraped.len() ==> (#[trigger] at.contains(m) <==> new(m))
            &&& forall|k: int|
                #![trigger ids[k]]
                0 <= k < ids.len() ==> ids[k] == scraped[at[k]].id && end[r.listings.len()
                    + k].card.id == ids[k]
        }),
{
    let n = scraped.len() as int;
    let at = places_of_new(r.listings, scraped, n);
    lemma_places_of_new(r.listings, scraped, n);
    lemma_new_in_order(r, date, scraped, n);
    assert(scraped.take(n) =~= scraped);
    laws::lemma_matched_sound(r, date, scraped);
    steps::lemma_lengths(r, date, scraped);
    let end = delist::settled(r, date, scraped).record.listings;
    let ids = delist::reconciled(r, date, scraped).new_ids;
    assert forall|k: int|
        #![trigger ids[k]]
        0 <= k < ids.len() implies ids[k] == scraped[at[k]].id && end[r.listings.len() + k].card.id
        == ids[k] by {
        laws::lemma_settled_listing(r, date, scraped, r.listings.len() + k);
    }
    at
}

// ---------------------------------------------------------------------------
// Changes of ids, and reviews
// ---------------------------------------------------------------------------

spec fn is_change_of(p: ProgressView, id: Seq<char>) -> bool {
    exists|k: int|
        0 <= k < p.id_changes.len() && ((#[trigger] p.id_changes[k]).0 == id || p.id_changes[k].1
            == id)
}

spec fn changes_hold(r: RecordView, scraped: Seq<CardView>, p: ProgressView) -> bool {
    &&& p.record.listings.len() >= r.listings.len()
    &&& forall|i: int|
        #![trigger p.record.listings[i]]
        0 <= i < r.listings.len() ==> p.record.listings[i].id() == r.listings[i].id()
    &&& forall|i: int|
        #![trigger p.record.listings[i]]
        r.listings.len() <= i < p.record.listings.len() ==> scraper::has_card(
            scraped,
            p.record.listings[i].id(),
        )
    &&& forall|k: int|
        #![trigger p.id_changes[k]]
        0 <= k < p.id_changes.len() ==> {
            &&& record::has_listing(r.listings, p.id_changes[k].0)
            &&& !scraper::has_card(scraped, p.id_changes[k].0)
            &&& scraper::has_card(scraped, p.id_changes[k].1)
            &&& !p.record.reviews.contains_key(p.id_changes[k].0)
        }
    &&& forall|id: Seq<char>|
        !is_change_of(p, id) ==> (#[trigger] p.record.reviews.contains_key(id)
            <==> r.reviews.contains_key(id)) && (r.reviews.contains_key(id)
            ==> p.record.reviews[id] == r.reviews[id])
    &&& forall|i: int|
        #![trigger p.record.listings[i]]
        0 <= i < r.listings.len() && r.listings[i].duplicate_of is None
            && p.record.listings[i].duplicate_of is Some ==> exists|k: int|
            0 <= k < p.id_changes.len() && (#[trigger] p.id_changes[k]).0 == r.listings[i].id()
}

proof fn lemma_one_more_change(
    r: RecordView,
    scraped: Seq<CardView>,
    p: ProgressView,
    q: ProgressView,
    old_id: Seq<char>,
    new_id: Seq<char>,
)
    requires
        changes_hold(r, scraped, p),
        q.id_changes == p.id_changes.push((old_id, new_id)),
        q.record.reviews == reviews::reviews_moved(p.record.reviews, old_id, new_id),
        record::has_listing(r.listings, old_id),
        !scraper::has_card(scraped, old_id),
        scraper::has_card(scraped, new_id),
        q.record.listings.len() >= p.record.listings.len(),
        forall|i: int|
            #![trigger q.record.listings[i]]
            0 <= i < p.record.listings.len() ==> q.record.listings[i].id()
                == p.record.listings[i].id() && (q.record.listings[i].duplicate_of is Some
                && p.record.listings[i].duplicate_of is None ==> p.record.listings[i].id()
                == old_id),
        forall|i: int|
            #![trigger q.record.listings[i]]
            p.record.listings.len() <= i < q.record.listings.len() ==> scraper::has_card(
                scraped,
                q.record.listings[i].id(),
            ),
    ensures
        changes_hold(r, scraped, q),
{
    let n = p.id_changes.len() as int;
    assert(q.id_changes[n] == (old_id, new_id));
    assert forall|k: int| 0 <= k < n implies #[trigger] q.id_changes[k] == p.id_changes[k] by {}
    assert forall|k: int|
        #![trigger q.id_changes[k]]
        0 <= k < q.id_changes.len() implies !q.record.reviews.contains_key(q.id_changes[k].0) by {
        if k < n {
            assert(!p.record.reviews.contains_key(p.id_changes[k].0));
            assert(p.id_changes[k].0 != new_id);
        }
    }
    assert forall|id: Seq<char>| !is_change_of(q, id) implies (
    #[trigger] q.record.reviews.contains_key(id) <==> r.reviews.contains_key(id)) && (
    r.reviews.contains_key(id) ==> q.record.reviews[id] == r.reviews[id]) by {
        assert(id != old_id && id != new_id) by {
            assert(q.id_changes[n].0 == old_id && q.id_changes[n].1 == new_id);
        }
        if is_change_of(p, id) {
            let k = choose|k: int|
                0 <= k < n && ((#[trigger] p.id_changes[k]).0 == id || p.id_changes[k].1 == id);
            assert(q.id_changes[k] == p.id_changes[k]);
        }
        assert(p.record.reviews.contains_key(id) <==> r.reviews.contains_key(id));
    }
    assert forall|i: int|
        #![trigger q.record.listings[i]]
        0 <= i < r.listings.len() && r.listings[i].duplicate_of is None
            && q.record.listings[i].duplicate_of is Some implies exists|k: int|
        0 <= k < q.id_changes.len() && (#[trigger] q.id_changes[k]).0 == r.listings[i].id() by {
        assert(p.record.listings[i].id() == r.listings[i].id());
        if p.record.listings[i].duplicate_of is Some {
            let k = choose|k: int|
                0 <= k < n && (#[trigger] p.id_changes[k]).0 == r.listings[i].id();
            assert(q.id_changes[k].0 == r.listings[i].id());
        } else {
            assert(q.id_changes[n].0 == r.listings[i].id());
        }
    }
    assert forall|i: int|
        #![trigger q.record.listings[i]]
        0 <= i < r.listings.len() implies q.record.listings[i].id() == r.listings[i].id() by {
        assert(p.record.listings[i].id() == r.listings[i].id());
    }
    assert forall|i: int|
        #![trigger q.record.listings[i]]
        r.listings.len() <= i < q.record.listings.len() implies scraper::has_card(
        scraped,
        q.record.listings[i].id(),
    ) by {
        if i < p.record.listings.len() {
            assert(scraper::has_card(scraped, p.record.listings[i].id()));
        }
    }
}

proof fn lemma_succession_changes(
    r: RecordView,
    scraped: Seq<CardView>,
    reps: Seq<Seq<char>>,
)
    requires
        laws::is_sound(r.listings),
        reps.no_duplicates(),
        forall|k: int|
            0 <= k < reps.len() ==> laws::is_representative(r.listings, #[trigger] reps[k]),
    ensures
        changes_hold(r, scraped, delist::all_succeeded(delist::started(r), scraped, reps)),
    decreases reps.len(),
{
    let start = delist::started(r);
    if reps.len() > 0 {
        let front = reps.drop_last();
        let rep = reps.last();
        households::lemma_front_of_representatives(r.listings, reps);
        lemma_succession_changes(r, scraped, front);
        laws::lemma_all_succeeded_sound(start, scraped, front);
        steps::lemma_all_succeeded_shape(start, scraped, front);
        let p = delist::all_succeeded(start, scraped, front);
        let q = delist::succeeded(p, scraped, rep);
        let a = p.record.listings;
        assert(laws::is_representative(r.listings, rep));
        assert(laws::is_representative(a, rep));
        if !scraper::has_card(scraped, rep) {
            match delist::successor(a, scraped, rep) {
                Some(new_id) => {
                    laws::lemma_successor_is(a, scraped, rep);
                    let k = choose|k: int|
                        0 <= k < a.len() && (#[trigger] a[k]).id() == new_id && a[k].duplicate_of
                            == Some(rep);
                    laws::lemma_not_own_duplicate(a, k);
                    reviews::lemma_hand_over_reviews(p.record, rep, new_id);
                    let o = choose|o: int|
                        0 <= o < r.listings.len() && (#[trigger] r.listings[o]).id() == rep
                            && r.listings[o].duplicate_of is None;
                    assert(record::has_listing(r.listings, rep)) by {
                        assert(r.listings[o].id() == rep);
                    }
                    steps::lemma_hand_over_effect(p.record, rep, new_id, k);
                    assert forall|i: int|
                        #![trigger q.record.listings[i]]
                        0 <= i < a.len() implies q.record.listings[i].id() == a[i].id() && (
                    q.record.listings[i].duplicate_of is Some && a[i].duplicate_of is None
                        ==> a[i].id() == rep) by {
                        steps::lemma_hand_over_effect(p.record, rep, new_id, i);
                    }
                    lemma_one_more_change(r, scraped, p, q, rep, new_id);
                },
                None => {},
            }
        }
    }
}

proof fn lemma_card_changes(
    r: RecordView,
    scraped: Seq<CardView>,
    date: Date,
    p: ProgressView,
    card: CardView,
)
    requires
        laws::is_sound(p.record.listings),
        changes_hold(r, scraped, p),
        scraper::has_card(scraped, card.id),
    ensures
        changes_hold(r, scraped, delist::taken(p, scraped, date, card)),
{
    let q = delist::taken(p, scraped, date, card);
    let a = p.record.listings;
    let b = q.record.listings;
    let key = delist::card_key(card);
    let known = record::has_listing(a, card.id);
    let present = delist::first_match(p, scraped, key, true);
    let absent = delist::first_match(p, scraped, key, false);
    if known {
        laws::lemma_taken_known(p, scraped, date, card);
    } else {
        laws::lemma_taken_new(p, scraped, date, card);
    }
    if !known && present is None && absent is Some {
        laws::lemma_first_match_found(p, scraped, card, false);
        let j = absent->0;
        let old = a[j];
        assert(delist::is_match(p, scraped, key, false, j));
        assert(j < r.listings.len());
        assert(record::has_listing(r.listings, old.id())) by {
            assert(r.listings[j].id() == old.id());
        }
        reviews::lemma_id_change_reviews(p.record, old, card, date);
        steps::lemma_id_change_effect(p.record, old, card, date);
        assert forall|i: int|
            #![trigger b[i]]
            0 <= i < a.len() implies b[i].id() == a[i].id() && (b[i].duplicate_of is Some
            && a[i].duplicate_of is None ==> a[i].id() == old.id()) by {
            assert(steps::same_contents(a[i], b[i]));
            assert(b[i].duplicate_of == steps::place_after_id_change(a[i], old, card));
        }
        lemma_one_more_change(r, scraped, p, q, old.id(), card.id);
    } else {
        let w = if known {
            WriteView::UpdateListing { card }
        } else if present is Some {
            delist::inserted(card, date, Some(a[present->0].representative()), None)
        } else {
            delist::inserted(card, date, None, None)
        };
        delist::lemma_one_write(p.record, w);
        assert(q.id_changes == p.id_changes);
        assert(q.record.reviews == p.record.reviews);
        assert forall|i: int|
            #![trigger b[i]]
            0 <= i < a.len() implies b[i].id() == a[i].id() && b[i].duplicate_of
            == a[i].duplicate_of by {}
        assert forall|id: Seq<char>| !is_change_of(q, id) implies (
        #[trigger] q.record.reviews.contains_key(id) <==> r.reviews.contains_key(id)) && (
        r.reviews.contains_key(id) ==> q.record.reviews[id] == r.reviews[id]) by {
            assert(!is_change_of(p, id));
            assert(p.record.reviews.contains_key(id) <==> r.reviews.contains_key(id));
        }
        assert forall|i: int|
            #![trigger b[i]]
            0 <= i < r.listings.len() implies b[i].id() == r.listings[i].id() by {
            assert(a[i].id() == r.listings[i].id());
        }
        assert forall|i: int|
            #![trigger b[i]]
            r.listings.len() <= i < b.len() implies scraper::has_card(scraped, b[i].id()) by {
            if i < a.len() {
                assert(scraper::has_card(scraped, a[i].id()));
            }
        }
        assert forall|i: int|
            #![trigger b[i]]
            0 <= i < r.listings.len() && r.listings[i].duplicate_of is None && b[i].duplicate_of
                is Some implies exists|k: int|
            0 <= k < q.id_changes.len() && (#[trigger] q.id_changes[k]).0 == r.listings[i].id() by {
            assert(a[i].duplicate_of is Some);
        }
    }
}

proof fn lemma_cards_changes(
    r: RecordView,
    scraped: Seq<CardView>,
    date: Date,
    p: ProgressView,
    cards: Seq<CardView>,
)
    requires
        laws::is_sound(p.record.listings),
        changes_hold(r, scraped, p),
        forall|k: int|
            0 <= k < cards.len() ==> scraper::has_card(scraped, (#[trigger] cards[k]).id),
    ensures
        changes_hold(r, scraped, delist::all_taken(p, scraped, date, cards)),
    decreases cards.len(),
{
    if cards.len() > 0 {
        let front = cards.drop_last();
        assert(cards[cards.len() - 1] == cards.last());
        assert forall|k: int| 0 <= k < front.len() implies scraper::has_card(
            scraped,
            (#[trigger] front[k]).id,
        ) by {
            assert(front[k] == cards[k]);
        }
        lemma_cards_changes(r, scraped, date, p, front);
        laws::lemma_all_taken_sound(p, scraped, date, front);
        lemma_card_changes(
            r,
            scraped,
            date,
            delist::all_taken(p, scraped, date, front),
            cards.last(),
        );
    }
}

/// What is reported of changed ids. Each change is from a known listing that
/// was not found to one that was, and takes the review away from the first. Every
/// representative that lost its place is reported. The review of a listing that
/// no change names stays as it is.
pub proof fn law_changes_are_reported(r: RecordView, date: Date, scraped: Seq<CardView>)
    requires
        laws::is_sound(r.listings),
    ensures
        ({
            let end = delist::settled(r, date, scraped).record;
            let changes = delist::reconciled(r, date, scraped).id_changes;
            &&& forall|k: int|
                #![trigger changes[k]]
                0 <= k < changes.len() ==> {
                    &&& exists|i: int|
                        0 <= i < r.listings.len() && (#[trigger] r.listings[i]).card.id
                            == changes[k].0
                    &&& forall|m: int|
                        0 <= m < scraped.len() ==> (#[trigger] scraped[m]).id != changes[k].0
                    &&& exists|m: int|
                        0 <= m < scraped.len() && (#[trigger] scraped[m]).id == changes[k].1
                    &&& !end.reviews.contains_key(changes[k].0)
                }
            &&& forall|i: int|
                #![trigger end.listings[i]]
                0 <= i < r.listings.len() && r.listings[i].duplicate_of is None
                    && end.listings[i].duplicate_of is Some ==> exists|k: int|
                    0 <= k < changes.len() && (#[trigger] changes[k]).0 == r.listings[i].card.id
            &&& forall|id: Seq<char>|
                (forall|k: int|
                    0 <= k < changes.len() ==> (#[trigger] changes[k]).0 != id && changes[k].1 != id)
                    ==> (#[trigger] end.reviews.contains_key(id) <==> r.reviews.contains_key(id))
                    && (r.reviews.contains_key(id) ==> end.reviews[id] == r.reviews[id])
        }),
{
    let start = delist::started(r);
    let reps = delist::representatives(r.listings);
    let q = delist::all_succeeded(start, scraped, reps);
    let p = delist::matched(r, date, scraped);
    let end = delist::settled(r, date, scraped);
    let changes = delist::reconciled(r, date, scraped).id_changes;
    laws::lemma_representatives(r.listings);
    laws::lemma_matched_sound(r, date, scraped);
    lemma_succession_changes(r, scraped, reps);
    laws::lemma_own_cards(scraped);
    lemma_cards_changes(r, scraped, date, q, scraped);
    let ws = delist::delist_writes(
        delist::ids_where(p.record.listings, delist::gone(p.record, scraped)),
        date,
    ) + delist::relist_writes(
        delist::ids_where(p.record.listings, delist::back(p.record, scraped)),
    );
    reviews::lemma_reviews_after_writes(p.record, ws);
    reviews::lemma_reviews_spared(p.record.reviews, ws);
    assert(end.record.reviews == p.record.reviews);
    assert(changes == p.id_changes);
    steps::lemma_lengths(r, date, scraped);
    assert forall|k: int|
        #![trigger changes[k]]
        0 <= k < changes.len() implies (exists|i: int|
        0 <= i < r.listings.len() && (#[trigger] r.listings[i]).card.id == changes[k].0) by {
        let i = choose|i: int|
            0 <= i < r.listings.len() && #[trigger] r.listings[i].id() == p.id_changes[k].0;
        assert(r.listings[i].card.id == changes[k].0);
    }
    assert forall|i: int|
        #![trigger end.record.listings[i]]
        0 <= i < r.listings.len() && r.listings[i].duplicate_of is None
            && end.record.listings[i].duplicate_of is Some implies exists|k: int|
        0 <= k < changes.len() && (#[trigger] changes[k]).0 == r.listings[i].card.id by {
        laws::lemma_settled_listing(r, date, scraped, i);
        assert(p.record.listings[i].duplicate_of is Some);
    }
    assert forall|id: Seq<char>|
        (forall|k: int|
            0 <= k < changes.len() ==> (#[trigger] changes[k]).0 != id && changes[k].1 != id)
        implies (#[trigger] end.record.reviews.contains_key(id) <==> r.reviews.contains_key(id))
        && (r.reviews.contains_key(id) ==> end.record.reviews[id] == r.reviews[id]) by {
        assert(!is_change_of(p, id));
        assert(p.record.reviews.contains_key(id) <==> r.reviews.contains_key(id));
    }
}

// ---------------------------------------------------------------------------
// Writing a round down
// ---------------------------------------------------------------------------

/// The note of a round tells how many ids were new, how many households went
/// off the market and how many ids changed.
pub proof fn law_note_tells_the_counts(r: RecordView, date: Date, scraped: Seq<CardView>)
    ensures
        ({
            let rec = delist::reconciled(r, date, scraped);
            &&& rec.checked_date == date
            &&& rec.note == "新增 "@ + text::decimal(rec.new_ids.len()) + " 筆、下架 "@
                + text::decimal(rec.delisted_ids.len()) + " 筆、換id轉移 "@ + text::decimal(
                rec.id_changes.len(),
            ) + " 筆"@
        }),
{
}

/// The round is kept with its id, its day, the count of new ids, the count of
/// households on the market and its note, behind the earlier rounds. Every
/// listing that was found was last seen in it, and no other listing changes.
pub proof fn law_round_is_kept(
    r: RecordView,
    rec: ReconciliationView,
    scraped: Seq<CardView>,
    check_run_id: i64,
    i: int,
)
    requires
        rec.new_ids.len() <= i64::MAX,
        i64::MIN <= rec.total_active_representatives <= i64::MAX,
        0 <= i < r.listings.len(),
    ensures
        ({
            let after = delist::closed(r, rec, scraped, check_run_id);
            let run = after.check_runs.last();
            let found = exists|k: int|
                0 <= k < scraped.len() && (#[trigger] scraped[k]).id == r.listings[i].card.id;
            &&& after.check_runs.drop_last() == r.check_runs
            &&& after.check_runs.len() == r.check_runs.len() + 1
            &&& run.id == check_run_id
            &&& run.checked_date == rec.checked_date
            &&& run.new_count == rec.new_ids.len()
            &&& run.total_count == rec.total_active_representatives
            &&& run.note == Some(rec.note)
            &&& after.last_checked == Some(rec.checked_date)
            &&& after.reviews == r.reviews
            &&& after.listings.len() == r.listings.len()
            &&& found ==> after.listings[i] == (ListingView {
                last_seen_check_run_id: Some(check_run_id),
                ..r.listings[i]
            })
            &&& !found ==> after.listings[i] == r.listings[i]
        }),
{
    rounds::law_closing_marks_what_was_seen(r, rec, scraped, check_run_id);
    let after = delist::closed(r, rec, scraped, check_run_id);
    assert(after.check_runs.drop_last() =~= r.check_runs);
    let found = exists|k: int|
        0 <= k < scraped.len() && (#[trigger] scraped[k]).id == r.listings[i].card.id;
    assert(found == scraper::has_card(scraped, r.listings[i].id()));
    assert(after.listings[i] == after.listings[i]);
}

/// What is written in the database for a round once it has its id: each id
/// found was seen in it; each new id and each household that went off the
/// market is noted as what it is; the search was checked on the day. Nothing
/// else is written.
pub proof fn law_what_is_written_of_a_round(
    rec: ReconciliationView,
    scraped: Seq<CardView>,
    check_run_id: i64,
    id: Seq<char>,
    run: i64,
    date: Date,
)
    ensures
        ({
            let ws = delist::closing_writes(rec, scraped, check_run_id);
            &&& ws.contains(WriteView::MarkSeen { id, check_run_id: run }) <==> run == check_run_id
                && exists|k: int| 0 <= k < scraped.len() && (#[trigger] scraped[k]).id == id
            &&& ws.contains(
                (WriteView::AddEvent {
                    check_run_id: run,
                    listing_id: id,
                    event_type: CheckRunEventType::New,
                }),
            ) <==> run == check_run_id && rec.new_ids.contains(id)
            &&& ws.contains(
                (WriteView::AddEvent {
                    check_run_id: run,
                    listing_id: id,
                    event_type: CheckRunEventType::Delisted,
                }),
            ) <==> run == check_run_id && rec.delisted_ids.contains(id)
            &&& ws.contains(WriteView::SetLastChecked { date }) <==> date == rec.checked_date
            &&& forall|k: int|
                0 <= k < ws.len() ==> (#[trigger] ws[k] is MarkSeen) || ws[k] is AddEvent || ws[k]
                    is SetLastChecked
        }),
{
    let ws = delist::closing_writes(rec, scraped, check_run_id);
    let cards = scraper::first_by_id(scraped);
    let a = cards.len() as int;
    let b = a + rec.new_ids.len();
    let c = b + rec.delisted_ids.len();
    assert forall|k: int| 0 <= k < a implies #[trigger] ws[k] == (WriteView::MarkSeen {
        id: cards[k].id,
        check_run_id,
    }) by {}
    assert forall|k: int| a <= k < b implies #[trigger] ws[k] == (WriteView::AddEvent {
        check_run_id,
        listing_id: rec.new_ids[k - a],
        event_type: CheckRunEventType::New,
    }) by {}
    assert forall|k: int| b <= k < c implies #[trigger] ws[k] == (WriteView::AddEvent {
        check_run_id,
        listing_id: rec.delisted_ids[k - b],
        event_type: CheckRunEventType::Delisted,
    }) by {}
    assert(ws[c] == WriteView::SetLastChecked { date: rec.checked_date });
    assert(ws.len() == c + 1);
    scraper::lemma_first_by_id_has(scraped, id);
    let found = exists|k: int| 0 <= k < scraped.len() && (#[trigger] scraped[k]).id == id;
    assert(found == scraper::has_card(cards, id));
    let seen = WriteView::MarkSeen { id, check_run_id: run };
    if ws.contains(seen) {
        let k = ws.index_of(seen);
        assert(ws[k] == seen);
        assert(cards[k].id == id);
    }
    if run == check_run_id && found {
        let k = choose|k: int| 0 <= k < cards.len() && (#[trigger] cards[k]).id == id;
        assert(ws[k] == seen);
    }
    let new = WriteView::AddEvent {
        check_run_id: run,
        listing_id: id,
        event_type: CheckRunEventType::New,
    };
    if ws.contains(new) {
        let k = ws.index_of(new);
        assert(ws[k] == new);
        assert(rec.new_ids[k - a] == id);
    }
    if run == check_run_id && rec.new_ids.contains(id) {
        let k = rec.new_ids.index_of(id);
        assert(ws[a + k] == new);
    }
    let off = WriteView::AddEvent {
        check_run_id: run,
        listing_id: id,
        event_type: CheckRunEventType::Delisted,
    };
    if ws.contains(off) {
        let k = ws.index_of(off);
        assert(ws[k] == off);
        assert(rec.delisted_ids[k - b] == id);
    }
    if run == check_run_id && rec.delisted_ids.contains(id) {
        let k = rec.delisted_ids.index_of(id);
        assert(ws[b + k] == off);
    }
    let checked = WriteView::SetLastChecked { date };
    if ws.contains(checked) {
        let k = ws.index_of(checked);
        assert(ws[k] == checked);
    }
    if date == rec.checked_date {
        assert(ws[c] == checked);
    }
}

} // verus!

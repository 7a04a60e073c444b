//! What holds of every round.

use crate::date::Date;
use crate::db::models::ListingView;
use crate::db::record;
use crate::db::record::{RecordView, WriteView};
use crate::delist;
use crate::delist::{steps, ProgressView};
use crate::scraper;
use crate::scraper::CardView;
use vstd::prelude::*;

verus! {

// ---------------------------------------------------------------------------
// Duplicates stand one level below their representative
// ---------------------------------------------------------------------------

/// `id` is that of a listing that represents its household.
pub open spec fn is_representative(listings: Seq<ListingView>, id: Seq<char>) -> bool {
    exists|i: int|
        0 <= i < listings.len() && (#[trigger] listings[i]).id() == id
            && listings[i].duplicate_of is None
}

/// Every duplicate is one of a representative.
pub open spec fn one_level(listings: Seq<ListingView>) -> bool {
    forall|i: int|
        0 <= i < listings.len() && (#[trigger] listings[i]).duplicate_of is Some
            ==> is_representative(listings, listings[i].duplicate_of->0)
}

/// What a record holds at any time: ids are unique, and every duplicate is one
/// of a representative.
pub open spec fn is_sound(listings: Seq<ListingView>) -> bool {
    record::distinct_ids(listings) && one_level(listings)
}

pub(crate) proof fn lemma_same_id(listings: Seq<ListingView>, i: int, j: int)
    requires
        record::distinct_ids(listings),
        0 <= i < listings.len(),
        0 <= j < listings.len(),
        listings[i].id() == listings[j].id(),
    ensures
        i == j,
{
}

pub(crate) proof fn lemma_hand_over_sound(r: RecordView, old_id: Seq<char>, new_id: Seq<char>)
    requires
        is_sound(r.listings),
        is_representative(r.listings, old_id),
        exists|k: int|
            0 <= k < r.listings.len() && (#[trigger] r.listings[k]).id() == new_id
                && r.listings[k].duplicate_of == Some(old_id),
    ensures
        ({
            let after = record::apply_writes(r, delist::hand_over(r, old_id, new_id)).listings;
            &&& is_sound(after)
            &&& is_representative(after, new_id)
            &&& forall|id: Seq<char>|
                id != old_id && #[trigger] is_representative(r.listings, id)
                    ==> is_representative(after, id)
        }),
{
    let before = r.listings;
    let after = record::apply_writes(r, delist::hand_over(r, old_id, new_id)).listings;
    let n = before.len() as int;
    let k = choose|k: int|
        0 <= k < n && (#[trigger] before[k]).id() == new_id && before[k].duplicate_of == Some(
            old_id,
        );
    let o = choose|o: int|
        0 <= o < n && (#[trigger] before[o]).id() == old_id && before[o].duplicate_of is None;
    assert(k != o);
    assert(new_id != old_id) by {
        if new_id == old_id {
            lemma_same_id(before, k, o);
        }
    }
    steps::lemma_hand_over_effect(r, old_id, new_id, k);
    assert forall|i: int| 0 <= i < n implies steps::same_contents(before[i], #[trigger] after[i])
        && after[i].duplicate_of == steps::place_after_hand_over(before[i], old_id, new_id) by {
        steps::lemma_hand_over_effect(r, old_id, new_id, i);
    }
    assert forall|i: int, j: int|
        #![trigger after[i], after[j]]
        0 <= i < j < after.len() implies after[i].id() != after[j].id() by {
        assert(before[i].id() != before[j].id());
    }
    assert(after[k].id() == new_id && after[k].duplicate_of is None);
    assert(is_representative(after, new_id));
    assert forall|id: Seq<char>|
        id != old_id && #[trigger] is_representative(before, id) implies is_representative(
        after,
        id,
    ) by {
        let j = choose|j: int|
            0 <= j < n && (#[trigger] before[j]).id() == id && before[j].duplicate_of is None;
        assert(after[j].id() == id);
    }
    assert forall|i: int|
        0 <= i < after.len() && (#[trigger] after[i]).duplicate_of is Some implies is_representative(
        after,
        after[i].duplicate_of->0,
    ) by {
        assert(steps::same_contents(before[i], after[i]));
        let t = after[i].duplicate_of->0;
        if t != new_id {
            assert(before[i].duplicate_of == Some(t));
            assert(is_representative(before, t));
            assert(t != old_id);
        }
    }
}

pub(crate) proof fn lemma_successor_is(
    listings: Seq<ListingView>,
    scraped: Seq<CardView>,
    rep: Seq<char>,
)
    requires
        delist::successor(listings, scraped, rep) is Some,
    ensures
        exists|k: int|
            0 <= k < listings.len() && (#[trigger] listings[k]).id() == delist::successor(
                listings,
                scraped,
                rep,
            )->0 && listings[k].duplicate_of == Some(rep),
        scraper::has_card(scraped, delist::successor(listings, scraped, rep)->0),
{
    let k = choose|k: int| delist::is_successor(listings, scraped, rep, k);
    assert(delist::is_successor(listings, scraped, rep, k));
    assert(listings[k].id() == delist::successor(listings, scraped, rep)->0);
}

pub(crate) proof fn lemma_all_succeeded_sound(
    p: ProgressView,
    scraped: Seq<CardView>,
    reps: Seq<Seq<char>>,
)
    requires
        is_sound(p.record.listings),
        reps.no_duplicates(),
        forall|k: int| 0 <= k < reps.len() ==> is_representative(p.record.listings, #[trigger] reps[k]),
    ensures
        ({
            let after = delist::all_succeeded(p, scraped, reps).record.listings;
            &&& is_sound(after)
            &&& forall|id: Seq<char>|
                !reps.contains(id) && #[trigger] is_representative(p.record.listings, id)
                    ==> is_representative(after, id)
        }),
    decreases reps.len(),
{
    if reps.len() > 0 {
        let front = reps.drop_last();
        let rep = reps.last();
        assert(reps[reps.len() - 1] == rep);
        assert forall|k: int| 0 <= k < front.len() implies is_representative(
            p.record.listings,
            #[trigger] front[k],
        ) by {
            assert(front[k] == reps[k]);
        }
        assert forall|i: int, j: int|
            0 <= i < front.len() && 0 <= j < front.len() && i != j implies front[i] != front[j] by {
            assert(reps[i] != reps[j]);
        }
        lemma_all_succeeded_sound(p, scraped, front);
        let q = delist::all_succeeded(p, scraped, front);
        assert(!front.contains(rep)) by {
            if front.contains(rep) {
                let i = front.index_of(rep);
                assert(reps[i] == reps[reps.len() - 1]);
            }
        }
        assert(is_representative(q.record.listings, rep));
        let after = delist::succeeded(q, scraped, rep).record.listings;
        if !scraper::has_card(scraped, rep) {
            match delist::successor(q.record.listings, scraped, rep) {
                Some(new_id) => {
                    lemma_successor_is(q.record.listings, scraped, rep);
                    lemma_hand_over_sound(q.record, rep, new_id);
                },
                None => {},
            }
        }
        assert forall|id: Seq<char>|
            !reps.contains(id) && #[trigger] is_representative(
                p.record.listings,
                id,
            ) implies is_representative(after, id) by {
            assert(id != rep);
            if front.contains(id) {
                let i = front.index_of(id);
                assert(reps[i] == id);
            }
            assert(is_representative(q.record.listings, id));
        }
    }
}

/// What a selection of ids holds.
pub(crate) proof fn lemma_ids_where(listings: Seq<ListingView>, keep: spec_fn(ListingView) -> bool)
    ensures
        forall|id: Seq<char>| #[trigger]
            delist::ids_where(listings, keep).contains(id) <==> exists|i: int|
                0 <= i < listings.len() && keep(#[trigger] listings[i]) && listings[i].id() == id,
        record::distinct_ids(listings) ==> delist::ids_where(listings, keep).no_duplicates(),
    decreases listings.len(),
{
    let ids = delist::ids_where(listings, keep);
    if listings.len() == 0 {
        reveal(Seq::filter);
        assert(listings.filter(keep) =~= Seq::empty());
        assert(ids =~= Seq::empty());
    } else {
        let n = listings.len() - 1;
        let front = listings.drop_last();
        let last = listings.last();
        assert(listings.take(n) =~= front);
        assert(listings.take(n + 1) =~= listings);
        delist::lemma_ids_where_push(listings, keep, n);
        lemma_ids_where(front, keep);
        let some = delist::ids_where(front, keep);
        assert forall|id: Seq<char>| #[trigger] ids.contains(id) implies exists|i: int|
            0 <= i < listings.len() && keep(#[trigger] listings[i]) && listings[i].id() == id by {
            if some.contains(id) {
                let i = choose|i: int|
                    0 <= i < front.len() && keep(#[trigger] front[i]) && front[i].id() == id;
                assert(listings[i] == front[i]);
            } else {
                assert(listings[n] == last);
                let j = ids.index_of(id);
                if j < some.len() {
                    assert(some[j] == id);
                }
            }
        }
        assert forall|id: Seq<char>|
            (exists|i: int|
                0 <= i < listings.len() && keep(#[trigger] listings[i]) && listings[i].id()
                    == id) implies #[trigger] ids.contains(id) by {
            let i = choose|i: int|
                0 <= i < listings.len() && keep(#[trigger] listings[i]) && listings[i].id() == id;
            if i < n {
                assert(front[i] == listings[i]);
                assert(some.contains(id));
                let j = some.index_of(id);
                assert(ids[j] == id);
            } else {
                assert(ids[ids.len() - 1] == id);
            }
        }
        if record::distinct_ids(listings) {
            assert forall|i: int, j: int|
                #![trigger front[i], front[j]]
                0 <= i < j < front.len() implies front[i].id() != front[j].id() by {
                assert(listings[i].id() != listings[j].id());
            }
            if keep(last) {
                assert(!some.contains(last.id())) by {
                    if some.contains(last.id()) {
                        let i = choose|i: int|
                            0 <= i < front.len() && keep(#[trigger] front[i]) && front[i].id()
                                == last.id();
                        assert(listings[i].id() != listings[n].id());
                    }
                }
                assert forall|i: int, j: int|
                    0 <= i < ids.len() && 0 <= j < ids.len() && i != j implies ids[i] != ids[j] by {
                    if i < some.len() {
                        assert(some.contains(some[i]));
                    }
                    if j < some.len() {
                        assert(some.contains(some[j]));
                    }
                }
            }
        }
    }
}

/// The representatives at the start of a round are representatives, each once.
pub(crate) proof fn lemma_representatives(listings: Seq<ListingView>)
    requires
        record::distinct_ids(listings),
    ensures
        delist::representatives(listings).no_duplicates(),
        forall|k: int|
            0 <= k < delist::representatives(listings).len() ==> is_representative(
                listings,
                #[trigger] delist::representatives(listings)[k],
            ),
        forall|id: Seq<char>| #[trigger]
            delist::representatives(listings).contains(id) <==> is_representative(listings, id),
{
    let reps = delist::representatives(listings);
    assert(reps == delist::ids_where(listings, delist::represents()));
    lemma_ids_where(listings, delist::represents());
    assert forall|id: Seq<char>| #[trigger] reps.contains(id) <==> is_representative(listings, id) by {
        if reps.contains(id) {
            let i = choose|i: int|
                0 <= i < listings.len() && delist::represents()(#[trigger] listings[i])
                    && listings[i].id() == id;
            assert(listings[i].duplicate_of is None);
        }
        if is_representative(listings, id) {
            let i = choose|i: int|
                0 <= i < listings.len() && (#[trigger] listings[i]).id() == id
                    && listings[i].duplicate_of is None;
            assert(delist::represents()(listings[i]));
        }
    }
    assert forall|k: int| 0 <= k < reps.len() implies is_representative(
        listings,
        #[trigger] reps[k],
    ) by {
        assert(reps.contains(reps[k]));
    }
}

/// The state after a card that the record knows.
pub(crate) proof fn lemma_taken_known(
    p: ProgressView,
    scraped: Seq<CardView>,
    date: Date,
    card: CardView,
)
    requires
        record::has_listing(p.record.listings, card.id),
    ensures
        ({
            let q = delist::taken(p, scraped, date, card);
            let before = p.record.listings;
            let after = q.record.listings;
            &&& after.len() == before.len()
            &&& forall|i: int|
                #![trigger after[i]]
                0 <= i < before.len() ==> after[i] == record::listing_after(
                    before[i],
                    WriteView::UpdateListing { card },
                )
            &&& q.known == p.known
            &&& q.new_ids == p.new_ids
            &&& q.id_changes == p.id_changes
            &&& q.record.reviews == p.record.reviews
            &&& q.record.check_runs == p.record.check_runs
        }),
{
    delist::lemma_one_write(p.record, WriteView::UpdateListing { card });
}

/// What a card that the record did not know leaves of what was there, and
/// what it adds.
pub open spec fn is_addition(
    before: Seq<ListingView>,
    after: Seq<ListingView>,
    scraped: Seq<CardView>,
    date: Date,
    card: CardView,
) -> bool {
    &&& after.len() == before.len() + 1
    &&& forall|i: int|
        #![trigger after[i]]
        #![trigger before[i]]
        0 <= i < before.len() ==> {
            &&& steps::same_contents(before[i], after[i])
            &&& after[i].duplicate_of is None ==> before[i].duplicate_of is None
            &&& scraper::has_card(scraped, before[i].id()) ==> (after[i].duplicate_of is None
                <==> before[i].duplicate_of is None)
        }
    &&& after[before.len() as int].card == card
    &&& after[before.len() as int].first_seen == date
    &&& !after[before.len() as int].delisted
    &&& after[before.len() as int].delisted_date is None
    &&& after[before.len() as int].last_seen_check_run_id is None
}

pub(crate) proof fn lemma_inserted_effect(
    r: RecordView,
    scraped: Seq<CardView>,
    date: Date,
    card: CardView,
    duplicate_of: Option<Seq<char>>,
    note: Option<Seq<char>>,
)
    requires
        is_sound(r.listings),
        !record::has_listing(r.listings, card.id),
        duplicate_of is Some ==> is_representative(r.listings, duplicate_of->0),
    ensures
        ({
            let w = delist::inserted(card, date, duplicate_of, note);
            let after = record::apply_writes(r, seq![w]);
            &&& is_addition(r.listings, after.listings, scraped, date, card)
            &&& is_sound(after.listings)
            &&& after.listings[r.listings.len() as int] == steps::fresh_listing(
                card,
                date,
                duplicate_of,
                note,
            )
            &&& after.reviews == r.reviews
            &&& after.check_runs == r.check_runs
        }),
{
    let w = delist::inserted(card, date, duplicate_of, note);
    delist::lemma_one_write(r, w);
    let before = r.listings;
    let after = record::apply_writes(r, seq![w]).listings;
    let n = before.len() as int;
    assert(forall|i: int| #![trigger after[i]] #![trigger before[i]] 0 <= i < n ==> after[i] == before[i]);
    assert(record::is_allowed(r, w));
    record::lemma_write_keeps_distinct(r, w);
    assert forall|id: Seq<char>| #[trigger]
        is_representative(before, id) implies is_representative(after, id) by {
        let j = choose|j: int|
            0 <= j < n && (#[trigger] before[j]).id() == id && before[j].duplicate_of is None;
        assert(after[j].id() == id);
    }
    assert forall|i: int|
        0 <= i < after.len() && (#[trigger] after[i]).duplicate_of is Some implies is_representative(
        after,
        after[i].duplicate_of->0,
    ) by {
        if i < n {
            assert(before[i].duplicate_of is Some);
            assert(is_representative(before, before[i].duplicate_of->0));
        }
    }
}

pub(crate) proof fn lemma_id_change_sound(
    r: RecordView,
    scraped: Seq<CardView>,
    old: ListingView,
    card: CardView,
    date: Date,
)
    requires
        is_sound(r.listings),
        !record::has_listing(r.listings, card.id),
        exists|k: int| 0 <= k < r.listings.len() && r.listings[k] == old,
        !scraper::has_card(scraped, old.id()),
    ensures
        ({
            let after = record::apply_writes(r, delist::id_change(r, old, card, date));
            &&& is_addition(r.listings, after.listings, scraped, date, card)
            &&& is_sound(after.listings)
            &&& after.listings[r.listings.len() as int] == steps::fresh_listing(
                card,
                date,
                old.duplicate_of,
                Some(delist::id_change_note(old.id())),
            )
            &&& after.check_runs == r.check_runs
        }),
{
    steps::lemma_id_change_effect(r, old, card, date);
    let ws = delist::id_change(r, old, card, date);
    steps::lemma_check_runs_after_writes(r, ws);
    let before = r.listings;
    let after = record::apply_writes(r, ws).listings;
    let n = before.len() as int;
    let k = choose|k: int| 0 <= k < n && before[k] == old;
    if old.duplicate_of is Some {
        assert(is_representative(before, before[k].duplicate_of->0));
        let t = choose|t: int|
            0 <= t < n && (#[trigger] before[t]).id() == old.duplicate_of->0
                && before[t].duplicate_of is None;
        assert(before[t].id() != card.id);
    }
    assert forall|i: int| #![trigger before[i]] 0 <= i < n implies steps::same_contents(
        before[i],
        after[i],
    ) && after[i].duplicate_of == steps::place_after_id_change(before[i], old, card) by {
        assert(after[i] == after[i]);
    }
    assert(is_addition(before, after, scraped, date, card));
    assert forall|i: int, j: int|
        #![trigger after[i], after[j]]
        0 <= i < j < after.len() implies after[i].id() != after[j].id() by {
        assert(steps::same_contents(before[i], after[i]));
        if j < n {
            assert(steps::same_contents(before[j], after[j]));
            assert(before[i].id() != before[j].id());
        } else {
            assert(before[i].id() != card.id);
        }
    }
    assert forall|id: Seq<char>| #[trigger]
        is_representative(before, id) && id != old.id() implies is_representative(after, id) by {
        let j = choose|j: int|
            0 <= j < n && (#[trigger] before[j]).id() == id && before[j].duplicate_of is None;
        assert(steps::same_contents(before[j], after[j]));
        assert(after[j].id() == id);
    }
    if old.duplicate_of is None {
        assert(after[n].id() == card.id);
        assert(is_representative(after, card.id));
    }
    assert forall|i: int|
        0 <= i < after.len() && (#[trigger] after[i]).duplicate_of is Some implies is_representative(
        after,
        after[i].duplicate_of->0,
    ) by {
        let t = after[i].duplicate_of->0;
        if i < n {
            assert(after[i].duplicate_of == steps::place_after_id_change(before[i], old, card));
            if before[i].id() == old.id() {
                lemma_same_id(before, i, k);
                if old.duplicate_of is Some {
                    assert(is_representative(before, t));
                    lemma_not_own_duplicate(before, k);
                }
            } else if old.duplicate_of is None && before[i].duplicate_of == Some(old.id()) {
            } else {
                assert(is_representative(before, t));
                if t == old.id() {
                    let j = choose|j: int|
                        0 <= j < n && (#[trigger] before[j]).id() == t && before[j].duplicate_of is None;
                    lemma_same_id(before, j, k);
                }
            }
        } else {
            assert(is_representative(before, t));
            lemma_not_own_duplicate(before, k);
        }
    }
}

/// A duplicate is one of another listing.
pub(crate) proof fn lemma_not_own_duplicate(listings: Seq<ListingView>, k: int)
    requires
        is_sound(listings),
        0 <= k < listings.len(),
        listings[k].duplicate_of is Some,
    ensures
        listings[k].duplicate_of->0 != listings[k].id(),
{
    let t = listings[k].duplicate_of->0;
    assert(is_representative(listings, t));
    let j = choose|j: int|
        0 <= j < listings.len() && (#[trigger] listings[j]).id() == t && listings[j].duplicate_of is None;
    if t == listings[k].id() {
        lemma_same_id(listings, j, k);
    }
}

pub(crate) proof fn lemma_first_match_found(
    p: ProgressView,
    scraped: Seq<CardView>,
    card: CardView,
    present: bool,
)
    ensures
        ({
            let m = delist::first_match(p, scraped, delist::card_key(card), present);
            m is Some ==> delist::is_first_match(
                p,
                scraped,
                delist::card_key(card),
                present,
                m->0,
            )
        }),
{
}

/// The state after a card that the record did not know.
pub(crate) proof fn lemma_taken_new(
    p: ProgressView,
    scraped: Seq<CardView>,
    date: Date,
    card: CardView,
)
    requires
        is_sound(p.record.listings),
        !record::has_listing(p.record.listings, card.id),
    ensures
        ({
            let q = delist::taken(p, scraped, date, card);
            &&& is_addition(p.record.listings, q.record.listings, scraped, date, card)
            &&& is_sound(q.record.listings)
            &&& q.known == p.known.push(delist::card_key(card))
            &&& q.new_ids == p.new_ids.push(card.id)
            &&& q.record.check_runs == p.record.check_runs
            &&& delist::first_match(p, scraped, delist::card_key(card), true) is Some
                ==> q.record.listings[p.record.listings.len() as int].duplicate_of is Some
        }),
{
    let key = delist::card_key(card);
    lemma_first_match_found(p, scraped, card, true);
    lemma_first_match_found(p, scraped, card, false);
    match delist::first_match(p, scraped, key, true) {
        Some(i) => {
            let l = p.record.listings[i];
            assert(delist::is_match(p, scraped, key, true, i));
            if l.duplicate_of is None {
                assert(is_representative(p.record.listings, l.id()));
            }
            lemma_inserted_effect(p.record, scraped, date, card, Some(l.representative()), None);
        },
        None => match delist::first_match(p, scraped, key, false) {
            Some(i) => {
                let old = p.record.listings[i];
                assert(delist::is_match(p, scraped, key, false, i));
                lemma_id_change_sound(p.record, scraped, old, card, date);
            },
            None => {
                lemma_inserted_effect(p.record, scraped, date, card, None, None);
            },
        },
    }
}

pub(crate) proof fn lemma_update_sound(
    before: Seq<ListingView>,
    after: Seq<ListingView>,
    card: CardView,
)
    requires
        is_sound(before),
        after.len() == before.len(),
        forall|i: int|
            #![trigger after[i]]
            0 <= i < before.len() ==> after[i] == record::listing_after(
                before[i],
                WriteView::UpdateListing { card },
            ),
    ensures
        is_sound(after),
{
    assert forall|i: int, j: int|
        #![trigger after[i], after[j]]
        0 <= i < j < after.len() implies after[i].id() != after[j].id() by {
        assert(before[i].id() != before[j].id());
    }
    assert forall|i: int|
        0 <= i < after.len() && (#[trigger] after[i]).duplicate_of is Some implies is_representative(
        after,
        after[i].duplicate_of->0,
    ) by {
        let t = after[i].duplicate_of->0;
        assert(before[i].duplicate_of == Some(t));
        assert(is_representative(before, t));
        let j = choose|j: int|
            0 <= j < before.len() && (#[trigger] before[j]).id() == t
                && before[j].duplicate_of is None;
        assert(after[j].id() == t);
    }
}

pub(crate) proof fn lemma_all_taken_sound(
    p: ProgressView,
    scraped: Seq<CardView>,
    date: Date,
    cards: Seq<CardView>,
)
    requires
        is_sound(p.record.listings),
    ensures
        is_sound(delist::all_taken(p, scraped, date, cards).record.listings),
    decreases cards.len(),
{
    if cards.len() > 0 {
        lemma_all_taken_sound(p, scraped, date, cards.drop_last());
        let q = delist::all_taken(p, scraped, date, cards.drop_last());
        let card = cards.last();
        let s = delist::taken(q, scraped, date, card);
        if record::has_listing(q.record.listings, card.id) {
            lemma_taken_known(q, scraped, date, card);
            lemma_update_sound(q.record.listings, s.record.listings, card);
        } else {
            lemma_taken_new(q, scraped, date, card);
        }
    }
}

/// A round keeps ids unique and every duplicate one of a representative.
pub proof fn law_round_keeps_record_sound(r: RecordView, date: Date, scraped: Seq<CardView>)
    requires
        is_sound(r.listings),
    ensures
        is_sound(delist::settled(r, date, scraped).record.listings),
{
    lemma_matched_sound(r, date, scraped);
    let before = delist::matched(r, date, scraped).record.listings;
    let after = delist::settled(r, date, scraped).record.listings;
    steps::lemma_lengths(r, date, scraped);
    assert forall|i: int| #![trigger after[i]] 0 <= i < before.len() implies after[i].id()
        == before[i].id() && after[i].duplicate_of == before[i].duplicate_of by {
        lemma_settled_listing(r, date, scraped, i);
    }
    assert forall|i: int, j: int|
        #![trigger after[i], after[j]]
        0 <= i < j < after.len() implies after[i].id() != after[j].id() by {
        assert(before[i].id() != before[j].id());
    }
    assert forall|i: int|
        0 <= i < after.len() && (#[trigger] after[i]).duplicate_of is Some implies is_representative(
        after,
        after[i].duplicate_of->0,
    ) by {
        let t = after[i].duplicate_of->0;
        assert(before[i].duplicate_of == Some(t));
        assert(is_representative(before, t));
        let j = choose|j: int|
            0 <= j < before.len() && (#[trigger] before[j]).id() == t
                && before[j].duplicate_of is None;
        assert(after[j].id() == t);
    }
}

pub(crate) proof fn lemma_matched_sound(r: RecordView, date: Date, scraped: Seq<CardView>)
    requires
        is_sound(r.listings),
    ensures
        is_sound(delist::matched(r, date, scraped).record.listings),
        is_sound(
            delist::all_succeeded(
                delist::started(r),
                scraped,
                delist::representatives(r.listings),
            ).record.listings,
        ),
{
    let start = delist::started(r);
    let reps = delist::representatives(r.listings);
    lemma_representatives(r.listings);
    lemma_all_succeeded_sound(start, scraped, reps);
    lemma_all_taken_sound(delist::all_succeeded(start, scraped, reps), scraped, date, scraped);
}

// ---------------------------------------------------------------------------
// Off the market and on it again
// ---------------------------------------------------------------------------

pub(crate) proof fn lemma_delisted_by(l: ListingView, ids: Seq<Seq<char>>, date: Date)
    ensures
        steps::listing_after_all(l, delist::delist_writes(ids, date)) == (if ids.contains(l.id()) {
            ListingView { delisted: true, delisted_date: Some(date), ..l }
        } else {
            l
        }),
    decreases ids.len(),
{
    let ws = delist::delist_writes(ids, date);
    if ids.len() > 0 {
        let front = ids.drop_last();
        assert(ws.drop_last() =~= delist::delist_writes(front, date));
        lemma_delisted_by(l, front, date);
        assert(ids[ids.len() - 1] == ids.last());
        if ids.contains(l.id()) {
            let i = ids.index_of(l.id());
            if i < front.len() {
                assert(front[i] == l.id());
            }
        }
        if front.contains(l.id()) {
            let i = front.index_of(l.id());
            assert(ids[i] == l.id());
        }
    }
}

pub(crate) proof fn lemma_relisted_by(l: ListingView, ids: Seq<Seq<char>>)
    ensures
        steps::listing_after_all(l, delist::relist_writes(ids)) == (if ids.contains(l.id()) {
            ListingView { delisted: false, delisted_date: None, ..l }
        } else {
            l
        }),
    decreases ids.len(),
{
    let ws = delist::relist_writes(ids);
    if ids.len() > 0 {
        let front = ids.drop_last();
        assert(ws.drop_last() =~= delist::relist_writes(front));
        lemma_relisted_by(l, front);
        assert(ids[ids.len() - 1] == ids.last());
        if ids.contains(l.id()) {
            let i = ids.index_of(l.id());
            if i < front.len() {
                assert(front[i] == l.id());
            }
        }
        if front.contains(l.id()) {
            let i = front.index_of(l.id());
            assert(ids[i] == l.id());
        }
    }
}

/// What the end of a round makes of a listing.
pub(crate) proof fn lemma_settled_listing(r: RecordView, date: Date, scraped: Seq<CardView>, i: int)
    requires
        record::distinct_ids(delist::matched(r, date, scraped).record.listings),
        0 <= i < delist::matched(r, date, scraped).record.listings.len(),
    ensures
        ({
            let p = delist::matched(r, date, scraped).record;
            let l = p.listings[i];
            delist::settled(r, date, scraped).record.listings[i] == (if delist::is_gone(
                p,
                scraped,
                l,
            ) {
                ListingView { delisted: true, delisted_date: Some(date), ..l }
            } else if delist::is_back(p, scraped, l) {
                ListingView { delisted: false, delisted_date: None, ..l }
            } else {
                l
            })
        }),
{
    let p = delist::matched(r, date, scraped).record;
    let l = p.listings[i];
    let out = delist::ids_where(p.listings, delist::gone(p, scraped));
    let again = delist::ids_where(p.listings, delist::back(p, scraped));
    let ws = delist::delist_writes(out, date) + delist::relist_writes(again);
    steps::lemma_listing_after_writes(p, ws, i);
    steps::lemma_listing_after_add(l, delist::delist_writes(out, date), delist::relist_writes(again));
    lemma_delisted_by(l, out, date);
    lemma_relisted_by(l, again);
    lemma_relisted_by(ListingView { delisted: true, delisted_date: Some(date), ..l }, again);
    lemma_selected(p.listings, delist::gone(p, scraped), i);
    lemma_selected(p.listings, delist::back(p, scraped), i);
}

/// An id is selected where its listing is.
pub(crate) proof fn lemma_selected(
    listings: Seq<ListingView>,
    keep: spec_fn(ListingView) -> bool, i: int,
)
    requires
        record::distinct_ids(listings),
        0 <= i < listings.len(),
    ensures
        delist::ids_where(listings, keep).contains(listings[i].id()) <==> keep(listings[i]),
{
    lemma_ids_where(listings, keep);
    let ids = delist::ids_where(listings, keep);
    if ids.contains(listings[i].id()) {
        let j = choose|j: int|
            0 <= j < listings.len() && keep(#[trigger] listings[j]) && listings[j].id()
                == listings[i].id();
        lemma_same_id(listings, i, j);
    }
}

/// What matching cards with listings leaves of a listing that was there.
pub open spec fn is_carried_over(scraped: Seq<CardView>, l: ListingView, m: ListingView) -> bool {
    &&& m.id() == l.id()
    &&& m.first_seen == l.first_seen
    &&& m.last_seen_check_run_id == l.last_seen_check_run_id
    &&& m.delisted ==> l.delisted
    &&& !scraper::has_card(scraped, l.id()) ==> steps::same_contents(l, m)
}

pub(crate) proof fn lemma_all_succeeded_carries(
    p: ProgressView,
    scraped: Seq<CardView>,
    reps: Seq<Seq<char>>,
    i: int,
)
    requires
        0 <= i < p.record.listings.len(),
    ensures
        ({
            let q = delist::all_succeeded(p, scraped, reps);
            &&& q.record.listings.len() == p.record.listings.len()
            &&& steps::same_contents(p.record.listings[i], q.record.listings[i])
            &&& q.record.check_runs == p.record.check_runs
        }),
    decreases reps.len(),
{
    if reps.len() > 0 {
        lemma_all_succeeded_carries(p, scraped, reps.drop_last(), i);
        let q = delist::all_succeeded(p, scraped, reps.drop_last());
        let rep = reps.last();
        if !scraper::has_card(scraped, rep) {
            match delist::successor(q.record.listings, scraped, rep) {
                Some(new_id) => {
                    steps::lemma_hand_over_effect(q.record, rep, new_id, i);
                    steps::lemma_check_runs_after_writes(
                        q.record,
                        delist::hand_over(q.record, rep, new_id),
                    );
                },
                None => {},
            }
        }
    }
}

pub(crate) proof fn lemma_all_taken_carries(
    p: ProgressView,
    scraped: Seq<CardView>,
    date: Date,
    cards: Seq<CardView>,
    i: int,
)
    requires
        is_sound(p.record.listings),
        forall|k: int|
            0 <= k < cards.len() ==> scraper::has_card(scraped, (#[trigger] cards[k]).id),
        0 <= i < p.record.listings.len(),
    ensures
        ({
            let q = delist::all_taken(p, scraped, date, cards);
            &&& i < q.record.listings.len()
            &&& is_carried_over(scraped, p.record.listings[i], q.record.listings[i])
            &&& q.record.check_runs == p.record.check_runs
        }),
    decreases cards.len(),
{
    if cards.len() > 0 {
        let front = cards.drop_last();
        let card = cards.last();
        assert(cards[cards.len() - 1] == card);
        assert forall|k: int| 0 <= k < front.len() implies scraper::has_card(
            scraped,
            (#[trigger] front[k]).id,
        ) by {
            assert(front[k] == cards[k]);
        }
        lemma_all_taken_carries(p, scraped, date, front, i);
        lemma_all_taken_sound(p, scraped, date, front);
        let q = delist::all_taken(p, scraped, date, front);
        let s = delist::taken(q, scraped, date, card);
        if record::has_listing(q.record.listings, card.id) {
            lemma_taken_known(q, scraped, date, card);
            assert(s.record.listings[i].id() == q.record.listings[i].id());
        } else {
            lemma_taken_new(q, scraped, date, card);
            assert(steps::same_contents(q.record.listings[i], s.record.listings[i]));
        }
    }
}

pub(crate) proof fn lemma_own_cards(scraped: Seq<CardView>)
    ensures
        forall|k: int|
            0 <= k < scraped.len() ==> scraper::has_card(scraped, (#[trigger] scraped[k]).id),
{
}

pub(crate) proof fn lemma_matched_carries(r: RecordView, date: Date, scraped: Seq<CardView>, i: int)
    requires
        is_sound(r.listings),
        0 <= i < r.listings.len(),
    ensures
        ({
            let p = delist::matched(r, date, scraped);
            &&& i < p.record.listings.len()
            &&& is_carried_over(scraped, r.listings[i], p.record.listings[i])
            &&& p.record.check_runs == r.check_runs
        }),
{
    let start = delist::started(r);
    let reps = delist::representatives(r.listings);
    lemma_matched_sound(r, date, scraped);
    lemma_all_succeeded_carries(start, scraped, reps, i);
    lemma_own_cards(scraped);
    lemma_all_taken_carries(
        delist::all_succeeded(start, scraped, reps),
        scraped,
        date,
        scraped,
        i,
    );
}

/// No listing is lost: each keeps its place, its id and the day it was first
/// seen, and when it was last seen before the round.
pub proof fn law_no_listing_is_lost(r: RecordView, date: Date, scraped: Seq<CardView>, i: int)
    requires
        is_sound(r.listings),
        0 <= i < r.listings.len(),
    ensures
        ({
            let end = delist::settled(r, date, scraped).record.listings;
            &&& i < end.len()
            &&& end[i].id() == r.listings[i].id()
            &&& end[i].first_seen == r.listings[i].first_seen
            &&& end[i].last_seen_check_run_id == r.listings[i].last_seen_check_run_id
        }),
{
    lemma_matched_sound(r, date, scraped);
    lemma_matched_carries(r, date, scraped, i);
    lemma_settled_listing(r, date, scraped, i);
    steps::lemma_lengths(r, date, scraped);
}

/// A household one of whose listings was found is on the market after the
/// round.
pub proof fn law_found_household_is_on_the_market(
    r: RecordView,
    date: Date,
    scraped: Seq<CardView>,
    i: int,
)
    requires
        is_sound(r.listings),
        0 <= i < delist::settled(r, date, scraped).record.listings.len(),
        ({
            let end = delist::settled(r, date, scraped).record.listings;
            end[i].duplicate_of is None && delist::is_household_seen(end, scraped, end[i].id())
        }),
    ensures
        !delist::settled(r, date, scraped).record.listings[i].delisted,
{
    lemma_matched_sound(r, date, scraped);
    steps::lemma_lengths(r, date, scraped);
    let p = delist::matched(r, date, scraped).record;
    let end = delist::settled(r, date, scraped).record.listings;
    lemma_settled_listing(r, date, scraped, i);
    let j = choose|j: int|
        0 <= j < end.len() && (#[trigger] end[j]).representative() == end[i].id()
            && scraper::has_card(scraped, end[j].id());
    lemma_settled_listing(r, date, scraped, j);
    assert(p.listings[j].representative() == p.listings[i].id());
    assert(delist::is_household_seen(p.listings, scraped, p.listings[i].id()));
}

/// A listing that a round takes off the market was not found in it, and was
/// missing from the round before.
pub proof fn law_delisting_takes_two_misses(
    r: RecordView,
    date: Date,
    scraped: Seq<CardView>,
    i: int,
)
    requires
        is_sound(r.listings),
        0 <= i < r.listings.len(),
        !r.listings[i].delisted,
        delist::settled(r, date, scraped).record.listings[i].delisted,
    ensures
        !scraper::has_card(scraped, r.listings[i].id()),
        delist::missed_last_time(
            r.listings[i].last_seen_check_run_id,
            record::latest_run(r.check_runs),
        ),
        delist::settled(r, date, scraped).record.listings[i].duplicate_of is None,
        delist::settled(r, date, scraped).record.listings[i].delisted_date == Some(date),
{
    lemma_matched_sound(r, date, scraped);
    lemma_matched_carries(r, date, scraped, i);
    lemma_settled_listing(r, date, scraped, i);
    let p = delist::matched(r, date, scraped).record;
    if scraper::has_card(scraped, r.listings[i].id()) {
        assert(p.listings[i].representative() == p.listings[i].id());
        assert(delist::is_household_seen(p.listings, scraped, p.listings[i].id()));
    }
}

/// A household none of whose listings was found in a round, and whose
/// representative was missing from the round before, is off the market.
pub proof fn law_two_misses_delist(r: RecordView, date: Date, scraped: Seq<CardView>, i: int)
    requires
        is_sound(r.listings),
        0 <= i < r.listings.len(),
        delist::settled(r, date, scraped).record.listings[i].duplicate_of is None,
        !delist::is_household_seen(
            delist::settled(r, date, scraped).record.listings,
            scraped,
            r.listings[i].id(),
        ),
        delist::missed_last_time(
            r.listings[i].last_seen_check_run_id,
            record::latest_run(r.check_runs),
        ),
    ensures
        delist::settled(r, date, scraped).record.listings[i].delisted,
{
    lemma_matched_sound(r, date, scraped);
    lemma_matched_carries(r, date, scraped, i);
    lemma_settled_listing(r, date, scraped, i);
    steps::lemma_lengths(r, date, scraped);
    let p = delist::matched(r, date, scraped).record;
    let end = delist::settled(r, date, scraped).record.listings;
    if delist::is_household_seen(p.listings, scraped, p.listings[i].id()) {
        let j = choose|j: int|
            0 <= j < p.listings.len() && (#[trigger] p.listings[j]).representative()
                == p.listings[i].id() && scraper::has_card(scraped, p.listings[j].id());
        lemma_settled_listing(r, date, scraped, j);
        assert(end[j].representative() == r.listings[i].id());
    }
}

/// The first round takes nothing off the market.
pub proof fn law_first_round_delists_nothing(r: RecordView, date: Date, scraped: Seq<CardView>)
    requires
        is_sound(r.listings),
        r.check_runs.len() == 0,
    ensures
        delist::reconciled(r, date, scraped).delisted_ids.len() == 0,
        forall|i: int|
            0 <= i < r.listings.len() && !(#[trigger] r.listings[i]).delisted ==> !delist::settled(
                r,
                date,
                scraped,
            ).record.listings[i].delisted,
{
    assert(record::is_latest_run(r.check_runs, None));
    record::lemma_latest_run_unique(r.check_runs, None, record::latest_run(r.check_runs));
    let p = delist::matched(r, date, scraped).record;
    steps::lemma_writes_lead_to_record(r, date, scraped);
    steps::lemma_check_runs_after_writes(r, delist::matched(r, date, scraped).writes);
    let ids = delist::ids_where(p.listings, delist::gone(p, scraped));
    lemma_ids_where(p.listings, delist::gone(p, scraped));
    if ids.len() > 0 {
        assert(ids.contains(ids[0]));
    }
    assert forall|i: int|
        0 <= i < r.listings.len() && !(#[trigger] r.listings[i]).delisted implies !delist::settled(
        r,
        date,
        scraped,
    ).record.listings[i].delisted by {
        if delist::settled(r, date, scraped).record.listings[i].delisted {
            law_delisting_takes_two_misses(r, date, scraped, i);
        }
    }
}

// ---------------------------------------------------------------------------
// Every card of the round is in the record
// ---------------------------------------------------------------------------

/// No later card has the id of the one at `m`.
pub open spec fn is_last_of_id(cards: Seq<CardView>, m: int) -> bool {
    &&& 0 <= m < cards.len()
    &&& forall|k: int| m < k < cards.len() ==> (#[trigger] cards[k]).id != cards[m].id
}

/// No earlier card has the id of the one at `m`.
pub open spec fn is_first_of_id(cards: Seq<CardView>, m: int) -> bool {
    &&& 0 <= m < cards.len()
    &&& forall|k: int| 0 <= k < m ==> (#[trigger] cards[k]).id != cards[m].id
}

/// A listing on the market holds the card's contents.
pub open spec fn holds_card(listings: Seq<ListingView>, card: CardView) -> bool {
    exists|k: int|
        0 <= k < listings.len() && (#[trigger] listings[k]).card == card && !listings[k].delisted
}

pub(crate) proof fn lemma_all_taken_holds(
    p: ProgressView,
    scraped: Seq<CardView>,
    date: Date,
    cards: Seq<CardView>,
    m: int,
)
    requires
        is_sound(p.record.listings),
        is_last_of_id(cards, m),
    ensures
        holds_card(delist::all_taken(p, scraped, date, cards).record.listings, cards[m]),
    decreases cards.len(),
{
    let front = cards.drop_last();
    let card = cards.last();
    lemma_all_taken_sound(p, scraped, date, front);
    let q = delist::all_taken(p, scraped, date, front);
    let s = delist::taken(q, scraped, date, card);
    let known = record::has_listing(q.record.listings, card.id);
    if known {
        lemma_taken_known(q, scraped, date, card);
    } else {
        lemma_taken_new(q, scraped, date, card);
    }
    if m == cards.len() - 1 {
        if known {
            let k = choose|k: int|
                0 <= k < q.record.listings.len() && #[trigger] q.record.listings[k].id() == card.id;
            assert(s.record.listings[k].card == card);
        } else {
            assert(s.record.listings[q.record.listings.len() as int].card == card);
        }
    } else {
        assert(cards[cards.len() - 1].id != cards[m].id);
        assert forall|k: int| m < k < front.len() implies (#[trigger] front[k]).id
            != front[m].id by {
            assert(cards[k].id != cards[m].id);
        }
        lemma_all_taken_holds(p, scraped, date, front, m);
        let k = choose|k: int|
            0 <= k < q.record.listings.len() && (#[trigger] q.record.listings[k]).card == front[m]
                && !q.record.listings[k].delisted;
        if !known {
            assert(steps::same_contents(q.record.listings[k], s.record.listings[k]));
        }
        assert(s.record.listings[k].card == cards[m]);
    }
}

/// After a round the record holds every card that was found, with the contents
/// that were found last, on the market.
pub proof fn law_every_card_is_in_the_record(
    r: RecordView,
    date: Date,
    scraped: Seq<CardView>,
    m: int,
)
    requires
        is_sound(r.listings),
        is_last_of_id(scraped, m),
    ensures
        holds_card(delist::settled(r, date, scraped).record.listings, scraped[m]),
{
    lemma_matched_sound(r, date, scraped);
    steps::lemma_lengths(r, date, scraped);
    lemma_all_taken_holds(
        delist::all_succeeded(
            delist::started(r),
            scraped,
            delist::representatives(r.listings),
        ),
        scraped,
        date,
        scraped,
        m,
    );
    let p = delist::matched(r, date, scraped).record;
    let end = delist::settled(r, date, scraped).record.listings;
    let k = choose|k: int|
        0 <= k < p.listings.len() && (#[trigger] p.listings[k]).card == scraped[m]
            && !p.listings[k].delisted;
    lemma_settled_listing(r, date, scraped, k);
    assert(scraper::has_card(scraped, scraped[m].id));
    if p.listings[k].duplicate_of is None {
        assert(p.listings[k].representative() == p.listings[k].id());
        assert(delist::is_household_seen(p.listings, scraped, p.listings[k].id()));
    }
    assert(end[k].card == scraped[m]);
}

/// What the ids of a list of cards are new to.
pub open spec fn is_new_id(
    listings: Seq<ListingView>,
    cards: Seq<CardView>,
    id: Seq<char>,
) -> bool {
    scraper::has_card(cards, id) && !record::has_listing(listings, id)
}

pub(crate) proof fn lemma_all_taken_new_ids(
    p: ProgressView,
    scraped: Seq<CardView>,
    date: Date,
    cards: Seq<CardView>,
)
    requires
        is_sound(p.record.listings),
        p.new_ids.len() == 0,
    ensures
        ({
            let q = delist::all_taken(p, scraped, date, cards);
            &&& q.new_ids.no_duplicates()
            &&& forall|id: Seq<char>| #[trigger]
                q.new_ids.contains(id) <==> is_new_id(p.record.listings, cards, id)
            &&& forall|id: Seq<char>| #[trigger]
                record::has_listing(q.record.listings, id) <==> record::has_listing(
                    p.record.listings,
                    id,
                ) || scraper::has_card(cards, id)
        }),
    decreases cards.len(),
{
    let q = delist::all_taken(p, scraped, date, cards);
    if cards.len() > 0 {
        let front = cards.drop_last();
        let card = cards.last();
        let before = delist::all_taken(p, scraped, date, front);
        let a = before.record.listings;
        let b = q.record.listings;
        lemma_all_taken_new_ids(p, scraped, date, front);
        lemma_all_taken_sound(p, scraped, date, front);
        let known = record::has_listing(a, card.id);
        if known {
            lemma_taken_known(before, scraped, date, card);
        } else {
            lemma_taken_new(before, scraped, date, card);
        }
        assert forall|id: Seq<char>| #[trigger]
            record::has_listing(b, id) <==> record::has_listing(a, id) || id == card.id by {
            if record::has_listing(a, id) {
                let k = choose|k: int| 0 <= k < a.len() && #[trigger] a[k].id() == id;
                if !known {
                    assert(steps::same_contents(a[k], b[k]));
                }
                assert(b[k].id() == id);
            }
            if id == card.id && !known {
                assert(b[a.len() as int].id() == id);
            }
            if record::has_listing(b, id) {
                let k = choose|k: int| 0 <= k < b.len() && #[trigger] b[k].id() == id;
                if k < a.len() {
                    if !known {
                        assert(steps::same_contents(a[k], b[k]));
                    }
                    assert(a[k].id() == id);
                }
            }
        }
        assert forall|id: Seq<char>| #[trigger]
            scraper::has_card(cards, id) <==> scraper::has_card(front, id) || id == card.id by {
            if scraper::has_card(front, id) {
                let k = choose|k: int| 0 <= k < front.len() && (#[trigger] front[k]).id == id;
                assert(cards[k].id == id);
            }
            assert(cards[cards.len() - 1] == card);
            if scraper::has_card(cards, id) {
                let k = choose|k: int| 0 <= k < cards.len() && (#[trigger] cards[k]).id == id;
                if k < front.len() {
                    assert(front[k].id == id);
                }
            }
        }
        if known {
            assert forall|id: Seq<char>| #[trigger]
                q.new_ids.contains(id) <==> is_new_id(p.record.listings, cards, id) by {
                assert(before.new_ids.contains(id) <==> is_new_id(p.record.listings, front, id));
                assert(scraper::has_card(cards, id) <==> scraper::has_card(front, id) || id
                    == card.id);
                assert(record::has_listing(a, card.id));
            }
        } else {
            let ids = before.new_ids;
            assert(!ids.contains(card.id));
            assert forall|id: Seq<char>| #[trigger]
                q.new_ids.contains(id) <==> is_new_id(p.record.listings, cards, id) by {
                assert(ids.contains(id) <==> is_new_id(p.record.listings, front, id));
                assert(scraper::has_card(cards, id) <==> scraper::has_card(front, id) || id
                    == card.id);
                if ids.contains(id) {
                    let k = ids.index_of(id);
                    assert(q.new_ids[k] == id);
                }
                if id == card.id {
                    assert(q.new_ids[ids.len() as int] == id);
                }
                if q.new_ids.contains(id) {
                    let k = q.new_ids.index_of(id);
                    if k < ids.len() {
                        assert(ids[k] == id);
                    }
                }
            }
            assert forall|i: int, j: int|
                0 <= i < q.new_ids.len() && 0 <= j < q.new_ids.len() && i
                    != j implies q.new_ids[i] != q.new_ids[j] by {
                if i < ids.len() {
                    assert(ids.contains(ids[i]));
                }
                if j < ids.len() {
                    assert(ids.contains(ids[j]));
                }
            }
        }
    } else {
        assert forall|id: Seq<char>| #[trigger] q.new_ids.contains(id) <==> is_new_id(
            p.record.listings,
            cards,
            id,
        ) by {}
    }
}

/// The ids reported as new are those found that the record did not know, each
/// once.
pub proof fn law_new_ids(r: RecordView, date: Date, scraped: Seq<CardView>)
    requires
        is_sound(r.listings),
    ensures
        delist::reconciled(r, date, scraped).new_ids.no_duplicates(),
        forall|id: Seq<char>| #[trigger]
            delist::reconciled(r, date, scraped).new_ids.contains(id) <==> is_new_id(
                r.listings,
                scraped,
                id,
            ),
        forall|id: Seq<char>| #[trigger]
            record::has_listing(delist::settled(r, date, scraped).record.listings, id)
                <==> record::has_listing(r.listings, id) || scraper::has_card(scraped, id),
{
    let start = delist::started(r);
    let reps = delist::representatives(r.listings);
    let q = delist::all_succeeded(start, scraped, reps);
    lemma_matched_sound(r, date, scraped);
    steps::lemma_all_succeeded_shape(start, scraped, reps);
    lemma_all_taken_new_ids(q, scraped, date, scraped);
    assert forall|id: Seq<char>| #[trigger]
        record::has_listing(q.record.listings, id) <==> record::has_listing(r.listings, id) by {
        if record::has_listing(q.record.listings, id) {
            let k = choose|k: int|
                0 <= k < q.record.listings.len() && #[trigger] q.record.listings[k].id() == id;
            lemma_all_succeeded_carries(start, scraped, reps, k);
            assert(r.listings[k].id() == id);
        }
        if record::has_listing(r.listings, id) {
            let k = choose|k: int| 0 <= k < r.listings.len() && #[trigger] r.listings[k].id() == id;
            lemma_all_succeeded_carries(start, scraped, reps, k);
            assert(q.record.listings[k].id() == id);
        }
    }
    let p = delist::matched(r, date, scraped).record.listings;
    let end = delist::settled(r, date, scraped).record.listings;
    steps::lemma_lengths(r, date, scraped);
    assert forall|id: Seq<char>| #[trigger]
        record::has_listing(end, id) <==> record::has_listing(r.listings, id) || scraper::has_card(
            scraped,
            id,
        ) by {
        assert(record::has_listing(p, id) <==> record::has_listing(q.record.listings, id)
            || scraper::has_card(scraped, id));
        if record::has_listing(end, id) {
            let k = choose|k: int| 0 <= k < end.len() && #[trigger] end[k].id() == id;
            lemma_settled_listing(r, date, scraped, k);
            assert(p[k].id() == id);
        }
        if record::has_listing(p, id) {
            let k = choose|k: int| 0 <= k < p.len() && #[trigger] p[k].id() == id;
            lemma_settled_listing(r, date, scraped, k);
            assert(end[k].id() == id);
        }
    }
}

/// Looking again at the same cards finds nothing new.
pub proof fn law_second_look_finds_nothing_new(
    r: RecordView,
    date: Date,
    scraped: Seq<CardView>,
    again: Date,
)
    requires
        is_sound(r.listings),
    ensures
        delist::reconciled(delist::settled(r, date, scraped).record, again, scraped).new_ids.len()
            == 0,
{
    let end = delist::settled(r, date, scraped).record;
    law_round_keeps_record_sound(r, date, scraped);
    law_new_ids(r, date, scraped);
    law_new_ids(end, again, scraped);
    let ids = delist::reconciled(end, again, scraped).new_ids;
    if ids.len() > 0 {
        assert(ids.contains(ids[0]));
        assert(is_new_id(end.listings, scraped, ids[0]));
        assert(record::has_listing(end.listings, ids[0]));
    }
}

/// The ids reported as gone are those of the listings that were on the market
/// before the round and are off it after, each once.
pub proof fn law_reported_delistings(r: RecordView, date: Date, scraped: Seq<CardView>)
    requires
        is_sound(r.listings),
    ensures
        delist::reconciled(r, date, scraped).delisted_ids.no_duplicates(),
        forall|id: Seq<char>| #[trigger]
            delist::reconciled(r, date, scraped).delisted_ids.contains(id) ==> record::has_listing(
                r.listings,
                id,
            ),
        forall|i: int|
            0 <= i < r.listings.len() ==> (delist::reconciled(r, date, scraped).delisted_ids.contains(
                (#[trigger] r.listings[i]).id(),
            ) <==> !r.listings[i].delisted && delist::settled(
                r,
                date,
                scraped,
            ).record.listings[i].delisted),
{
    lemma_matched_sound(r, date, scraped);
    let p = delist::matched(r, date, scraped).record;
    let ids = delist::ids_where(p.listings, delist::gone(p, scraped));
    lemma_ids_where(p.listings, delist::gone(p, scraped));
    assert forall|i: int| 0 <= i < r.listings.len() implies (ids.contains(
        (#[trigger] r.listings[i]).id(),
    ) <==> !r.listings[i].delisted && delist::settled(
        r,
        date,
        scraped,
    ).record.listings[i].delisted) by {
        lemma_matched_carries(r, date, scraped, i);
        lemma_settled_listing(r, date, scraped, i);
        lemma_selected(p.listings, delist::gone(p, scraped), i);
        let l = p.listings[i];
        if scraper::has_card(scraped, l.id()) && l.duplicate_of is None {
            assert(l.representative() == l.id());
            assert(delist::is_household_seen(p.listings, scraped, l.id()));
        }
    }
    law_new_ids(r, date, scraped);
    assert forall|id: Seq<char>| #[trigger] ids.contains(id) implies record::has_listing(
        r.listings,
        id,
    ) by {
        let i = choose|i: int|
            0 <= i < p.listings.len() && delist::gone(p, scraped)(#[trigger] p.listings[i])
                && p.listings[i].id() == id;
        let l = p.listings[i];
        let end = delist::settled(r, date, scraped).record.listings;
        steps::lemma_lengths(r, date, scraped);
        lemma_settled_listing(r, date, scraped, i);
        assert(end[i].id() == id);
        assert(record::has_listing(end, id));
        if scraper::has_card(scraped, id) {
            assert(l.representative() == id);
            assert(delist::is_household_seen(p.listings, scraped, id));
        }
    }
}

} // verus!

//! What a round does to households.

use crate::date::Date;
use crate::db::models::ListingView;
use crate::db::record;
use crate::db::record::RecordView;
use crate::dedup;
use crate::dedup::HouseholdView;
use crate::delist;
use crate::delist::{laws, steps, ProgressView};
use crate::scraper;
use crate::scraper::CardView;
use vstd::prelude::*;

verus! {

// ---------------------------------------------------------------------------
// Households
// ---------------------------------------------------------------------------

/// A household goes to its new representative as a whole.
pub(crate) proof fn lemma_hand_over_moves_household(
    r: RecordView,
    old_id: Seq<char>,
    new_id: Seq<char>,
    i: int,
)
    requires
        laws::is_sound(r.listings),
        0 <= i < r.listings.len(),
        laws::is_representative(r.listings, old_id),
        exists|k: int|
            0 <= k < r.listings.len() && (#[trigger] r.listings[k]).id() == new_id
                && r.listings[k].duplicate_of == Some(old_id),
    ensures
        record::apply_writes(r, delist::hand_over(r, old_id, new_id)).listings[i].representative()
            == (if r.listings[i].representative() == old_id {
            new_id
        } else {
            r.listings[i].representative()
        }),
{
    let before = r.listings;
    let k = choose|k: int|
        0 <= k < before.len() && (#[trigger] before[k]).id() == new_id && before[k].duplicate_of
            == Some(old_id);
    let o = choose|o: int|
        0 <= o < before.len() && (#[trigger] before[o]).id() == old_id
            && before[o].duplicate_of is None;
    steps::lemma_hand_over_effect(r, old_id, new_id, i);
    if before[i].id() == new_id {
        laws::lemma_same_id(before, i, k);
    }
    if before[i].id() == old_id {
        laws::lemma_same_id(before, i, o);
    }
}

/// A household goes to the card that takes over its representative's part.
pub(crate) proof fn lemma_id_change_moves_household(
    r: RecordView,
    old: ListingView,
    card: CardView,
    date: Date,
    i: int,
)
    requires
        laws::is_sound(r.listings),
        !record::has_listing(r.listings, card.id),
        exists|k: int| 0 <= k < r.listings.len() && r.listings[k] == old,
        0 <= i < r.listings.len(),
    ensures
        record::apply_writes(
            r,
            delist::id_change(r, old, card, date),
        ).listings[i].representative() == (if old.duplicate_of is None
            && r.listings[i].representative() == old.id() {
            card.id
        } else {
            r.listings[i].representative()
        }),
{
    steps::lemma_id_change_effect(r, old, card, date);
    let before = r.listings;
    let after = record::apply_writes(r, delist::id_change(r, old, card, date)).listings;
    let k = choose|k: int| 0 <= k < before.len() && before[k] == old;
    assert(steps::same_contents(before[i], after[i]));
    if before[i].id() == old.id() {
        laws::lemma_same_id(before, i, k);
    }
}

/// Two listings have one representative.
pub open spec fn is_one_household(listings: Seq<ListingView>, a: Seq<char>, b: Seq<char>) -> bool {
    exists|i: int, j: int|
        #![trigger listings[i], listings[j]]
        0 <= i < listings.len() && 0 <= j < listings.len() && listings[i].id() == a
            && listings[j].id() == b && listings[i].representative()
            == listings[j].representative()
}

/// Whatever is one household before is one after.
pub open spec fn keeps_households(before: Seq<ListingView>, after: Seq<ListingView>) -> bool {
    forall|a: Seq<char>, b: Seq<char>| #[trigger]
        is_one_household(before, a, b) ==> is_one_household(after, a, b)
}

pub(crate) proof fn lemma_keeps_households(before: Seq<ListingView>, after: Seq<ListingView>)
    requires
        before.len() <= after.len(),
        forall|i: int| 0 <= i < before.len() ==> (#[trigger] after[i]).id() == before[i].id(),
        forall|i: int, j: int|
            #![trigger after[i], after[j]]
            0 <= i < before.len() && 0 <= j < before.len() && before[i].representative()
                == before[j].representative() ==> after[i].representative()
                == after[j].representative(),
    ensures
        keeps_households(before, after),
{
    assert forall|a: Seq<char>, b: Seq<char>| #[trigger]
        is_one_household(before, a, b) implies is_one_household(after, a, b) by {
        let (i, j) = choose|i: int, j: int|
            #![trigger before[i], before[j]]
            0 <= i < before.len() && 0 <= j < before.len() && before[i].id() == a
                && before[j].id() == b && before[i].representative() == before[j].representative();
        assert(after[i].id() == a && after[j].id() == b);
    }
}

/// The pairs of ids that changed are each one household.
pub open spec fn changes_are_households(p: ProgressView) -> bool {
    forall|k: int|
        0 <= k < p.id_changes.len() ==> is_one_household(
            p.record.listings,
            (#[trigger] p.id_changes[k]).0,
            p.id_changes[k].1,
        )
}

pub(crate) proof fn lemma_succeeded_households(
    p: ProgressView,
    scraped: Seq<CardView>,
    rep: Seq<char>,
)
    requires
        laws::is_sound(p.record.listings),
        laws::is_representative(p.record.listings, rep),
        changes_are_households(p),
    ensures
        ({
            let q = delist::succeeded(p, scraped, rep);
            &&& keeps_households(p.record.listings, q.record.listings)
            &&& changes_are_households(q)
        }),
{
    let q = delist::succeeded(p, scraped, rep);
    let a = p.record.listings;
    let b = q.record.listings;
    if !scraper::has_card(scraped, rep) {
        match delist::successor(a, scraped, rep) {
            Some(new_id) => {
                laws::lemma_successor_is(a, scraped, rep);
                steps::lemma_succeeded_shape(p, scraped, rep);
                assert forall|i: int| 0 <= i < a.len() implies (#[trigger] b[i]).id() == a[i].id()
                    && b[i].representative() == (if a[i].representative() == rep {
                    new_id
                } else {
                    a[i].representative()
                }) by {
                    steps::lemma_hand_over_effect(p.record, rep, new_id, i);
                    lemma_hand_over_moves_household(p.record, rep, new_id, i);
                }
                lemma_keeps_households(a, b);
                let k = choose|k: int|
                    0 <= k < a.len() && (#[trigger] a[k]).id() == new_id && a[k].duplicate_of
                        == Some(rep);
                let o = choose|o: int|
                    0 <= o < a.len() && (#[trigger] a[o]).id() == rep && a[o].duplicate_of is None;
                assert(b[o].representative() == b[k].representative());
                assert(is_one_household(b, rep, new_id));
                assert forall|k: int| 0 <= k < q.id_changes.len() implies is_one_household(
                    b,
                    (#[trigger] q.id_changes[k]).0,
                    q.id_changes[k].1,
                ) by {
                    if k < p.id_changes.len() {
                        assert(q.id_changes[k] == p.id_changes[k]);
                        assert(is_one_household(a, p.id_changes[k].0, p.id_changes[k].1));
                    }
                }
            },
            None => {},
        }
    }
}

pub(crate) proof fn lemma_taken_households(
    p: ProgressView,
    scraped: Seq<CardView>,
    date: Date,
    card: CardView,
)
    requires
        laws::is_sound(p.record.listings),
        changes_are_households(p),
    ensures
        ({
            let q = delist::taken(p, scraped, date, card);
            &&& keeps_households(p.record.listings, q.record.listings)
            &&& changes_are_households(q)
        }),
{
    let q = delist::taken(p, scraped, date, card);
    let a = p.record.listings;
    let b = q.record.listings;
    let key = delist::card_key(card);
    if record::has_listing(a, card.id) {
        laws::lemma_taken_known(p, scraped, date, card);
        lemma_keeps_households(a, b);
    } else {
        laws::lemma_taken_new(p, scraped, date, card);
        assert forall|i: int| 0 <= i < a.len() implies (#[trigger] b[i]).id() == a[i].id() by {
            assert(steps::same_contents(a[i], b[i]));
        }
        laws::lemma_first_match_found(p, scraped, card, false);
        let present = delist::first_match(p, scraped, key, true);
        let absent = delist::first_match(p, scraped, key, false);
        if present is None && absent is Some {
            let old = a[absent->0];
            assert(delist::is_match(p, scraped, key, false, absent->0));
            assert forall|i: int| 0 <= i < a.len() implies (#[trigger] b[i]).representative() == (
            if old.duplicate_of is None && a[i].representative() == old.id() {
                card.id
            } else {
                a[i].representative()
            }) by {
                lemma_id_change_moves_household(p.record, old, card, date, i);
            }
            lemma_keeps_households(a, b);
            laws::lemma_id_change_sound(p.record, scraped, old, card, date);
            assert(b[absent->0].representative() == b[a.len() as int].representative());
            assert(is_one_household(b, old.id(), card.id));
        } else {
            let w = if present is Some {
                delist::inserted(card, date, Some(a[present->0].representative()), None)
            } else {
                delist::inserted(card, date, None, None)
            };
            delist::lemma_one_write(p.record, w);
            assert forall|i: int| 0 <= i < a.len() implies (#[trigger] b[i]) == a[i] by {}
            lemma_keeps_households(a, b);
        }
    }
    assert forall|k: int| 0 <= k < q.id_changes.len() implies is_one_household(
        b,
        (#[trigger] q.id_changes[k]).0,
        q.id_changes[k].1,
    ) by {
        if k < p.id_changes.len() {
            assert(q.id_changes[k] == p.id_changes[k]);
            assert(is_one_household(a, p.id_changes[k].0, p.id_changes[k].1));
        }
    }
}

pub(crate) proof fn lemma_all_succeeded_households(
    p: ProgressView,
    scraped: Seq<CardView>,
    reps: Seq<Seq<char>>,
)
    requires
        laws::is_sound(p.record.listings),
        reps.no_duplicates(),
        forall|k: int| 0 <= k < reps.len() ==> laws::is_representative(p.record.listings, #[trigger] reps[k]),
        changes_are_households(p),
    ensures
        ({
            let q = delist::all_succeeded(p, scraped, reps);
            &&& keeps_households(p.record.listings, q.record.listings)
            &&& changes_are_households(q)
        }),
    decreases reps.len(),
{
    if reps.len() > 0 {
        let front = reps.drop_last();
        let rep = reps.last();
        lemma_front_of_representatives(p.record.listings, reps);
        lemma_all_succeeded_households(p, scraped, front);
        laws::lemma_all_succeeded_sound(p, scraped, front);
        let q = delist::all_succeeded(p, scraped, front);
        assert(laws::is_representative(p.record.listings, rep));
        lemma_succeeded_households(q, scraped, rep);
        let s = delist::succeeded(q, scraped, rep);
        assert forall|a: Seq<char>, b: Seq<char>| #[trigger]
            is_one_household(p.record.listings, a, b) implies is_one_household(
            s.record.listings,
            a,
            b,
        ) by {
            assert(is_one_household(q.record.listings, a, b));
        }
    }
}

pub(crate) proof fn lemma_front_of_representatives(listings: Seq<ListingView>, reps: Seq<Seq<char>>)
    requires
        reps.len() > 0,
        reps.no_duplicates(),
        forall|k: int| 0 <= k < reps.len() ==> laws::is_representative(listings, #[trigger] reps[k]),
    ensures
        reps.drop_last().no_duplicates(),
        !reps.drop_last().contains(reps.last()),
        laws::is_representative(listings, reps.last()),
        forall|k: int|
            0 <= k < reps.drop_last().len() ==> laws::is_representative(
                listings,
                #[trigger] reps.drop_last()[k],
            ),
{
    let front = reps.drop_last();
    assert(reps[reps.len() - 1] == reps.last());
    assert forall|i: int, j: int|
        0 <= i < front.len() && 0 <= j < front.len() && i != j implies front[i] != front[j] by {
        assert(reps[i] != reps[j]);
    }
    assert forall|k: int| 0 <= k < front.len() implies laws::is_representative(
        listings,
        #[trigger] front[k],
    ) by {
        assert(front[k] == reps[k]);
    }
    if front.contains(reps.last()) {
        let i = front.index_of(reps.last());
        assert(reps[i] == reps[reps.len() - 1]);
    }
}

pub(crate) proof fn lemma_all_taken_households(
    p: ProgressView,
    scraped: Seq<CardView>,
    date: Date,
    cards: Seq<CardView>,
)
    requires
        laws::is_sound(p.record.listings),
        changes_are_households(p),
    ensures
        ({
            let q = delist::all_taken(p, scraped, date, cards);
            &&& keeps_households(p.record.listings, q.record.listings)
            &&& changes_are_households(q)
        }),
    decreases cards.len(),
{
    if cards.len() > 0 {
        let front = cards.drop_last();
        lemma_all_taken_households(p, scraped, date, front);
        laws::lemma_all_taken_sound(p, scraped, date, front);
        let q = delist::all_taken(p, scraped, date, front);
        lemma_taken_households(q, scraped, date, cards.last());
        let s = delist::taken(q, scraped, date, cards.last());
        assert forall|a: Seq<char>, b: Seq<char>| #[trigger]
            is_one_household(p.record.listings, a, b) implies is_one_household(
            s.record.listings,
            a,
            b,
        ) by {
            assert(is_one_household(q.record.listings, a, b));
        }
    }
}

/// Listings of one household stay listings of one household, whatever happens
/// to its representative; and an id that another took over is of one household
/// with that.
pub proof fn law_households_stay_together(r: RecordView, date: Date, scraped: Seq<CardView>)
    requires
        laws::is_sound(r.listings),
    ensures
        keeps_households(r.listings, delist::settled(r, date, scraped).record.listings),
        changes_are_households(delist::settled(r, date, scraped)),
{
    let start = delist::started(r);
    let reps = delist::representatives(r.listings);
    laws::lemma_representatives(r.listings);
    laws::lemma_matched_sound(r, date, scraped);
    lemma_all_succeeded_households(start, scraped, reps);
    let q = delist::all_succeeded(start, scraped, reps);
    lemma_all_taken_households(q, scraped, date, scraped);
    let p = delist::matched(r, date, scraped);
    let end = delist::settled(r, date, scraped);
    steps::lemma_lengths(r, date, scraped);
    assert forall|i: int| 0 <= i < p.record.listings.len() implies (
    #[trigger] end.record.listings[i]).id() == p.record.listings[i].id()
        && end.record.listings[i].representative() == p.record.listings[i].representative() by {
        laws::lemma_settled_listing(r, date, scraped, i);
    }
    lemma_keeps_households(p.record.listings, end.record.listings);
    assert forall|a: Seq<char>, b: Seq<char>| #[trigger]
        is_one_household(r.listings, a, b) implies is_one_household(end.record.listings, a, b) by {
        assert(is_one_household(q.record.listings, a, b));
        assert(is_one_household(p.record.listings, a, b));
    }
    assert forall|k: int| 0 <= k < end.id_changes.len() implies is_one_household(
        end.record.listings,
        (#[trigger] end.id_changes[k]).0,
        end.id_changes[k].1,
    ) by {
        assert(is_one_household(p.record.listings, p.id_changes[k].0, p.id_changes[k].1));
    }
}

/// A household keeps its representative, or gets one that was found in the
/// round.
pub open spec fn is_led_on(scraped: Seq<CardView>, l: ListingView, m: ListingView) -> bool {
    m.representative() == l.representative() || scraper::has_card(scraped, m.representative())
}

pub(crate) proof fn lemma_all_succeeded_lead_on(
    p: ProgressView,
    scraped: Seq<CardView>,
    reps: Seq<Seq<char>>,
    i: int,
)
    requires
        laws::is_sound(p.record.listings),
        reps.no_duplicates(),
        forall|k: int|
            0 <= k < reps.len() ==> laws::is_representative(p.record.listings, #[trigger] reps[k]),
        0 <= i < p.record.listings.len(),
    ensures
        is_led_on(
            scraped,
            p.record.listings[i],
            delist::all_succeeded(p, scraped, reps).record.listings[i],
        ),
    decreases reps.len(),
{
    if reps.len() > 0 {
        let front = reps.drop_last();
        let rep = reps.last();
        lemma_front_of_representatives(p.record.listings, reps);
        lemma_all_succeeded_lead_on(p, scraped, front, i);
        laws::lemma_all_succeeded_sound(p, scraped, front);
        steps::lemma_all_succeeded_shape(p, scraped, front);
        let q = delist::all_succeeded(p, scraped, front);
        assert(laws::is_representative(p.record.listings, rep));
        if !scraper::has_card(scraped, rep) {
            match delist::successor(q.record.listings, scraped, rep) {
                Some(new_id) => {
                    laws::lemma_successor_is(q.record.listings, scraped, rep);
                    lemma_hand_over_moves_household(q.record, rep, new_id, i);
                },
                None => {},
            }
        }
    }
}

pub(crate) proof fn lemma_all_taken_lead_on(
    p: ProgressView,
    scraped: Seq<CardView>,
    date: Date,
    cards: Seq<CardView>,
    i: int,
)
    requires
        laws::is_sound(p.record.listings),
        forall|k: int|
            0 <= k < cards.len() ==> scraper::has_card(scraped, (#[trigger] cards[k]).id),
        0 <= i < p.record.listings.len(),
    ensures
        ({
            let q = delist::all_taken(p, scraped, date, cards);
            &&& i < q.record.listings.len()
            &&& is_led_on(scraped, p.record.listings[i], q.record.listings[i])
        }),
    decreases cards.len(),
{
    if cards.len() > 0 {
        let front = cards.drop_last();
        let card = cards.last();
        assert(cards[cards.len() - 1] == card);
        assert forall|k: int| 0 <= k < front.len() implies scraper::has_card(
            scraped,
            (#[trigger] front[k]).id,
        ) by {
            assert(front[k] == cards[k]);
        }
        lemma_all_taken_lead_on(p, scraped, date, front, i);
        laws::lemma_all_taken_sound(p, scraped, date, front);
        let q = delist::all_taken(p, scraped, date, front);
        let s = delist::taken(q, scraped, date, card);
        let a = q.record.listings;
        let b = s.record.listings;
        let key = delist::card_key(card);
        if record::has_listing(a, card.id) {
            laws::lemma_taken_known(q, scraped, date, card);
            assert(b[i].representative() == a[i].representative());
        } else {
            laws::lemma_taken_new(q, scraped, date, card);
            laws::lemma_first_match_found(q, scraped, card, false);
            let present = delist::first_match(q, scraped, key, true);
            let absent = delist::first_match(q, scraped, key, false);
            if present is None && absent is Some {
                assert(delist::is_match(q, scraped, key, false, absent->0));
                lemma_id_change_moves_household(q.record, a[absent->0], card, date, i);
            } else {
                let w = if present is Some {
                    delist::inserted(card, date, Some(a[present->0].representative()), None)
                } else {
                    delist::inserted(card, date, None, None)
                };
                delist::lemma_one_write(q.record, w);
                assert(b[i] == a[i]);
            }
        }
    }
}

/// A household keeps its representative through a round, or gets one that was
/// found in it.
pub proof fn law_new_representative_was_found(
    r: RecordView,
    date: Date,
    scraped: Seq<CardView>,
    i: int,
)
    requires
        laws::is_sound(r.listings),
        0 <= i < r.listings.len(),
    ensures
        is_led_on(
            scraped,
            r.listings[i],
            delist::settled(r, date, scraped).record.listings[i],
        ),
{
    let start = delist::started(r);
    let reps = delist::representatives(r.listings);
    let q = delist::all_succeeded(start, scraped, reps);
    laws::lemma_representatives(r.listings);
    laws::lemma_matched_sound(r, date, scraped);
    steps::lemma_all_succeeded_shape(start, scraped, reps);
    lemma_all_succeeded_lead_on(start, scraped, reps, i);
    laws::lemma_own_cards(scraped);
    lemma_all_taken_lead_on(q, scraped, date, scraped, i);
    laws::lemma_settled_listing(r, date, scraped, i);
}

// ---------------------------------------------------------------------------
// One more advertisement of a household
// ---------------------------------------------------------------------------

/// A listing that was found in the round, and what was first known of it.
pub open spec fn is_known_as(
    p: ProgressView,
    id: Seq<char>,
    key: HouseholdView,
) -> bool {
    exists|k: int|
        0 <= k < p.record.listings.len() && #[trigger] p.record.listings[k].id() == id
            && p.known[k] == key
}

pub(crate) proof fn lemma_taken_knows(
    p: ProgressView,
    scraped: Seq<CardView>,
    date: Date,
    card: CardView,
    id: Seq<char>,
    key: HouseholdView,
)
    requires
        laws::is_sound(p.record.listings),
        p.known.len() == p.record.listings.len(),
    ensures
        ({
            let q = delist::taken(p, scraped, date, card);
            &&& q.known.len() == q.record.listings.len()
            &&& is_known_as(p, id, key) ==> is_known_as(q, id, key)
            &&& !record::has_listing(p.record.listings, card.id) ==> is_known_as(
                q,
                card.id,
                delist::card_key(card),
            )
        }),
{
    let q = delist::taken(p, scraped, date, card);
    delist::lemma_taken_len(p, scraped, date, card);
    let known = record::has_listing(p.record.listings, card.id);
    if known {
        laws::lemma_taken_known(p, scraped, date, card);
    } else {
        laws::lemma_taken_new(p, scraped, date, card);
        let n = p.record.listings.len() as int;
        assert(q.record.listings[n].id() == card.id && q.known[n] == delist::card_key(card));
    }
    if is_known_as(p, id, key) {
        let k = choose|k: int|
            0 <= k < p.record.listings.len() && #[trigger] p.record.listings[k].id() == id
                && p.known[k] == key;
        if !known {
            assert(steps::same_contents(p.record.listings[k], q.record.listings[k]));
        }
        assert(q.record.listings[k].id() == id && q.known[k] == key);
    }
}

pub(crate) proof fn lemma_all_taken_knows(
    p: ProgressView,
    scraped: Seq<CardView>,
    date: Date,
    cards: Seq<CardView>,
    id: Seq<char>,
    key: HouseholdView,
)
    requires
        laws::is_sound(p.record.listings),
        p.known.len() == p.record.listings.len(),
    ensures
        ({
            let q = delist::all_taken(p, scraped, date, cards);
            &&& q.known.len() == q.record.listings.len()
            &&& is_known_as(p, id, key) ==> is_known_as(q, id, key)
        }),
    decreases cards.len(),
{
    if cards.len() > 0 {
        let front = cards.drop_last();
        lemma_all_taken_knows(p, scraped, date, front, id, key);
        laws::lemma_all_taken_sound(p, scraped, date, front);
        let q = delist::all_taken(p, scraped, date, front);
        lemma_taken_knows(q, scraped, date, cards.last(), id, key);
    }
}

pub(crate) proof fn lemma_all_taken_splits(
    p: ProgressView,
    scraped: Seq<CardView>,
    date: Date,
    a: Seq<CardView>,
    b: Seq<CardView>,
)
    ensures
        delist::all_taken(p, scraped, date, a + b) == delist::all_taken(
            delist::all_taken(p, scraped, date, a),
            scraped,
            date,
            b,
        ),
    decreases b.len(),
{
    if b.len() == 0 {
        assert(a + b =~= a);
    } else {
        assert((a + b).drop_last() =~= a + b.drop_last());
        assert((a + b).last() == b.last());
        lemma_all_taken_splits(p, scraped, date, a, b.drop_last());
    }
}

/// A listing with the id stands below another.
pub open spec fn is_duplicate(listings: Seq<ListingView>, id: Seq<char>) -> bool {
    exists|k: int|
        0 <= k < listings.len() && (#[trigger] listings[k]).id() == id
            && listings[k].duplicate_of is Some
}

pub(crate) proof fn lemma_duplicates_stay(
    p: ProgressView,
    scraped: Seq<CardView>,
    date: Date,
    cards: Seq<CardView>,
    id: Seq<char>,
)
    requires
        laws::is_sound(p.record.listings),
        is_duplicate(p.record.listings, id),
    ensures
        is_duplicate(delist::all_taken(p, scraped, date, cards).record.listings, id),
    decreases cards.len(),
{
    if cards.len() > 0 {
        let front = cards.drop_last();
        let card = cards.last();
        lemma_duplicates_stay(p, scraped, date, front, id);
        laws::lemma_all_taken_sound(p, scraped, date, front);
        let q = delist::all_taken(p, scraped, date, front);
        let s = delist::taken(q, scraped, date, card);
        let k = choose|k: int|
            0 <= k < q.record.listings.len() && (#[trigger] q.record.listings[k]).id() == id
                && q.record.listings[k].duplicate_of is Some;
        if record::has_listing(q.record.listings, card.id) {
            laws::lemma_taken_known(q, scraped, date, card);
        } else {
            laws::lemma_taken_new(q, scraped, date, card);
            assert(steps::same_contents(q.record.listings[k], s.record.listings[k]));
        }
        assert(s.record.listings[k].id() == id);
    }
}

/// The card at `m` matches what is known under the id `other`: a listing from
/// before the round, or a new card that came earlier.
pub open spec fn matches_known(
    r: RecordView,
    scraped: Seq<CardView>,
    m: int,
    other: Seq<char>,
) -> bool {
    ||| exists|k: int|
        0 <= k < r.listings.len() && #[trigger] r.listings[k].id() == other
            && dedup::is_same_household(
            delist::card_key(scraped[m]),
            delist::card_key(r.listings[k].card),
        )
    ||| !record::has_listing(r.listings, other) && exists|k: int|
        0 <= k < m && (#[trigger] scraped[k]).id == other && laws::is_first_of_id(scraped, k)
            && dedup::is_same_household(
            delist::card_key(scraped[m]),
            delist::card_key(scraped[k]),
        )
}

/// A new card that matches a listing found in this round, be it known from
/// before or a new card that came earlier, is one more advertisement of a
/// household and never stands for a new one.
pub proof fn law_matching_card_is_a_duplicate(
    r: RecordView,
    date: Date,
    scraped: Seq<CardView>,
    m: int,
    other: Seq<char>,
)
    requires
        laws::is_sound(r.listings),
        laws::is_first_of_id(scraped, m),
        !record::has_listing(r.listings, scraped[m].id),
        scraper::has_card(scraped, other),
        matches_known(r, scraped, m, other),
    ensures
        is_duplicate(delist::settled(r, date, scraped).record.listings, scraped[m].id),
{
    let start = delist::started(r);
    let reps = delist::representatives(r.listings);
    let q = delist::all_succeeded(start, scraped, reps);
    laws::lemma_matched_sound(r, date, scraped);
    steps::lemma_all_succeeded_shape(start, scraped, reps);
    let card = scraped[m];
    let before = scraped.take(m);
    let rest = scraped.skip(m + 1);
    assert(before + seq![card] + rest =~= scraped);
    let p = delist::all_taken(q, scraped, date, before);
    let s = delist::taken(p, scraped, date, card);
    assert((before + seq![card]).drop_last() =~= before);
    assert(delist::all_taken(q, scraped, date, before + seq![card]) == s);
    lemma_all_taken_splits(q, scraped, date, before + seq![card], rest);
    laws::lemma_all_taken_sound(q, scraped, date, before);
    // The card itself is not known yet.
    lemma_not_known_yet(r, date, scraped, m);
    // The other one is.
    let key = lemma_other_is_known(r, date, scraped, m, other);
    lemma_all_taken_knows(q, scraped, date, before, other, key);
    let j = choose|j: int|
        0 <= j < p.record.listings.len() && #[trigger] p.record.listings[j].id() == other
            && p.known[j] == key;
    assert(delist::is_match(p, scraped, delist::card_key(card), true, j));
    lemma_some_match_is_first(p, scraped, card, true, j);
    laws::lemma_taken_new(p, scraped, date, card);
    let n = p.record.listings.len() as int;
    assert(s.record.listings[n].id() == card.id);
    assert(is_duplicate(s.record.listings, card.id));
    lemma_duplicates_stay(s, scraped, date, rest, card.id);
    let found = delist::matched(r, date, scraped).record.listings;
    let end = delist::settled(r, date, scraped).record.listings;
    let k = choose|k: int|
        0 <= k < found.len() && (#[trigger] found[k]).id() == card.id
            && found[k].duplicate_of is Some;
    laws::lemma_settled_listing(r, date, scraped, k);
    steps::lemma_lengths(r, date, scraped);
    assert(end[k].id() == card.id);
}

/// A new card is not known before its turn.
pub(crate) proof fn lemma_not_known_yet(
    r: RecordView,
    date: Date,
    scraped: Seq<CardView>,
    m: int,
)
    requires
        laws::is_sound(r.listings),
        laws::is_first_of_id(scraped, m),
        !record::has_listing(r.listings, scraped[m].id),
    ensures
        !record::has_listing(
            delist::all_taken(
                delist::all_succeeded(
                    delist::started(r),
                    scraped,
                    delist::representatives(r.listings),
                ),
                scraped,
                date,
                scraped.take(m),
            ).record.listings,
            scraped[m].id,
        ),
{
    let start = delist::started(r);
    let reps = delist::representatives(r.listings);
    let q = delist::all_succeeded(start, scraped, reps);
    let before = scraped.take(m);
    laws::lemma_matched_sound(r, date, scraped);
    steps::lemma_all_succeeded_shape(start, scraped, reps);
    laws::lemma_all_taken_new_ids(q, scraped, date, before);
    lemma_succession_keeps_ids(r, scraped, scraped[m].id);
    if scraper::has_card(before, scraped[m].id) {
        let k = choose|k: int|
            0 <= k < before.len() && (#[trigger] before[k]).id == scraped[m].id;
        assert(scraped[k].id != scraped[m].id);
    }
}

pub(crate) proof fn lemma_succession_keeps_ids(r: RecordView, scraped: Seq<CardView>, id: Seq<char>)
    ensures
        record::has_listing(
            delist::all_succeeded(
                delist::started(r),
                scraped,
                delist::representatives(r.listings),
            ).record.listings,
            id,
        ) <==> record::has_listing(r.listings, id),
{
    let start = delist::started(r);
    let reps = delist::representatives(r.listings);
    let q = delist::all_succeeded(start, scraped, reps);
    steps::lemma_all_succeeded_shape(start, scraped, reps);
    if record::has_listing(q.record.listings, id) {
        let k = choose|k: int|
            0 <= k < q.record.listings.len() && #[trigger] q.record.listings[k].id() == id;
        laws::lemma_all_succeeded_carries(start, scraped, reps, k);
        assert(r.listings[k].id() == id);
    }
    if record::has_listing(r.listings, id) {
        let k = choose|k: int| 0 <= k < r.listings.len() && #[trigger] r.listings[k].id() == id;
        laws::lemma_all_succeeded_carries(start, scraped, reps, k);
        assert(q.record.listings[k].id() == id);
    }
}

/// What is compared of a listing that was known from before, or of a card that
/// came earlier.
pub(crate) proof fn lemma_other_is_known(
    r: RecordView,
    date: Date,
    scraped: Seq<CardView>,
    m: int,
    other: Seq<char>,
) -> (key: HouseholdView)
    requires
        laws::is_sound(r.listings),
        0 <= m < scraped.len(),
        matches_known(r, scraped, m, other),
    ensures
        dedup::is_same_household(delist::card_key(scraped[m]), key),
        is_known_as(
            delist::all_taken(
                delist::all_succeeded(
                    delist::started(r),
                    scraped,
                    delist::representatives(r.listings),
                ),
                scraped,
                date,
                scraped.take(m),
            ),
            other,
            key,
        ),
{
    let start = delist::started(r);
    let reps = delist::representatives(r.listings);
    let q = delist::all_succeeded(start, scraped, reps);
    laws::lemma_matched_sound(r, date, scraped);
    steps::lemma_all_succeeded_shape(start, scraped, reps);
    let before = scraped.take(m);
    if exists|k: int|
        0 <= k < r.listings.len() && #[trigger] r.listings[k].id() == other
            && dedup::is_same_household(
            delist::card_key(scraped[m]),
            delist::card_key(r.listings[k].card),
        ) {
        let k = choose|k: int|
            0 <= k < r.listings.len() && #[trigger] r.listings[k].id() == other
                && dedup::is_same_household(
                delist::card_key(scraped[m]),
                delist::card_key(r.listings[k].card),
            );
        let key = delist::card_key(r.listings[k].card);
        laws::lemma_all_succeeded_carries(start, scraped, reps, k);
        assert(q.record.listings[k].id() == other && q.known[k] == key);
        lemma_all_taken_knows(q, scraped, date, before, other, key);
        key
    } else {
        let k = choose|k: int|
            0 <= k < m && (#[trigger] scraped[k]).id == other && laws::is_first_of_id(scraped, k)
                && dedup::is_same_household(
                delist::card_key(scraped[m]),
                delist::card_key(scraped[k]),
            );
        let card = scraped[k];
        let key = delist::card_key(card);
        let first = scraped.take(k);
        let rest = scraped.subrange(k + 1, m);
        assert(first + seq![card] + rest =~= before);
        let p = delist::all_taken(q, scraped, date, first);
        assert((first + seq![card]).drop_last() =~= first);
        let s = delist::taken(p, scraped, date, card);
        assert(delist::all_taken(q, scraped, date, first + seq![card]) == s);
        lemma_all_taken_splits(q, scraped, date, first + seq![card], rest);
        laws::lemma_all_taken_sound(q, scraped, date, first);
        laws::lemma_all_taken_sound(q, scraped, date, first + seq![card]);
        laws::lemma_all_taken_new_ids(q, scraped, date, first);
        lemma_succession_keeps_ids(r, scraped, other);
        assert(!scraper::has_card(first, other)) by {
            if scraper::has_card(first, other) {
                let i = choose|i: int| 0 <= i < first.len() && (#[trigger] first[i]).id == other;
                assert(scraped[i].id != scraped[k].id);
            }
        }
        assert(!record::has_listing(p.record.listings, other));
        lemma_all_taken_knows(q, scraped, date, first, other, key);
        lemma_taken_knows(p, scraped, date, card, other, key);
        lemma_all_taken_knows(s, scraped, date, rest, other, key);
        key
    }
}

/// Where there is a match there is a first one.
pub(crate) proof fn lemma_some_match_is_first(
    p: ProgressView,
    scraped: Seq<CardView>,
    card: CardView,
    present: bool,
    j: int,
)
    requires
        delist::is_match(p, scraped, delist::card_key(card), present, j),
    ensures
        delist::first_match(p, scraped, delist::card_key(card), present) is Some,
    decreases j,
{
    let key = delist::card_key(card);
    if exists|i: int| 0 <= i < j && #[trigger] delist::is_match(p, scraped, key, present, i) {
        let i = choose|i: int|
            0 <= i < j && #[trigger] delist::is_match(p, scraped, key, present, i);
        lemma_some_match_is_first(p, scraped, card, present, i);
    } else {
        assert(delist::is_first_match(p, scraped, key, present, j));
    }
}

/// A card with a match becomes one household with a listing that was there.
pub(crate) proof fn lemma_taken_joins(
    p: ProgressView,
    scraped: Seq<CardView>,
    date: Date,
    card: CardView,
) -> (i: int)
    requires
        laws::is_sound(p.record.listings),
        !record::has_listing(p.record.listings, card.id),
        delist::first_match(p, scraped, delist::card_key(card), true) is Some
            || delist::first_match(p, scraped, delist::card_key(card), false) is Some,
    ensures
        0 <= i < p.record.listings.len(),
        is_one_household(
            delist::taken(p, scraped, date, card).record.listings,
            p.record.listings[i].id(),
            card.id,
        ),
{
    let key = delist::card_key(card);
    let a = p.record.listings;
    let n = a.len() as int;
    let b = delist::taken(p, scraped, date, card).record.listings;
    laws::lemma_first_match_found(p, scraped, card, true);
    laws::lemma_first_match_found(p, scraped, card, false);
    laws::lemma_taken_new(p, scraped, date, card);
    match delist::first_match(p, scraped, key, true) {
        Some(i) => {
            assert(delist::is_match(p, scraped, key, true, i));
            let w = delist::inserted(card, date, Some(a[i].representative()), None);
            delist::lemma_one_write(p.record, w);
            assert(b[i] == a[i]);
            assert(b[n].representative() == b[i].representative());
            assert(b[n].id() == card.id);
            i
        },
        None => {
            let i = delist::first_match(p, scraped, key, false)->0;
            let old = a[i];
            assert(delist::is_match(p, scraped, key, false, i));
            lemma_id_change_moves_household(p.record, old, card, date, i);
            laws::lemma_id_change_sound(p.record, scraped, old, card, date);
            assert(steps::same_contents(a[i], b[i]));
            assert(b[n].representative() == b[i].representative());
            assert(b[n].id() == card.id);
            i
        },
    }
}

/// A new card that matches anything known, found in this round or missing from
/// it, does not become a household of its own: it ends up in one household
/// with another listing.
pub proof fn law_matching_card_joins_a_household(
    r: RecordView,
    date: Date,
    scraped: Seq<CardView>,
    m: int,
    other: Seq<char>,
)
    requires
        laws::is_sound(r.listings),
        laws::is_first_of_id(scraped, m),
        !record::has_listing(r.listings, scraped[m].id),
        matches_known(r, scraped, m, other),
    ensures
        exists|id: Seq<char>|
            id != scraped[m].id && #[trigger] is_one_household(
                delist::settled(r, date, scraped).record.listings,
                id,
                scraped[m].id,
            ),
{
    let start = delist::started(r);
    let reps = delist::representatives(r.listings);
    let q = delist::all_succeeded(start, scraped, reps);
    laws::lemma_matched_sound(r, date, scraped);
    steps::lemma_all_succeeded_shape(start, scraped, reps);
    laws::lemma_representatives(r.listings);
    lemma_all_succeeded_households(start, scraped, reps);
    let card = scraped[m];
    let before = scraped.take(m);
    let rest = scraped.skip(m + 1);
    assert(before + seq![card] + rest =~= scraped);
    let p = delist::all_taken(q, scraped, date, before);
    let s = delist::taken(p, scraped, date, card);
    assert((before + seq![card]).drop_last() =~= before);
    assert(delist::all_taken(q, scraped, date, before + seq![card]) == s);
    lemma_all_taken_splits(q, scraped, date, before + seq![card], rest);
    laws::lemma_all_taken_sound(q, scraped, date, before);
    laws::lemma_all_taken_sound(q, scraped, date, before + seq![card]);
    lemma_all_taken_households(q, scraped, date, before);
    lemma_taken_households(p, scraped, date, card);
    lemma_not_known_yet(r, date, scraped, m);
    let key = lemma_other_is_known(r, date, scraped, m, other);
    lemma_all_taken_knows(q, scraped, date, before, other, key);
    let j = choose|j: int|
        0 <= j < p.record.listings.len() && #[trigger] p.record.listings[j].id() == other
            && p.known[j] == key;
    let present = scraper::has_card(scraped, other);
    assert(delist::is_match(p, scraped, delist::card_key(card), present, j));
    lemma_some_match_is_first(p, scraped, card, present, j);
    let i = lemma_taken_joins(p, scraped, date, card);
    let id = p.record.listings[i].id();
    assert(id != card.id);
    lemma_all_taken_households(s, scraped, date, rest);
    let found = delist::matched(r, date, scraped).record.listings;
    let end = delist::settled(r, date, scraped).record.listings;
    assert(is_one_household(found, id, card.id));
    steps::lemma_lengths(r, date, scraped);
    assert forall|k: int| 0 <= k < found.len() implies (#[trigger] end[k]).id() == found[k].id()
        && end[k].representative() == found[k].representative() by {
        laws::lemma_settled_listing(r, date, scraped, k);
    }
    lemma_keeps_households(found, end);
    assert(is_one_household(end, id, card.id));
}

// ---------------------------------------------------------------------------
// Taking over is not disappearing
// ---------------------------------------------------------------------------

/// Of each pair of ids that changed the old one was not found, and stands
/// below another now, and the new one was found.
pub open spec fn changes_are_settled(p: ProgressView, scraped: Seq<CardView>) -> bool {
    forall|k: int|
        0 <= k < p.id_changes.len() ==> {
            &&& is_duplicate(p.record.listings, (#[trigger] p.id_changes[k]).0)
            &&& !scraper::has_card(scraped, p.id_changes[k].0)
            &&& scraper::has_card(scraped, p.id_changes[k].1)
        }
}

pub(crate) proof fn lemma_succeeded_settled(
    p: ProgressView,
    scraped: Seq<CardView>,
    rep: Seq<char>,
)
    requires
        laws::is_sound(p.record.listings),
        laws::is_representative(p.record.listings, rep),
        changes_are_settled(p, scraped),
    ensures
        changes_are_settled(delist::succeeded(p, scraped, rep), scraped),
{
    let q = delist::succeeded(p, scraped, rep);
    let a = p.record.listings;
    let b = q.record.listings;
    if !scraper::has_card(scraped, rep) {
        match delist::successor(a, scraped, rep) {
            Some(new_id) => {
                laws::lemma_successor_is(a, scraped, rep);
                steps::lemma_succeeded_shape(p, scraped, rep);
                assert forall|k: int| 0 <= k < q.id_changes.len() implies {
                    &&& is_duplicate(b, (#[trigger] q.id_changes[k]).0)
                    &&& !scraper::has_card(scraped, q.id_changes[k].0)
                    &&& scraper::has_card(scraped, q.id_changes[k].1)
                } by {
                    let id = q.id_changes[k].0;
                    let i = if k < p.id_changes.len() {
                        assert(q.id_changes[k] == p.id_changes[k]);
                        assert(is_duplicate(a, p.id_changes[k].0));
                        choose|i: int|
                            0 <= i < a.len() && (#[trigger] a[i]).id() == id
                                && a[i].duplicate_of is Some
                    } else {
                        choose|i: int|
                            0 <= i < a.len() && (#[trigger] a[i]).id() == rep
                                && a[i].duplicate_of is None
                    };
                    steps::lemma_hand_over_effect(p.record, rep, new_id, i);
                    assert(b[i].id() == id && b[i].duplicate_of is Some);
                }
            },
            None => {},
        }
    }
}

pub(crate) proof fn lemma_all_succeeded_settled(
    p: ProgressView,
    scraped: Seq<CardView>,
    reps: Seq<Seq<char>>,
)
    requires
        laws::is_sound(p.record.listings),
        reps.no_duplicates(),
        forall|k: int|
            0 <= k < reps.len() ==> laws::is_representative(p.record.listings, #[trigger] reps[k]),
        changes_are_settled(p, scraped),
    ensures
        changes_are_settled(delist::all_succeeded(p, scraped, reps), scraped),
    decreases reps.len(),
{
    if reps.len() > 0 {
        let front = reps.drop_last();
        lemma_front_of_representatives(p.record.listings, reps);
        lemma_all_succeeded_settled(p, scraped, front);
        laws::lemma_all_succeeded_sound(p, scraped, front);
        assert(laws::is_representative(p.record.listings, reps.last()));
        lemma_succeeded_settled(
            delist::all_succeeded(p, scraped, front),
            scraped,
            reps.last(),
        );
    }
}

pub(crate) proof fn lemma_all_taken_settled(
    p: ProgressView,
    scraped: Seq<CardView>,
    date: Date,
    cards: Seq<CardView>,
)
    requires
        laws::is_sound(p.record.listings),
        changes_are_settled(p, scraped),
        forall|k: int|
            0 <= k < cards.len() ==> scraper::has_card(scraped, (#[trigger] cards[k]).id),
    ensures
        changes_are_settled(delist::all_taken(p, scraped, date, cards), scraped),
    decreases cards.len(),
{
    if cards.len() > 0 {
        let front = cards.drop_last();
        let card = cards.last();
        assert(cards[cards.len() - 1] == card);
        assert forall|k: int| 0 <= k < front.len() implies scraper::has_card(
            scraped,
            (#[trigger] front[k]).id,
        ) by {
            assert(front[k] == cards[k]);
        }
        lemma_all_taken_settled(p, scraped, date, front);
        laws::lemma_all_taken_sound(p, scraped, date, front);
        let q = delist::all_taken(p, scraped, date, front);
        let s = delist::taken(q, scraped, date, card);
        let key = delist::card_key(card);
        laws::lemma_first_match_found(q, scraped, card, false);
        let absent = delist::first_match(q, scraped, key, false);
        assert forall|k: int| 0 <= k < s.id_changes.len() implies {
            &&& is_duplicate(s.record.listings, (#[trigger] s.id_changes[k]).0)
            &&& !scraper::has_card(scraped, s.id_changes[k].0)
            &&& scraper::has_card(scraped, s.id_changes[k].1)
        } by {
            if k < q.id_changes.len() {
                assert(s.id_changes[k] == q.id_changes[k]);
                assert(is_duplicate(q.record.listings, q.id_changes[k].0));
                assert(seq![card].drop_last() =~= Seq::<CardView>::empty());
                reveal_with_fuel(delist::all_taken, 2);
                lemma_duplicates_stay(q, scraped, date, seq![card], q.id_changes[k].0);
            } else {
                let old = q.record.listings[absent->0];
                assert(delist::is_match(q, scraped, key, false, absent->0));
                steps::lemma_id_change_effect(q.record, old, card, date);
                let i = absent->0;
                assert(steps::same_contents(q.record.listings[i], s.record.listings[i]));
                assert(s.record.listings[i].id() == old.id()
                    && s.record.listings[i].duplicate_of is Some);
            }
        }
    }
}

/// An id that another took over has not disappeared: neither the old nor the
/// new one is taken off the market in that round.
pub proof fn law_taking_over_is_not_disappearing(
    r: RecordView,
    date: Date,
    scraped: Seq<CardView>,
    k: int,
)
    requires
        laws::is_sound(r.listings),
        0 <= k < delist::reconciled(r, date, scraped).id_changes.len(),
    ensures
        ({
            let rec = delist::reconciled(r, date, scraped);
            &&& !rec.delisted_ids.contains(rec.id_changes[k].0)
            &&& !rec.delisted_ids.contains(rec.id_changes[k].1)
        }),
{
    let start = delist::started(r);
    let reps = delist::representatives(r.listings);
    laws::lemma_representatives(r.listings);
    laws::lemma_matched_sound(r, date, scraped);
    lemma_all_succeeded_settled(start, scraped, reps);
    laws::lemma_own_cards(scraped);
    lemma_all_taken_settled(
        delist::all_succeeded(start, scraped, reps),
        scraped,
        date,
        scraped,
    );
    let p = delist::matched(r, date, scraped);
    let rec = delist::reconciled(r, date, scraped);
    let (old, new) = rec.id_changes[k];
    assert(p.id_changes[k] == (old, new));
    laws::lemma_ids_where(p.record.listings, delist::gone(p.record, scraped));
    if rec.delisted_ids.contains(old) {
        let i = choose|i: int|
            0 <= i < p.record.listings.len() && delist::gone(p.record, scraped)(
                #[trigger] p.record.listings[i],
            ) && p.record.listings[i].id() == old;
        let j = choose|j: int|
            0 <= j < p.record.listings.len() && (#[trigger] p.record.listings[j]).id() == old
                && p.record.listings[j].duplicate_of is Some;
        laws::lemma_same_id(p.record.listings, i, j);
    }
    if rec.delisted_ids.contains(new) {
        let i = choose|i: int|
            0 <= i < p.record.listings.len() && delist::gone(p.record, scraped)(
                #[trigger] p.record.listings[i],
            ) && p.record.listings[i].id() == new;
        assert(p.record.listings[i].representative() == p.record.listings[i].id());
        assert(delist::is_household_seen(
            p.record.listings,
            scraped,
            p.record.listings[i].id(),
        ));
    }
}

} // verus!

//! Which of the listings that a new card matches it goes with.

use crate::date::Date;
use crate::db::models::ListingView;
use crate::db::record;
use crate::db::record::RecordView;
use crate::dedup;
use crate::dedup::HouseholdView;
use crate::delist;
use crate::delist::{
    households, laws, market, matching, outcome, steps, succession, ProgressView,
};
use crate::scraper;
use crate::scraper::CardView;
use vstd::prelude::*;

verus! {

/// What is compared of a card.
pub open spec fn compared(x: CardView) -> HouseholdView {
    HouseholdView {
        community: x.community,
        address: x.address,
        floor: x.floor,
        area: x.area,
        main_area: x.main_area,
        age: x.age,
    }
}

/// Card `m` is one household with the listing at `j`, which was found in the
/// round or was not.
pub open spec fn meets_known(
    r: RecordView,
    scraped: Seq<CardView>,
    m: int,
    j: int,
    found: bool,
) -> bool {
    &&& 0 <= j < r.listings.len()
    &&& found == exists|k: int|
        0 <= k < scraped.len() && (#[trigger] scraped[k]).id == r.listings[j].card.id
    &&& dedup::is_same_household(compared(scraped[m]), compared(r.listings[j].card))
}

/// Card `m` is one household with the earlier card `k`, which was the first to
/// bring an id that no listing had.
pub open spec fn meets_new(r: RecordView, scraped: Seq<CardView>, m: int, k: int) -> bool {
    &&& 0 <= k < m
    &&& forall|h: int| 0 <= h < k ==> (#[trigger] scraped[h]).id != scraped[k].id
    &&& forall|j: int| 0 <= j < r.listings.len() ==> (#[trigger] r.listings[j]).card.id
        != scraped[k].id
    &&& dedup::is_same_household(compared(scraped[m]), compared(scraped[k]))
}

/// The state in which the turn of card `m` comes.
spec fn before_card(r: RecordView, date: Date, scraped: Seq<CardView>, m: int) -> ProgressView {
    delist::all_taken(
        delist::all_succeeded(delist::started(r), scraped, delist::representatives(r.listings)),
        scraped,
        date,
        scraped.take(m),
    )
}

/// No change is to this id.
spec fn no_change_to(p: ProgressView, id: Seq<char>) -> bool {
    forall|k: int| 0 <= k < p.id_changes.len() ==> (#[trigger] p.id_changes[k]).1 != id
}

proof fn lemma_succession_changes_to_known(
    r: RecordView,
    scraped: Seq<CardView>,
    reps: Seq<Seq<char>>,
    id: Seq<char>,
)
    requires
        !record::has_listing(r.listings, id),
    ensures
        no_change_to(delist::all_succeeded(delist::started(r), scraped, reps), id),
    decreases reps.len(),
{
    if reps.len() > 0 {
        let front = reps.drop_last();
        let start = delist::started(r);
        lemma_succession_changes_to_known(r, scraped, front, id);
        let p = delist::all_succeeded(start, scraped, front);
        let a = p.record.listings;
        let q = delist::succeeded(p, scraped, reps.last());
        if !scraper::has_card(scraped, reps.last()) {
            match delist::successor(a, scraped, reps.last()) {
                Some(new_id) => {
                    laws::lemma_successor_is(a, scraped, reps.last());
                    let k = choose|k: int|
                        0 <= k < a.len() && (#[trigger] a[k]).id() == new_id && a[k].duplicate_of
                            == Some(reps.last());
                    steps::lemma_all_succeeded_shape(start, scraped, front);
                    laws::lemma_all_succeeded_carries(start, scraped, front, k);
                    assert(r.listings[k].id() == new_id);
                    assert forall|h: int| 0 <= h < q.id_changes.len() implies (
                    #[trigger] q.id_changes[h]).1 != id by {
                        if h < p.id_changes.len() {
                            assert(q.id_changes[h] == p.id_changes[h]);
                        }
                    }
                },
                None => {},
            }
        }
    }
}

/// Cards with another id change nothing to this one.
proof fn lemma_others_change_to_others(
    p: ProgressView,
    scraped: Seq<CardView>,
    date: Date,
    cards: Seq<CardView>,
    id: Seq<char>,
)
    requires
        no_change_to(p, id),
        laws::is_sound(p.record.listings),
        record::has_listing(p.record.listings, id) || !scraper::has_card(cards, id),
    ensures
        no_change_to(delist::all_taken(p, scraped, date, cards), id),
    decreases cards.len(),
{
    if cards.len() > 0 {
        let front = cards.drop_last();
        let card = cards.last();
        assert(cards[cards.len() - 1] == card);
        if scraper::has_card(front, id) {
            let k = choose|k: int| 0 <= k < front.len() && (#[trigger] front[k]).id == id;
            assert(cards[k].id == id);
        }
        lemma_others_change_to_others(p, scraped, date, front, id);
        let o = delist::all_taken(p, scraped, date, front);
        let q = delist::taken(o, scraped, date, card);
        if card.id == id {
            let i = choose|i: int|
                0 <= i < p.record.listings.len() && #[trigger] p.record.listings[i].id() == id;
            matching::lemma_ids_stay(p, scraped, date, front, i);
            assert(o.record.listings[i].id() == id);
            assert(record::has_listing(o.record.listings, id));
        }
        assert forall|h: int| 0 <= h < q.id_changes.len() implies (#[trigger] q.id_changes[h]).1
            != id by {
            if h < o.id_changes.len() {
                assert(q.id_changes[h] == o.id_changes[h]);
            }
        }
    }
}

/// What decides over a card that the record did not know.
proof fn lemma_decided(r: RecordView, date: Date, scraped: Seq<CardView>, m: int, c: int)
    requires
        laws::is_sound(r.listings),
        laws::is_first_of_id(scraped, m),
        !record::has_listing(r.listings, scraped[m].id),
        0 <= c < delist::settled(r, date, scraped).record.listings.len(),
        delist::settled(r, date, scraped).record.listings[c].id() == scraped[m].id,
    ensures
        ({
            let end = delist::settled(r, date, scraped);
            let ls = end.record.listings;
            let p = before_card(r, date, scraped, m);
            let key = delist::card_key(scraped[m]);
            let present = delist::first_match(p, scraped, key, true);
            let absent = delist::first_match(p, scraped, key, false);
            &&& p.record.listings.len() <= ls.len()
            &&& forall|i: int|
                0 <= i < p.record.listings.len() ==> (#[trigger] ls[i]).id()
                    == p.record.listings[i].id()
            &&& present matches Some(i) ==> {
                &&& ls[i].representative() == ls[c].representative()
                &&& ls[c].note is None
                &&& no_change_to(end, scraped[m].id)
            }
            &&& present is None ==> match absent {
                Some(i) => {
                    &&& ls[i].representative() == ls[c].representative()
                    &&& ls[c].note == Some(delist::id_change_note(p.record.listings[i].id()))
                    &&& end.id_changes.contains((p.record.listings[i].id(), scraped[m].id))
                },
                None => {
                    &&& ls[c].note is None
                    &&& no_change_to(end, scraped[m].id)
                },
            }
        }),
{
    let end = delist::settled(r, date, scraped);
    let ls = end.record.listings;
    let found = delist::matched(r, date, scraped);
    let start = delist::started(r);
    let reps = delist::representatives(r.listings);
    let q = delist::all_succeeded(start, scraped, reps);
    let card = scraped[m];
    let key = delist::card_key(card);
    let rest = scraped.skip(m + 1);
    assert(scraped.take(m) + seq![card] + rest =~= scraped);
    assert((scraped.take(m) + seq![card]).drop_last() =~= scraped.take(m));
    let p = before_card(r, date, scraped, m);
    let s = delist::taken(p, scraped, date, card);
    assert(delist::all_taken(q, scraped, date, scraped.take(m) + seq![card]) == s);
    households::lemma_all_taken_splits(q, scraped, date, scraped.take(m) + seq![card], rest);
    laws::lemma_matched_sound(r, date, scraped);
    steps::lemma_all_succeeded_shape(start, scraped, reps);
    laws::lemma_all_taken_sound(q, scraped, date, scraped.take(m) + seq![card]);
    matching::lemma_keys_have_origin(r, date, scraped, m);
    households::lemma_not_known_yet(r, date, scraped, m);
    laws::lemma_taken_new(p, scraped, date, card);
    laws::lemma_first_match_found(p, scraped, card, true);
    laws::lemma_first_match_found(p, scraped, card, false);
    let a = p.record.listings;
    let b = s.record.listings;
    let n = a.len() as int;
    market::lemma_all_taken_apart(s, scraped, date, rest);
    market::lemma_settled_apart(r, date, scraped);
    succession::lemma_notes_stay(s, scraped, date, rest, n);
    matching::lemma_ids_stay(s, scraped, date, rest, n);
    laws::lemma_settled_listing(r, date, scraped, n);
    laws::law_round_keeps_record_sound(r, date, scraped);
    steps::lemma_lengths(r, date, scraped);
    laws::lemma_same_id(ls, c, n);
    assert forall|i: int| 0 <= i < n implies (#[trigger] ls[i]).id() == a[i].id() by {
        matching::lemma_ids_stay(s, scraped, date, rest, i);
        laws::lemma_settled_listing(r, date, scraped, i);
        assert(steps::same_contents(a[i], b[i]));
    }
    assert forall|i: int|
        0 <= i < n && b[i].representative() == b[n].representative() implies (
    #[trigger] ls[i]).representative() == ls[n].representative() by {
        let f = found.record.listings;
        assert(f[i].representative() == f[n].representative());
    }
    assert(ls[c].note == b[n].note);
    // No change was to the card's id before its turn.
    lemma_succession_changes_to_known(r, scraped, reps, card.id);
    assert(!scraper::has_card(scraped.take(m), card.id)) by {
        if scraper::has_card(scraped.take(m), card.id) {
            let k = choose|k: int|
                0 <= k < m && (#[trigger] scraped.take(m)[k]).id == card.id;
            assert(scraped[k].id == card.id);
        }
    }
    lemma_others_change_to_others(q, scraped, date, scraped.take(m), card.id);
    assert(record::has_listing(b, card.id)) by {
        assert(b[n].id() == card.id);
    }
    let present = delist::first_match(p, scraped, key, true);
    let absent = delist::first_match(p, scraped, key, false);
    if present is None && absent is Some {
        let i = absent->0;
        let old = a[i];
        assert(delist::is_match(p, scraped, key, false, i));
        steps::lemma_id_change_effect(p.record, old, card, date);
        households::lemma_id_change_moves_household(p.record, old, card, date, i);
        laws::lemma_id_change_sound(p.record, scraped, old, card, date);
        assert(b[i].representative() == b[n].representative());
        let pair = (old.id(), card.id);
        assert(s.id_changes.last() == pair);
        assert(s.id_changes.contains(s.id_changes[s.id_changes.len() - 1]));
        succession::lemma_changes_stay(s, scraped, date, rest, pair);
        assert(end.id_changes.contains(pair));
    } else {
        let w = match present {
            Some(i) => delist::inserted(card, date, Some(a[i].representative()), None),
            None => delist::inserted(card, date, None, None),
        };
        delist::lemma_one_write(p.record, w);
        assert(b[n].note is None);
        if present is Some {
            let i = present->0;
            assert(delist::is_match(p, scraped, key, true, i));
            assert(b[i] == a[i]);
            assert(b[i].representative() == b[n].representative());
        }
        assert(s.id_changes == p.id_changes);
        assert(no_change_to(s, card.id));
        lemma_others_change_to_others(s, scraped, date, rest, card.id);
        assert(end.id_changes == found.id_changes);
        assert(no_change_to(end, card.id));
    }
}

/// Where the matches of a card stand among what is known at its turn.
proof fn lemma_where_matches_stand(r: RecordView, date: Date, scraped: Seq<CardView>, m: int)
    requires
        laws::is_sound(r.listings),
        laws::is_first_of_id(scraped, m),
    ensures
        ({
            let p = before_card(r, date, scraped, m);
            let key = delist::card_key(scraped[m]);
            let n = r.listings.len() as int;
            let at = outcome::places_of_new(r.listings, scraped, m);
            &&& p.record.listings.len() == n + at.len()
            &&& forall|j: int, found: bool|
                0 <= j < n ==> (#[trigger] delist::is_match(p, scraped, key, found, j)
                    <==> meets_known(r, scraped, m, j, found))
            &&& forall|j: int|
                0 <= j < n ==> (#[trigger] p.record.listings[j]).id() == r.listings[j].id()
            &&& forall|i: int|
                #![trigger p.record.listings[i]]
                n <= i < p.record.listings.len() ==> {
                    &&& p.record.listings[i].id() == scraped[at[i - n]].id
                    &&& delist::is_match(p, scraped, key, true, i) <==> meets_new(
                        r,
                        scraped,
                        m,
                        at[i - n],
                    )
                    &&& !delist::is_match(p, scraped, key, false, i)
                }
            &&& forall|k: int| #[trigger] meets_new(r, scraped, m, k) ==> at.contains(k)
        }),
{
    let p = before_card(r, date, scraped, m);
    let key = delist::card_key(scraped[m]);
    let n = r.listings.len() as int;
    let at = outcome::places_of_new(r.listings, scraped, m);
    outcome::lemma_places_of_new(r.listings, scraped, m);
    outcome::lemma_new_in_order(r, date, scraped, m);
    matching::lemma_keys_have_origin(r, date, scraped, m);
    assert forall|x: CardView| #[trigger] compared(x) == delist::card_key(x) by {}
    assert forall|j: int, found: bool|
        0 <= j < n implies (#[trigger] delist::is_match(p, scraped, key, found, j)
        <==> meets_known(r, scraped, m, j, found)) by {
        assert(p.known[j] == delist::card_key(r.listings[j].card));
        assert(compared(scraped[m]) == key);
    }
    assert forall|j: int| 0 <= j < n implies (#[trigger] p.record.listings[j]).id()
        == r.listings[j].id() by {
        assert(p.known[j] == delist::card_key(r.listings[j].card));
    }
    assert forall|i: int|
        #![trigger p.record.listings[i]]
        n <= i < p.record.listings.len() implies {
        &&& p.record.listings[i].id() == scraped[at[i - n]].id
        &&& delist::is_match(p, scraped, key, true, i) <==> meets_new(r, scraped, m, at[i - n])
        &&& !delist::is_match(p, scraped, key, false, i)
    } by {
        let k = at[i - n];
        assert(p.new_ids[i - n] == scraped[k].id);
        assert(at.contains(k));
        assert(outcome::brings_new_id(r.listings, scraped, k));
        assert(p.known[i] == p.known[i]);
        let o = choose|o: int|
            0 <= o < m && p.known[i] == delist::card_key(#[trigger] scraped[o])
                && p.record.listings[i].id() == scraped[o].id && laws::is_first_of_id(scraped, o)
                && !record::has_listing(r.listings, scraped[o].id);
        assert(o == k) by {
            if o < k {
                assert(scraped[o].id != scraped[k].id);
            } else if k < o {
                assert(scraped[k].id != scraped[o].id);
            }
        }
        assert(scraper::has_card(scraped, scraped[k].id));
        assert(compared(scraped[m]) == key);
    }
    assert forall|k: int| #[trigger] meets_new(r, scraped, m, k) implies at.contains(k) by {
        assert(outcome::brings_new_id(r.listings, scraped, k));
    }
}

/// Which match a new card goes with. A listing that was found comes before one
/// that was not, and of several the first: first the known listings in their
/// order, then the earlier cards with new ids in theirs. A card that matches
/// what was found is one more advertisement: it has no note, and no id is said to
/// have changed to its own. One that matches only what is missing took over
/// from the first of that, which its note names and which is reported. One that
/// matches nothing has no note either.
pub proof fn law_first_match_decides(
    r: RecordView,
    date: Date,
    scraped: Seq<CardView>,
    m: int,
    c: int,
)
    requires
        laws::is_sound(r.listings),
        0 <= m < scraped.len(),
        forall|k: int| 0 <= k < m ==> (#[trigger] scraped[k]).id != scraped[m].id,
        forall|j: int| 0 <= j < r.listings.len() ==> (#[trigger] r.listings[j]).card.id
            != scraped[m].id,
        0 <= c < delist::settled(r, date, scraped).record.listings.len(),
        delist::settled(r, date, scraped).record.listings[c].card.id == scraped[m].id,
    ensures
        ({
            let end = delist::settled(r, date, scraped).record.listings;
            let changes = delist::reconciled(r, date, scraped).id_changes;
            let home = |l: ListingView|
                match l.duplicate_of {
                    Some(d) => d,
                    None => l.card.id,
                };
            let is_plain = end[c].note is None && forall|q: int|
                0 <= q < changes.len() ==> (#[trigger] changes[q]).1 != scraped[m].id;
            &&& forall|j: int|
                #[trigger] meets_known(r, scraped, m, j, true) && (forall|i: int|
                    0 <= i < j ==> !#[trigger] meets_known(r, scraped, m, i, true)) ==> home(end[j])
                    == home(end[c]) && is_plain
            &&& (forall|i: int| !#[trigger] meets_known(r, scraped, m, i, true)) ==> {
                &&& forall|k: int, d: int|
                    #![trigger meets_new(r, scraped, m, k), end[d]]
                    meets_new(r, scraped, m, k) && (forall|h: int|
                        0 <= h < k ==> !#[trigger] meets_new(r, scraped, m, h)) && 0 <= d
                        < end.len() && end[d].card.id == scraped[k].id ==> home(end[d]) == home(
                        end[c],
                    ) && is_plain
                &&& (forall|k: int| !#[trigger] meets_new(r, scraped, m, k)) ==> {
                    &&& forall|j: int|
                        #[trigger] meets_known(r, scraped, m, j, false) && (forall|i: int|
                            0 <= i < j ==> !#[trigger] meets_known(r, scraped, m, i, false)) ==> {
                            &&& home(end[j]) == home(end[c])
                            &&& end[c].note == Some(
                                "由 "@ + r.listings[j].card.id
                                    + " 轉移而來（591 id 換了但內容判定為同一戶）"@,
                            )
                            &&& changes.contains((r.listings[j].card.id, scraped[m].id))
                        }
                    &&& (forall|j: int| !#[trigger] meets_known(r, scraped, m, j, false))
                        ==> is_plain
                }
            }
        }),
{
    let settled = delist::settled(r, date, scraped);
    let end = settled.record.listings;
    let changes = delist::reconciled(r, date, scraped).id_changes;
    let home = |l: ListingView|
        match l.duplicate_of {
            Some(d) => d,
            None => l.card.id,
        };
    assert forall|l: ListingView| #[trigger] home(l) == l.representative() by {}
    let p = before_card(r, date, scraped, m);
    let a = p.record.listings;
    let key = delist::card_key(scraped[m]);
    let n = r.listings.len() as int;
    let at = outcome::places_of_new(r.listings, scraped, m);
    assert(laws::is_first_of_id(scraped, m));
    assert(!record::has_listing(r.listings, scraped[m].id));
    outcome::lemma_places_of_new(r.listings, scraped, m);
    lemma_where_matches_stand(r, date, scraped, m);
    lemma_decided(r, date, scraped, m, c);
    assert(changes == settled.id_changes);
    assert forall|j: int|
        #[trigger] meets_known(r, scraped, m, j, true) && (forall|i: int|
            0 <= i < j ==> !#[trigger] meets_known(r, scraped, m, i, true)) implies {
        &&& home(end[j]) == home(end[c])
        &&& end[c].note is None
        &&& no_change_to(settled, scraped[m].id)
    } by {
        assert(delist::is_match(p, scraped, key, true, j));
        assert(delist::is_first_match(p, scraped, key, true, j)) by {
            assert forall|i: int| 0 <= i < j implies !#[trigger] delist::is_match(
                p,
                scraped,
                key,
                true,
                i,
            ) by {
                assert(!meets_known(r, scraped, m, i, true));
            }
        }
        delist::lemma_first_match_is(p, scraped, key, true, j);
    }
    if forall|i: int| !#[trigger] meets_known(r, scraped, m, i, true) {
        assert forall|k: int, d: int|
            #![trigger meets_new(r, scraped, m, k), end[d]]
            meets_new(r, scraped, m, k) && (forall|h: int|
                0 <= h < k ==> !#[trigger] meets_new(r, scraped, m, h)) && 0 <= d < end.len()
                && end[d].card.id == scraped[k].id implies {
            &&& home(end[d]) == home(end[c])
            &&& end[c].note is None
            &&& no_change_to(settled, scraped[m].id)
        } by {
            let q = at.index_of(k);
            assert(at.contains(k));
            assert(at[q] == k);
            let i = n + q;
            assert(a[i].id() == scraped[k].id);
            assert(delist::is_match(p, scraped, key, true, i));
            assert(delist::is_first_match(p, scraped, key, true, i)) by {
                assert forall|h: int| 0 <= h < i implies !#[trigger] delist::is_match(
                    p,
                    scraped,
                    key,
                    true,
                    h,
                ) by {
                    if h < n {
                        assert(!meets_known(r, scraped, m, h, true));
                    } else {
                        assert(at[h - n] < at[q]);
                        assert(a[h] == a[h]);
                        assert(!meets_new(r, scraped, m, at[h - n]));
                    }
                }
            }
            delist::lemma_first_match_is(p, scraped, key, true, i);
            laws::law_round_keeps_record_sound(r, date, scraped);
            assert(end[i].id() == a[i].id());
            laws::lemma_same_id(end, d, i);
        }
        if forall|k: int| !#[trigger] meets_new(r, scraped, m, k) {
            assert(delist::first_match(p, scraped, key, true) is None) by {
                laws::lemma_first_match_found(p, scraped, scraped[m], true);
                if delist::first_match(p, scraped, key, true) is Some {
                    let i = delist::first_match(p, scraped, key, true)->0;
                    assert(delist::is_match(p, scraped, key, true, i));
                    if i < n {
                        assert(!meets_known(r, scraped, m, i, true));
                    } else {
                        assert(a[i] == a[i]);
                        assert(!meets_new(r, scraped, m, at[i - n]));
                    }
                }
            }
            assert forall|j: int|
                #[trigger] meets_known(r, scraped, m, j, false) && (forall|i: int|
                    0 <= i < j ==> !#[trigger] meets_known(r, scraped, m, i, false)) implies {
                &&& home(end[j]) == home(end[c])
                &&& end[c].note == Some(
                    "由 "@ + r.listings[j].card.id + " 轉移而來（591 id 換了但內容判定為同一戶）"@,
                )
                &&& changes.contains((r.listings[j].card.id, scraped[m].id))
            } by {
                assert(delist::is_match(p, scraped, key, false, j));
                assert(delist::is_first_match(p, scraped, key, false, j)) by {
                    assert forall|i: int| 0 <= i < j implies !#[trigger] delist::is_match(
                        p,
                        scraped,
                        key,
                        false,
                        i,
                    ) by {
                        assert(!meets_known(r, scraped, m, i, false));
                    }
                }
                delist::lemma_first_match_is(p, scraped, key, false, j);
                assert(a[j].id() == r.listings[j].id());
            }
            if forall|j: int| !#[trigger] meets_known(r, scraped, m, j, false) {
                assert(delist::first_match(p, scraped, key, false) is None) by {
                    laws::lemma_first_match_found(p, scraped, scraped[m], false);
                    if delist::first_match(p, scraped, key, false) is Some {
                        let i = delist::first_match(p, scraped, key, false)->0;
                        assert(delist::is_match(p, scraped, key, false, i));
                        if i < n {
                            assert(!meets_known(r, scraped, m, i, false));
                        } else {
                            assert(a[i] == a[i]);
                        }
                    }
                }
            }
        }
    }
}

} // verus!

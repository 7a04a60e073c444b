//! Who takes the place of a representative that is missing.

use crate::date::Date;
use crate::db::models::ListingView;
use crate::db::record;
use crate::db::record::RecordView;
use crate::dedup;
use crate::dedup::HouseholdView;
use crate::delist;
use crate::delist::{households, laws, market, matching, steps, ProgressView};
use crate::scraper;
use crate::scraper::CardView;
use crate::text;
use vstd::prelude::*;

verus! {

// ---------------------------------------------------------------------------
// Known duplicates
// ---------------------------------------------------------------------------

/// The listing at `i` still stands for itself, and the same listings stand
/// below it.
spec fn is_left_alone(before: Seq<ListingView>, after: Seq<ListingView>, i: int) -> bool {
    &&& after.len() == before.len()
    &&& after[i].duplicate_of is None
    &&& after[i].note == before[i].note
    &&& forall|l: int|
        #![trigger after[l]]
        0 <= l < before.len() ==> after[l].id() == before[l].id() && (after[l].duplicate_of == Some(
            before[i].id(),
        ) <==> before[l].duplicate_of == Some(before[i].id()))
}

/// What a hand-over makes of the notes.
proof fn lemma_hand_over_notes(r: RecordView, old_id: Seq<char>, new_id: Seq<char>, i: int)
    requires
        0 <= i < r.listings.len(),
        old_id != new_id,
    ensures
        record::apply_writes(r, delist::hand_over(r, old_id, new_id)).listings[i].note == (
        if r.listings[i].id() == old_id {
            Some(delist::hand_over_note(new_id))
        } else {
            r.listings[i].note
        }),
{
    let ws = delist::hand_over(r, old_id, new_id);
    let moves = delist::review_moves(r, old_id, new_id);
    let l = r.listings[i];
    steps::lemma_listing_after_writes(r, ws, i);
    assert(ws =~= seq![ws[0]] + seq![ws[1]] + seq![ws[2]] + moves);
    steps::lemma_listing_after_add(l, seq![ws[0]] + seq![ws[1]] + seq![ws[2]], moves);
    steps::lemma_listing_after_add(l, seq![ws[0]] + seq![ws[1]], seq![ws[2]]);
    steps::lemma_listing_after_add(l, seq![ws[0]], seq![ws[1]]);
    steps::lemma_listing_after_one(l, ws[0]);
    let l1 = record::listing_after(l, ws[0]);
    steps::lemma_listing_after_one(l1, ws[1]);
    let l2 = record::listing_after(l1, ws[1]);
    steps::lemma_listing_after_one(l2, ws[2]);
    let l3 = record::listing_after(l2, ws[2]);
    steps::lemma_listing_after_moves(l3, r, old_id, new_id);
}

/// The turn of one representative leaves another alone.
proof fn lemma_other_turn(
    p: ProgressView,
    scraped: Seq<CardView>,
    rep: Seq<char>,
    i: int,
)
    requires
        laws::is_sound(p.record.listings),
        laws::is_representative(p.record.listings, rep),
        0 <= i < p.record.listings.len(),
        p.record.listings[i].duplicate_of is None,
        p.record.listings[i].id() != rep,
    ensures
        is_left_alone(
            p.record.listings,
            delist::succeeded(p, scraped, rep).record.listings,
            i,
        ),
{
    let a = p.record.listings;
    let b = delist::succeeded(p, scraped, rep).record.listings;
    let id = a[i].id();
    if !scraper::has_card(scraped, rep) {
        match delist::successor(a, scraped, rep) {
            Some(new_id) => {
                laws::lemma_successor_is(a, scraped, rep);
                let k = choose|k: int|
                    0 <= k < a.len() && (#[trigger] a[k]).id() == new_id && a[k].duplicate_of
                        == Some(rep);
                if new_id == id {
                    laws::lemma_same_id(a, i, k);
                }
                laws::lemma_not_own_duplicate(a, k);
                lemma_hand_over_notes(p.record, rep, new_id, i);
                steps::lemma_hand_over_effect(p.record, rep, new_id, i);
                assert forall|l: int|
                    #![trigger b[l]]
                    0 <= l < a.len() implies b[l].id() == a[l].id() && (b[l].duplicate_of == Some(id)
                    <==> a[l].duplicate_of == Some(id)) by {
                    steps::lemma_hand_over_effect(p.record, rep, new_id, l);
                    if a[l].id() == new_id {
                        laws::lemma_same_id(a, l, k);
                    }
                    if a[l].id() == rep {
                        let o = choose|o: int|
                            0 <= o < a.len() && (#[trigger] a[o]).id() == rep
                                && a[o].duplicate_of is None;
                        laws::lemma_same_id(a, l, o);
                    }
                }
            },
            None => {},
        }
    }
}

proof fn lemma_left_alone_twice(
    a: Seq<ListingView>,
    b: Seq<ListingView>,
    c: Seq<ListingView>,
    i: int,
)
    requires
        0 <= i < a.len(),
        is_left_alone(a, b, i),
        is_left_alone(b, c, i),
    ensures
        is_left_alone(a, c, i),
{
    assert(b[i].id() == a[i].id());
    assert forall|l: int|
        #![trigger c[l]]
        0 <= l < a.len() implies c[l].id() == a[l].id() && (c[l].duplicate_of == Some(a[i].id())
        <==> a[l].duplicate_of == Some(a[i].id())) by {
        assert(b[l].id() == a[l].id());
    }
}

proof fn lemma_other_turns(
    p: ProgressView,
    scraped: Seq<CardView>,
    reps: Seq<Seq<char>>,
    i: int,
)
    requires
        laws::is_sound(p.record.listings),
        reps.no_duplicates(),
        forall|k: int|
            0 <= k < reps.len() ==> laws::is_representative(p.record.listings, #[trigger] reps[k]),
        0 <= i < p.record.listings.len(),
        p.record.listings[i].duplicate_of is None,
        !reps.contains(p.record.listings[i].id()),
    ensures
        is_left_alone(
            p.record.listings,
            delist::all_succeeded(p, scraped, reps).record.listings,
            i,
        ),
    decreases reps.len(),
{
    if reps.len() > 0 {
        let front = reps.drop_last();
        let rep = reps.last();
        households::lemma_front_of_representatives(p.record.listings, reps);
        let id = p.record.listings[i].id();
        assert(reps[reps.len() - 1] == rep);
        if front.contains(id) {
            let k = front.index_of(id);
            assert(reps[k] == id);
        }
        lemma_other_turns(p, scraped, front, i);
        laws::lemma_all_succeeded_sound(p, scraped, front);
        let q = delist::all_succeeded(p, scraped, front);
        assert(q.record.listings[i].id() == id);
        assert(laws::is_representative(p.record.listings, rep));
        lemma_other_turn(q, scraped, rep, i);
        lemma_left_alone_twice(
            p.record.listings,
            q.record.listings,
            delist::succeeded(q, scraped, rep).record.listings,
            i,
        );
    }
}

/// `s` is the place of the duplicate of the listing at `i` that was found and
/// has the smallest number, and the first of those with it. An id that is no
/// number comes last.
pub open spec fn is_heir(
    listings: Seq<ListingView>,
    scraped: Seq<CardView>,
    i: int,
    s: int,
) -> bool {
    let number = |id: Seq<char>|
        match text::parsed_u64(id) {
            Some(n) => n,
            None => u64::MAX,
        };
    &&& 0 <= s < listings.len()
    &&& listings[s].duplicate_of == Some(listings[i].card.id)
    &&& exists|k: int| 0 <= k < scraped.len() && (#[trigger] scraped[k]).id == listings[s].card.id
    &&& forall|t: int, k: int|
        #![trigger listings[t], scraped[k]]
        0 <= t < listings.len() && listings[t].duplicate_of == Some(listings[i].card.id) && 0 <= k
            < scraped.len() && scraped[k].id == listings[t].card.id ==> {
            ||| number(listings[s].card.id) < number(listings[t].card.id)
            ||| number(listings[s].card.id) == number(listings[t].card.id) && s <= t
        }
}

proof fn lemma_heir_succeeds(
    before: Seq<ListingView>,
    listings: Seq<ListingView>,
    scraped: Seq<CardView>,
    i: int,
    s: int,
)
    requires
        0 <= i < before.len(),
        is_heir(before, scraped, i, s),
        is_left_alone(before, listings, i),
    ensures
        delist::successor(listings, scraped, before[i].id()) == Some(before[s].id()),
{
    let rep = before[i].id();
    assert(listings[s].id() == before[s].id());
    assert(delist::is_successor(listings, scraped, rep, s)) by {
        assert forall|j: int|
            0 <= j < listings.len() && delist::is_present_member(
                #[trigger] listings[j],
                rep,
                scraped,
            ) implies {
            ||| delist::id_number(listings[s].id()) < delist::id_number(listings[j].id())
            ||| delist::id_number(listings[s].id()) == delist::id_number(listings[j].id()) && s <= j
        } by {
            let k = choose|k: int|
                0 <= k < scraped.len() && (#[trigger] scraped[k]).id == listings[j].id();
            assert(before[j].duplicate_of == Some(rep));
            assert(scraped[k].id == before[j].card.id);
        }
    }
    let c = choose|c: int| delist::is_successor(listings, scraped, rep, c);
    assert(delist::is_successor(listings, scraped, rep, c));
    assert(delist::is_present_member(listings[c], rep, scraped));
    assert(delist::is_present_member(listings[s], rep, scraped));
    assert(c == s);
}

proof fn lemma_no_heir(
    before: Seq<ListingView>,
    listings: Seq<ListingView>,
    scraped: Seq<CardView>,
    i: int,
)
    requires
        0 <= i < before.len(),
        is_left_alone(before, listings, i),
        forall|t: int, k: int|
            #![trigger before[t], scraped[k]]
            0 <= t < before.len() && before[t].duplicate_of == Some(before[i].card.id) && 0 <= k
                < scraped.len() ==> scraped[k].id != before[t].card.id,
    ensures
        delist::successor(listings, scraped, before[i].id()) is None,
{
    let rep = before[i].id();
    if exists|c: int| delist::is_successor(listings, scraped, rep, c) {
        let c = choose|c: int| delist::is_successor(listings, scraped, rep, c);
        let k = choose|k: int|
            0 <= k < scraped.len() && (#[trigger] scraped[k]).id == listings[c].id();
        assert(before[c].duplicate_of == Some(rep));
        assert(scraped[k].id != before[c].card.id);
    }
}

/// Once a listing is handed over to its heir, the turns of others change
/// neither.
proof fn lemma_after_hand_over(
    p: ProgressView,
    scraped: Seq<CardView>,
    rep: Seq<char>,
    i: int,
    s: int,
)
    requires
        laws::is_sound(p.record.listings),
        laws::is_representative(p.record.listings, rep),
        0 <= i < p.record.listings.len(),
        0 <= s < p.record.listings.len(),
        p.record.listings[s].duplicate_of is None,
        p.record.listings[i].duplicate_of == Some(p.record.listings[s].id()),
        p.record.listings[s].id() != rep,
    ensures
        ({
            let a = p.record.listings;
            let b = delist::succeeded(p, scraped, rep).record.listings;
            &&& b.len() == a.len()
            &&& b[s].duplicate_of is None
            &&& b[s].id() == a[s].id()
            &&& b[i].id() == a[i].id()
            &&& b[i].duplicate_of == a[i].duplicate_of
            &&& b[i].note == a[i].note
        }),
{
    let a = p.record.listings;
    let b = delist::succeeded(p, scraped, rep).record.listings;
    if !scraper::has_card(scraped, rep) {
        match delist::successor(a, scraped, rep) {
            Some(new_id) => {
                laws::lemma_successor_is(a, scraped, rep);
                let k = choose|k: int|
                    0 <= k < a.len() && (#[trigger] a[k]).id() == new_id && a[k].duplicate_of
                        == Some(rep);
                laws::lemma_not_own_duplicate(a, k);
                steps::lemma_hand_over_effect(p.record, rep, new_id, i);
                steps::lemma_hand_over_effect(p.record, rep, new_id, s);
                lemma_hand_over_notes(p.record, rep, new_id, i);
                if a[i].id() == new_id {
                    laws::lemma_same_id(a, i, k);
                }
                if a[i].id() == rep {
                    let o = choose|o: int|
                        0 <= o < a.len() && (#[trigger] a[o]).id() == rep
                            && a[o].duplicate_of is None;
                    laws::lemma_same_id(a, i, o);
                }
            },
            None => {},
        }
    }
}

proof fn lemma_succession(
    p: ProgressView,
    scraped: Seq<CardView>,
    reps: Seq<Seq<char>>,
    i: int,
    s: int,
)
    requires
        laws::is_sound(p.record.listings),
        reps.no_duplicates(),
        forall|k: int|
            0 <= k < reps.len() ==> laws::is_representative(p.record.listings, #[trigger] reps[k]),
        0 <= i < p.record.listings.len(),
        p.record.listings[i].duplicate_of is None,
        reps.contains(p.record.listings[i].id()),
        !scraper::has_card(scraped, p.record.listings[i].id()),
        is_heir(p.record.listings, scraped, i, s),
    ensures
        ({
            let a = p.record.listings;
            let b = delist::all_succeeded(p, scraped, reps).record.listings;
            &&& b.len() == a.len()
            &&& b[s].duplicate_of is None
            &&& b[s].id() == a[s].id()
            &&& b[i].id() == a[i].id()
            &&& b[i].duplicate_of == Some(a[s].id())
            &&& b[i].note == Some(delist::hand_over_note(a[s].id()))
        }),
    decreases reps.len(),
{
    let a = p.record.listings;
    let id = a[i].id();
    let front = reps.drop_last();
    let rep = reps.last();
    assert(reps[reps.len() - 1] == rep);
    households::lemma_front_of_representatives(a, reps);
    laws::lemma_all_succeeded_sound(p, scraped, front);
    let q = delist::all_succeeded(p, scraped, front);
    assert(laws::is_representative(q.record.listings, rep));
    if rep == id {
        lemma_other_turns(p, scraped, front, i);
        lemma_heir_succeeds(a, q.record.listings, scraped, i, s);
        let new_id = a[s].id();
        assert(q.record.listings[s].id() == new_id);
        laws::lemma_not_own_duplicate(a, s);
        steps::lemma_hand_over_effect(q.record, id, new_id, i);
        steps::lemma_hand_over_effect(q.record, id, new_id, s);
        lemma_hand_over_notes(q.record, id, new_id, i);
        assert(q.record.listings[i].id() == id);
    } else {
        let k = reps.index_of(id);
        assert(front[k] == id);
        lemma_succession(p, scraped, front, i, s);
        assert(a[s].id() != rep) by {
            let o = choose|o: int|
                0 <= o < a.len() && (#[trigger] a[o]).id() == rep && a[o].duplicate_of is None;
            if a[s].id() == rep {
                laws::lemma_same_id(a, o, s);
            }
        }
        lemma_after_hand_over(q, scraped, rep, i, s);
    }
}

/// Where a representative is missing and nothing below it was found, its turn
/// changes nothing of it.
pub(crate) proof fn lemma_no_succession(
    r: RecordView,
    scraped: Seq<CardView>,
    i: int,
)
    requires
        laws::is_sound(r.listings),
        0 <= i < r.listings.len(),
        r.listings[i].duplicate_of is None,
        forall|t: int, k: int|
            #![trigger r.listings[t], scraped[k]]
            0 <= t < r.listings.len() && r.listings[t].duplicate_of == Some(r.listings[i].card.id)
                && 0 <= k < scraped.len() ==> scraped[k].id != r.listings[t].card.id,
    ensures
        ({
            let q = delist::all_succeeded(
                delist::started(r),
                scraped,
                delist::representatives(r.listings),
            ).record.listings;
            &&& q.len() == r.listings.len()
            &&& q[i].duplicate_of is None
            &&& q[i].id() == r.listings[i].id()
            &&& q[i].note == r.listings[i].note
        }),
{
    let start = delist::started(r);
    let reps = delist::representatives(r.listings);
    laws::lemma_representatives(r.listings);
    lemma_no_succession_upto(start, scraped, reps, i);
}

proof fn lemma_no_succession_upto(
    p: ProgressView,
    scraped: Seq<CardView>,
    reps: Seq<Seq<char>>,
    i: int,
)
    requires
        laws::is_sound(p.record.listings),
        reps.no_duplicates(),
        forall|k: int|
            0 <= k < reps.len() ==> laws::is_representative(p.record.listings, #[trigger] reps[k]),
        0 <= i < p.record.listings.len(),
        p.record.listings[i].duplicate_of is None,
        forall|t: int, k: int|
            #![trigger p.record.listings[t], scraped[k]]
            0 <= t < p.record.listings.len() && p.record.listings[t].duplicate_of == Some(
                p.record.listings[i].card.id,
            ) && 0 <= k < scraped.len() ==> scraped[k].id != p.record.listings[t].card.id,
    ensures
        is_left_alone(
            p.record.listings,
            delist::all_succeeded(p, scraped, reps).record.listings,
            i,
        ),
    decreases reps.len(),
{
    let a = p.record.listings;
    if reps.len() > 0 {
        let front = reps.drop_last();
        let rep = reps.last();
        households::lemma_front_of_representatives(a, reps);
        lemma_no_succession_upto(p, scraped, front, i);
        laws::lemma_all_succeeded_sound(p, scraped, front);
        let q = delist::all_succeeded(p, scraped, front);
        assert(q.record.listings[i].id() == a[i].id());
        if rep == a[i].id() {
            lemma_no_heir(a, q.record.listings, scraped, i);
        } else {
            assert(laws::is_representative(a, rep));
            assert(laws::is_representative(q.record.listings, rep));
            lemma_other_turn(q, scraped, rep, i);
            lemma_left_alone_twice(
                a,
                q.record.listings,
                delist::succeeded(q, scraped, rep).record.listings,
                i,
            );
        }
    }
}

/// What a card leaves of the note of a listing that was there.
pub(crate) proof fn lemma_notes_stay(
    p: ProgressView,
    scraped: Seq<CardView>,
    date: Date,
    cards: Seq<CardView>,
    i: int,
)
    requires
        laws::is_sound(p.record.listings),
        0 <= i < p.record.listings.len(),
    ensures
        ({
            let q = delist::all_taken(p, scraped, date, cards).record.listings;
            i < q.len() && q[i].note == p.record.listings[i].note
        }),
    decreases cards.len(),
{
    if cards.len() > 0 {
        let front = cards.drop_last();
        let card = cards.last();
        lemma_notes_stay(p, scraped, date, front, i);
        laws::lemma_all_taken_sound(p, scraped, date, front);
        let o = delist::all_taken(p, scraped, date, front);
        let q = delist::taken(o, scraped, date, card);
        let key = delist::card_key(card);
        if record::has_listing(o.record.listings, card.id) {
            laws::lemma_taken_known(o, scraped, date, card);
            assert(q.record.listings[i].note == o.record.listings[i].note);
        } else {
            laws::lemma_taken_new(o, scraped, date, card);
            let present = delist::first_match(o, scraped, key, true);
            let absent = delist::first_match(o, scraped, key, false);
            if present is None && absent is Some {
                lemma_id_change_notes(o.record, o.record.listings[absent->0], card, date, i);
            } else {
                let w = if present is Some {
                    delist::inserted(
                        card,
                        date,
                        Some(o.record.listings[present->0].representative()),
                        None,
                    )
                } else {
                    delist::inserted(card, date, None, None)
                };
                delist::lemma_one_write(o.record, w);
            }
        }
    }
}

proof fn lemma_id_change_notes(
    r: RecordView,
    old: ListingView,
    card: CardView,
    date: Date,
    i: int,
)
    requires
        0 <= i < r.listings.len(),
    ensures
        record::apply_writes(r, delist::id_change(r, old, card, date)).listings[i].note
            == r.listings[i].note,
{
    let ws = delist::id_change(r, old, card, date);
    let rest = ws.skip(1);
    let l = r.listings[i];
    let moves = delist::review_moves(r, old.id(), card.id);
    steps::lemma_listing_after_writes(r, ws, i);
    assert(ws =~= seq![ws[0]] + rest);
    steps::lemma_listing_after_add(l, seq![ws[0]], rest);
    steps::lemma_listing_after_one(l, ws[0]);
    if old.duplicate_of is None {
        assert(rest =~= seq![rest[0]] + seq![rest[1]] + moves);
        steps::lemma_listing_after_add(l, seq![rest[0]] + seq![rest[1]], moves);
        steps::lemma_listing_after_add(l, seq![rest[0]], seq![rest[1]]);
        steps::lemma_listing_after_one(l, rest[0]);
        let l1 = record::listing_after(l, rest[0]);
        steps::lemma_listing_after_one(l1, rest[1]);
        steps::lemma_listing_after_moves(record::listing_after(l1, rest[1]), r, old.id(), card.id);
    } else {
        assert(rest =~= seq![rest[0]] + moves);
        steps::lemma_listing_after_add(l, seq![rest[0]], moves);
        steps::lemma_listing_after_one(l, rest[0]);
        steps::lemma_listing_after_moves(record::listing_after(l, rest[0]), r, old.id(), card.id);
    }
}

/// Where a representative was not found and duplicates of it were, the one of
/// these with the smallest number represents the household after the round.
/// The old representative stands below it, with a note that says so, and so
/// does everything that stood below the old one.
pub proof fn law_smallest_found_duplicate_succeeds(
    r: RecordView,
    date: Date,
    scraped: Seq<CardView>,
    i: int,
    s: int,
    j: int,
)
    requires
        laws::is_sound(r.listings),
        0 <= i < r.listings.len(),
        r.listings[i].duplicate_of is None,
        forall|k: int| 0 <= k < scraped.len() ==> (#[trigger] scraped[k]).id
            != r.listings[i].card.id,
        is_heir(r.listings, scraped, i, s),
        0 <= j < r.listings.len(),
        r.listings[j].duplicate_of == Some(r.listings[i].card.id),
        j != s,
    ensures
        ({
            let end = delist::settled(r, date, scraped).record.listings;
            let heir = r.listings[s].card.id;
            &&& end[s].duplicate_of is None
            &&& end[i].duplicate_of == Some(heir)
            &&& end[j].duplicate_of == Some(heir)
            &&& end[i].note == Some(
                "代表轉移給 "@ + heir + "（原代表本身已從頁面消失，但同戶其他刊登仍在架）"@,
            )
        }),
{
    let start = delist::started(r);
    let reps = delist::representatives(r.listings);
    let q = delist::all_succeeded(start, scraped, reps);
    let p = delist::matched(r, date, scraped).record.listings;
    let end = delist::settled(r, date, scraped).record.listings;
    laws::lemma_representatives(r.listings);
    laws::lemma_matched_sound(r, date, scraped);
    assert(laws::is_representative(r.listings, r.listings[i].id()));
    lemma_succession(start, scraped, reps, i, s);
    let heir = r.listings[s].id();
    let k = choose|k: int|
        0 <= k < scraped.len() && (#[trigger] scraped[k]).id == r.listings[s].card.id;
    assert(scraper::has_card(scraped, heir));
    matching::lemma_found_representative_stays(q, scraped, date, scraped, s);
    lemma_notes_stay(q, scraped, date, scraped, i);
    market::lemma_all_taken_apart(q, scraped, date, scraped);
    laws::lemma_settled_listing(r, date, scraped, s);
    laws::lemma_settled_listing(r, date, scraped, i);
    steps::lemma_lengths(r, date, scraped);
    assert(p[i].representative() == p[s].representative());
    laws::law_no_listing_is_lost(r, date, scraped, i);
    laws::law_no_listing_is_lost(r, date, scraped, j);
    laws::law_no_listing_is_lost(r, date, scraped, s);
    assert(heir != r.listings[i].id()) by {
        laws::lemma_not_own_duplicate(r.listings, s);
    }
    market::law_known_households_stay_as_they_are(r, date, scraped, i, j);
    if end[j].duplicate_of is None {
        laws::law_round_keeps_record_sound(r, date, scraped);
        laws::lemma_same_id(end, j, s);
    }
}

/// A note of a listing that was known changes only where the listing was
/// handed over: where it represented its household, was not found, and a
/// duplicate of it was.
pub proof fn law_other_notes_stay(r: RecordView, date: Date, scraped: Seq<CardView>, i: int)
    requires
        laws::is_sound(r.listings),
        0 <= i < r.listings.len(),
        r.listings[i].duplicate_of is Some || (exists|k: int|
            0 <= k < scraped.len() && (#[trigger] scraped[k]).id == r.listings[i].card.id) || (
        forall|t: int, k: int|
            #![trigger r.listings[t], scraped[k]]
            0 <= t < r.listings.len() && r.listings[t].duplicate_of == Some(r.listings[i].card.id)
                && 0 <= k < scraped.len() ==> scraped[k].id != r.listings[t].card.id),
    ensures
        delist::settled(r, date, scraped).record.listings[i].note == r.listings[i].note,
{
    let start = delist::started(r);
    let reps = delist::representatives(r.listings);
    let q = delist::all_succeeded(start, scraped, reps);
    laws::lemma_representatives(r.listings);
    laws::lemma_matched_sound(r, date, scraped);
    steps::lemma_all_succeeded_shape(start, scraped, reps);
    if r.listings[i].duplicate_of is Some || scraper::has_card(scraped, r.listings[i].id()) {
        lemma_note_through_succession(start, scraped, reps, i);
    } else {
        lemma_no_succession(r, scraped, i);
    }
    lemma_notes_stay(q, scraped, date, scraped, i);
    laws::lemma_matched_carries(r, date, scraped, i);
    laws::lemma_settled_listing(r, date, scraped, i);
}

proof fn lemma_note_through_succession(
    p: ProgressView,
    scraped: Seq<CardView>,
    reps: Seq<Seq<char>>,
    i: int,
)
    requires
        laws::is_sound(p.record.listings),
        reps.no_duplicates(),
        forall|k: int|
            0 <= k < reps.len() ==> laws::is_representative(p.record.listings, #[trigger] reps[k]),
        0 <= i < p.record.listings.len(),
        p.record.listings[i].duplicate_of is Some || scraper::has_card(
            scraped,
            p.record.listings[i].id(),
        ),
    ensures
        ({
            let b = delist::all_succeeded(p, scraped, reps).record.listings;
            &&& b.len() == p.record.listings.len()
            &&& b[i].note == p.record.listings[i].note
            &&& b[i].id() == p.record.listings[i].id()
        }),
    decreases reps.len(),
{
    let a = p.record.listings;
    if reps.len() > 0 {
        let front = reps.drop_last();
        let rep = reps.last();
        households::lemma_front_of_representatives(a, reps);
        lemma_note_through_succession(p, scraped, front, i);
        laws::lemma_all_succeeded_sound(p, scraped, front);
        let q = delist::all_succeeded(p, scraped, front);
        let c = q.record.listings;
        assert(laws::is_representative(a, rep));
        assert(laws::is_representative(c, rep));
        if !scraper::has_card(scraped, rep) {
            match delist::successor(c, scraped, rep) {
                Some(new_id) => {
                    laws::lemma_successor_is(c, scraped, rep);
                    let k = choose|k: int|
                        0 <= k < c.len() && (#[trigger] c[k]).id() == new_id && c[k].duplicate_of
                            == Some(rep);
                    laws::lemma_not_own_duplicate(c, k);
                    steps::lemma_hand_over_effect(q.record, rep, new_id, i);
                    lemma_hand_over_notes(q.record, rep, new_id, i);
                    if a[i].id() == rep {
                        let o = choose|o: int|
                            0 <= o < a.len() && (#[trigger] a[o]).id() == rep
                                && a[o].duplicate_of is None;
                        laws::lemma_same_id(a, i, o);
                    }
                },
                None => {},
            }
        }
    }
}

// ---------------------------------------------------------------------------
// New cards
// ---------------------------------------------------------------------------

/// A missing representative that no card so far matches still represents.
proof fn lemma_unmatched_stays(
    r: RecordView,
    date: Date,
    scraped: Seq<CardView>,
    m: int,
    j: int,
)
    requires
        laws::is_sound(r.listings),
        0 <= m <= scraped.len(),
        0 <= j < r.listings.len(),
        r.listings[j].duplicate_of is None,
        forall|t: int, k: int|
            #![trigger r.listings[t], scraped[k]]
            0 <= t < r.listings.len() && r.listings[t].duplicate_of == Some(r.listings[j].card.id)
                && 0 <= k < scraped.len() ==> scraped[k].id != r.listings[t].card.id,
        forall|k: int|
            0 <= k < m ==> !dedup::is_same_household(
                delist::card_key(#[trigger] scraped[k]),
                delist::card_key(r.listings[j].card),
            ),
    ensures
        ({
            let q = delist::all_succeeded(
                delist::started(r),
                scraped,
                delist::representatives(r.listings),
            );
            let p = delist::all_taken(q, scraped, date, scraped.take(m)).record.listings;
            j < p.len() && p[j].duplicate_of is None && p[j].id() == r.listings[j].id()
        }),
    decreases m,
{
    let start = delist::started(r);
    let reps = delist::representatives(r.listings);
    let q = delist::all_succeeded(start, scraped, reps);
    laws::lemma_matched_sound(r, date, scraped);
    if m == 0 {
        assert(scraped.take(0) =~= Seq::empty());
        lemma_no_succession(r, scraped, j);
    } else {
        lemma_unmatched_stays(r, date, scraped, m - 1, j);
        matching::lemma_keys_have_origin(r, date, scraped, m - 1);
        let o = delist::all_taken(q, scraped, date, scraped.take(m - 1));
        let card = scraped[m - 1];
        let key = delist::card_key(card);
        assert(scraped.take(m).drop_last() =~= scraped.take(m - 1));
        assert(scraped.take(m).last() == card);
        let p = delist::taken(o, scraped, date, card);
        let a = o.record.listings;
        if record::has_listing(a, card.id) {
            laws::lemma_taken_known(o, scraped, date, card);
            assert(p.record.listings[j].id() == a[j].id());
        } else {
            laws::lemma_taken_new(o, scraped, date, card);
            assert(steps::same_contents(a[j], p.record.listings[j]));
            laws::lemma_first_match_found(o, scraped, card, false);
            let present = delist::first_match(o, scraped, key, true);
            let absent = delist::first_match(o, scraped, key, false);
            if present is None && absent is Some {
                let i = absent->0;
                assert(delist::is_match(o, scraped, key, false, i));
                assert(o.known[j] == delist::card_key(r.listings[j].card));
                assert(i != j);
                let old = a[i];
                assert(a[i].id() != a[j].id()) by {
                    if a[i].id() == a[j].id() {
                        laws::lemma_same_id(a, i, j);
                    }
                }
                steps::lemma_id_change_effect(o.record, old, card, date);
                assert(p.record.listings[j].duplicate_of == steps::place_after_id_change(
                    a[j],
                    old,
                    card,
                ));
            } else {
                let w = if present is Some {
                    delist::inserted(card, date, Some(a[present->0].representative()), None)
                } else {
                    delist::inserted(card, date, None, None)
                };
                delist::lemma_one_write(o.record, w);
                assert(p.record.listings[j] == a[j]);
            }
        }
    }
}

/// A new id takes over from the representative that it replaces. Take a card
/// with a new id that matches nothing that was found. If the first missing
/// listing that it matches represents its household, nothing below that was
/// found, and no earlier card matches it, then the card represents the
/// household after the round, with a note that names the old id; the old
/// listing stands below it; and the change is reported.
pub proof fn law_new_id_takes_over(
    r: RecordView,
    date: Date,
    scraped: Seq<CardView>,
    m: int,
    c: int,
    j: int,
)
    requires
        laws::is_sound(r.listings),
        0 <= m < scraped.len(),
        forall|k: int| 0 <= k < m ==> (#[trigger] scraped[k]).id != scraped[m].id,
        forall|i: int| 0 <= i < r.listings.len() ==> (#[trigger] r.listings[i]).card.id
            != scraped[m].id,
        0 <= c < delist::settled(r, date, scraped).record.listings.len(),
        delist::settled(r, date, scraped).record.listings[c].card.id == scraped[m].id,
        0 <= j < r.listings.len(),
        r.listings[j].duplicate_of is None,
        ({
            let of = |x: CardView|
                HouseholdView {
                    community: x.community,
                    address: x.address,
                    floor: x.floor,
                    area: x.area,
                    main_area: x.main_area,
                    age: x.age,
                };
            &&& dedup::is_same_household(of(scraped[m]), of(r.listings[j].card))
            &&& forall|k: int| 0 <= k < scraped.len() ==> (#[trigger] scraped[k]).id
                != r.listings[j].card.id
            &&& forall|t: int, k: int|
                #![trigger r.listings[t], scraped[k]]
                0 <= t < r.listings.len() && r.listings[t].duplicate_of == Some(
                    r.listings[j].card.id,
                ) && 0 <= k < scraped.len() ==> scraped[k].id != r.listings[t].card.id
            &&& forall|k: int|
                0 <= k < m ==> !dedup::is_same_household(
                    of(#[trigger] scraped[k]),
                    of(r.listings[j].card),
                ) && !dedup::is_same_household(of(scraped[m]), of(scraped[k]))
            &&& forall|i: int|
                0 <= i < r.listings.len() && (i < j || (exists|k: int|
                    0 <= k < scraped.len() && (#[trigger] scraped[k]).id == r.listings[i].card.id))
                    ==> !dedup::is_same_household(
                    of(scraped[m]),
                    of((#[trigger] r.listings[i]).card),
                )
        }),
    ensures
        ({
            let end = delist::settled(r, date, scraped).record.listings;
            &&& end[c].duplicate_of is None
            &&& end[c].note == Some(
                "由 "@ + r.listings[j].card.id + " 轉移而來（591 id 換了但內容判定為同一戶）"@,
            )
            &&& end[j].duplicate_of == Some(scraped[m].id)
            &&& delist::reconciled(r, date, scraped).id_changes.contains(
                (r.listings[j].card.id, scraped[m].id),
            )
        }),
{
    let end = delist::settled(r, date, scraped).record.listings;
    let found = delist::matched(r, date, scraped).record.listings;
    let of = |x: CardView|
        HouseholdView {
            community: x.community,
            address: x.address,
            floor: x.floor,
            area: x.area,
            main_area: x.main_area,
            age: x.age,
        };
    assert forall|x: CardView| #[trigger] of(x) == delist::card_key(x) by {}
    let start = delist::started(r);
    let reps = delist::representatives(r.listings);
    let q = delist::all_succeeded(start, scraped, reps);
    let card = scraped[m];
    let key = delist::card_key(card);
    let rest = scraped.skip(m + 1);
    assert(scraped.take(m) + seq![card] + rest =~= scraped);
    assert((scraped.take(m) + seq![card]).drop_last() =~= scraped.take(m));
    let p = delist::all_taken(q, scraped, date, scraped.take(m));
    let s = delist::taken(p, scraped, date, card);
    assert(delist::all_taken(q, scraped, date, scraped.take(m) + seq![card]) == s);
    households::lemma_all_taken_splits(q, scraped, date, scraped.take(m) + seq![card], rest);
    laws::lemma_matched_sound(r, date, scraped);
    laws::lemma_all_taken_sound(q, scraped, date, scraped.take(m) + seq![card]);
    matching::lemma_keys_have_origin(r, date, scraped, m);
    assert(laws::is_first_of_id(scraped, m));
    households::lemma_not_known_yet(r, date, scraped, m);
    assert forall|k: int| 0 <= k < m implies !dedup::is_same_household(
        delist::card_key(#[trigger] scraped[k]),
        delist::card_key(r.listings[j].card),
    ) by {
        assert(!dedup::is_same_household(of(scraped[k]), of(r.listings[j].card)));
    }
    lemma_unmatched_stays(r, date, scraped, m, j);
    let a = p.record.listings;
    let n = a.len() as int;
    // Nothing that was found matches.
    assert forall|i: int| !delist::is_match(p, scraped, key, true, i) by {
        if delist::is_match(p, scraped, key, true, i) {
            if i < r.listings.len() {
                assert(p.known[i] == of(r.listings[i].card));
                let k = choose|k: int|
                    0 <= k < scraped.len() && (#[trigger] scraped[k]).id == a[i].id();
                assert(scraped[k].id == r.listings[i].card.id);
            } else {
                assert(p.known[i] == p.known[i]);
                let k = choose|k: int|
                    0 <= k < m && p.known[i] == delist::card_key(#[trigger] scraped[k])
                        && a[i].id() == scraped[k].id && laws::is_first_of_id(scraped, k)
                        && !record::has_listing(r.listings, scraped[k].id);
                assert(!dedup::is_same_household(of(scraped[m]), of(scraped[k])));
            }
        }
    }
    assert(delist::first_match(p, scraped, key, true) is None);
    assert(p.known[j] == of(r.listings[j].card));
    assert(!scraper::has_card(scraped, a[j].id()));
    assert(delist::is_match(p, scraped, key, false, j));
    assert(delist::is_first_match(p, scraped, key, false, j)) by {
        assert forall|i: int| 0 <= i < j implies !#[trigger] delist::is_match(
            p,
            scraped,
            key,
            false,
            i,
        ) by {
            assert(p.known[i] == of(r.listings[i].card));
            assert(!dedup::is_same_household(of(scraped[m]), of((r.listings[i]).card)));
        }
    }
    delist::lemma_first_match_is(p, scraped, key, false, j);
    let old = a[j];
    steps::lemma_id_change_effect(p.record, old, card, date);
    let b = s.record.listings;
    assert(b[n] == steps::fresh_listing(
        card,
        date,
        None,
        Some(delist::id_change_note(old.id())),
    ));
    assert(b[j].duplicate_of == Some(card.id));
    assert(b[j].representative() == b[n].representative());
    assert(scraper::has_card(scraped, card.id));
    matching::lemma_found_representative_stays(s, scraped, date, rest, n);
    lemma_notes_stay(s, scraped, date, rest, n);
    market::lemma_all_taken_apart(s, scraped, date, rest);
    assert(found[j].representative() == found[n].representative());
    laws::lemma_settled_listing(r, date, scraped, n);
    laws::lemma_settled_listing(r, date, scraped, j);
    laws::law_round_keeps_record_sound(r, date, scraped);
    steps::lemma_lengths(r, date, scraped);
    laws::lemma_same_id(end, c, n);
    laws::law_no_listing_is_lost(r, date, scraped, j);
    let pair = (r.listings[j].card.id, card.id);
    assert(s.id_changes.last() == pair);
    assert(s.id_changes.contains(s.id_changes[s.id_changes.len() - 1]));
    lemma_changes_stay(s, scraped, date, rest, pair);
}

pub(crate) proof fn lemma_changes_stay(
    p: ProgressView,
    scraped: Seq<CardView>,
    date: Date,
    cards: Seq<CardView>,
    pair: (Seq<char>, Seq<char>),
)
    requires
        p.id_changes.contains(pair),
    ensures
        delist::all_taken(p, scraped, date, cards).id_changes.contains(pair),
    decreases cards.len(),
{
    if cards.len() > 0 {
        lemma_changes_stay(p, scraped, date, cards.drop_last(), pair);
        let o = delist::all_taken(p, scraped, date, cards.drop_last());
        let q = delist::taken(o, scraped, date, cards.last());
        let k = o.id_changes.index_of(pair);
        assert(q.id_changes[k] == pair);
    }
}

} // verus!

//! Which cards join which households.

use crate::date::Date;
use crate::db::models::ListingView;
use crate::db::record;
use crate::db::record::RecordView;
use crate::dedup;
use crate::dedup::HouseholdView;
use crate::delist;
use crate::delist::{households, laws, market, steps, ProgressView};
use crate::scraper;
use crate::scraper::CardView;
use vstd::prelude::*;

verus! {

/// What is compared of each listing comes from where it came from: from the
/// listing as it was when the round began, or from the card that brought it.
pub(crate) open spec fn keys_have_origin(
    r: RecordView,
    scraped: Seq<CardView>,
    p: ProgressView,
    m: int,
) -> bool {
    let n = r.listings.len() as int;
    &&& p.known.len() == p.record.listings.len()
    &&& n <= p.known.len()
    &&& forall|j: int|
        #![trigger p.known[j]]
        0 <= j < n ==> p.known[j] == delist::card_key(r.listings[j].card) && p.record.listings[j].id()
            == r.listings[j].id()
    &&& forall|j: int|
        #![trigger p.known[j]]
        n <= j < p.known.len() ==> exists|k: int|
            0 <= k < m && p.known[j] == delist::card_key(#[trigger] scraped[k])
                && p.record.listings[j].id() == scraped[k].id && laws::is_first_of_id(scraped, k)
                && !record::has_listing(r.listings, scraped[k].id)
}

pub(crate) proof fn lemma_keys_have_origin(r: RecordView, date: Date, scraped: Seq<CardView>, m: int)
    requires
        laws::is_sound(r.listings),
        0 <= m <= scraped.len(),
    ensures
        ({
            let q = delist::all_succeeded(
                delist::started(r),
                scraped,
                delist::representatives(r.listings),
            );
            let p = delist::all_taken(q, scraped, date, scraped.take(m));
            keys_have_origin(r, scraped, p, m) && laws::is_sound(p.record.listings)
        }),
    decreases m,
{
    let start = delist::started(r);
    let reps = delist::representatives(r.listings);
    let q = delist::all_succeeded(start, scraped, reps);
    laws::lemma_matched_sound(r, date, scraped);
    steps::lemma_all_succeeded_shape(start, scraped, reps);
    let p = delist::all_taken(q, scraped, date, scraped.take(m));
    laws::lemma_all_taken_sound(q, scraped, date, scraped.take(m));
    if m == 0 {
        assert(scraped.take(0) =~= Seq::empty());
        assert forall|j: int|
            #![trigger p.known[j]]
            0 <= j < r.listings.len() implies p.known[j] == delist::card_key(r.listings[j].card)
            && p.record.listings[j].id() == r.listings[j].id() by {
            laws::lemma_all_succeeded_carries(start, scraped, reps, j);
        }
    } else {
        lemma_keys_have_origin(r, date, scraped, m - 1);
        let o = delist::all_taken(q, scraped, date, scraped.take(m - 1));
        let card = scraped[m - 1];
        assert(scraped.take(m).drop_last() =~= scraped.take(m - 1));
        assert(scraped.take(m).last() == card);
        assert(p == delist::taken(o, scraped, date, card));
        let known = record::has_listing(o.record.listings, card.id);
        delist::lemma_taken_len(o, scraped, date, card);
        if known {
            laws::lemma_taken_known(o, scraped, date, card);
        } else {
            laws::lemma_taken_new(o, scraped, date, card);
        }
        assert forall|j: int| 0 <= j < o.known.len() implies #[trigger] p.known[j] == o.known[j]
            && p.record.listings[j].id() == o.record.listings[j].id() by {
            if !known {
                assert(steps::same_contents(o.record.listings[j], p.record.listings[j]));
            }
        }
        assert forall|j: int|
            #![trigger p.known[j]]
            r.listings.len() <= j < p.known.len() implies exists|k: int|
            0 <= k < m && p.known[j] == delist::card_key(#[trigger] scraped[k])
                && p.record.listings[j].id() == scraped[k].id && laws::is_first_of_id(scraped, k)
                && !record::has_listing(r.listings, scraped[k].id) by {
            if j < o.known.len() {
                assert(o.known[j] == p.known[j]);
                let k = choose|k: int|
                    0 <= k < m - 1 && o.known[j] == delist::card_key(#[trigger] scraped[k])
                        && o.record.listings[j].id() == scraped[k].id && laws::is_first_of_id(
                        scraped,
                        k,
                    ) && !record::has_listing(r.listings, scraped[k].id);
                assert(p.known[j] == delist::card_key(scraped[k]));
            } else {
                laws::lemma_all_taken_new_ids(q, scraped, date, scraped.take(m - 1));
                households::lemma_succession_keeps_ids(r, scraped, card.id);
                assert(!record::has_listing(o.record.listings, card.id));
                assert(!scraper::has_card(scraped.take(m - 1), card.id));
                assert forall|k: int| 0 <= k < m - 1 implies (#[trigger] scraped[k]).id
                    != scraped[m - 1].id by {
                    assert(scraped.take(m - 1)[k].id != card.id);
                }
                assert(laws::is_first_of_id(scraped, m - 1));
                assert(p.known[j] == delist::card_key(scraped[m - 1]));
            }
        }
    }
}

/// A representative that was found stays one.
pub(crate) proof fn lemma_found_representative_stays(
    p: ProgressView,
    scraped: Seq<CardView>,
    date: Date,
    cards: Seq<CardView>,
    i: int,
)
    requires
        laws::is_sound(p.record.listings),
        0 <= i < p.record.listings.len(),
        scraper::has_card(scraped, p.record.listings[i].id()),
    ensures
        ({
            let q = delist::all_taken(p, scraped, date, cards).record.listings;
            &&& i < q.len()
            &&& q[i].id() == p.record.listings[i].id()
            &&& q[i].duplicate_of is None <==> p.record.listings[i].duplicate_of is None
        }),
    decreases cards.len(),
{
    if cards.len() > 0 {
        let front = cards.drop_last();
        let card = cards.last();
        lemma_found_representative_stays(p, scraped, date, front, i);
        laws::lemma_all_taken_sound(p, scraped, date, front);
        let o = delist::all_taken(p, scraped, date, front);
        let q = delist::taken(o, scraped, date, card);
        if record::has_listing(o.record.listings, card.id) {
            laws::lemma_taken_known(o, scraped, date, card);
            assert(q.record.listings[i].id() == o.record.listings[i].id());
        } else {
            laws::lemma_taken_new(o, scraped, date, card);
            assert(steps::same_contents(o.record.listings[i], q.record.listings[i]));
        }
    }
}

/// What becomes of a card that the record did not know, in the state in which
/// its turn comes.
proof fn lemma_turn(p: ProgressView, scraped: Seq<CardView>, date: Date, card: CardView)
    requires
        laws::is_sound(p.record.listings),
        p.known.len() == p.record.listings.len(),
        !record::has_listing(p.record.listings, card.id),
    ensures
        ({
            let n = p.record.listings.len() as int;
            let s = delist::taken(p, scraped, date, card).record.listings;
            let key = delist::card_key(card);
            &&& s.len() == n + 1
            &&& s[n].id() == card.id
            &&& (exists|i: int| 0 <= i < n && dedup::is_same_household(key, #[trigger] p.known[i]))
                ==> exists|i: int|
                0 <= i < n && dedup::is_same_household(key, #[trigger] p.known[i])
                    && s[i].representative() == s[n].representative()
            &&& (forall|i: int|
                0 <= i < n ==> !dedup::is_same_household(key, #[trigger] p.known[i])) ==> {
                &&& s[n].duplicate_of is None
                &&& forall|i: int| 0 <= i < n ==> (#[trigger] s[i]).representative() != card.id
            }
        }),
{
    let a = p.record.listings;
    let n = a.len() as int;
    let s = delist::taken(p, scraped, date, card).record.listings;
    let key = delist::card_key(card);
    laws::lemma_taken_new(p, scraped, date, card);
    laws::lemma_first_match_found(p, scraped, card, true);
    laws::lemma_first_match_found(p, scraped, card, false);
    let present = delist::first_match(p, scraped, key, true);
    let absent = delist::first_match(p, scraped, key, false);
    match present {
        Some(i) => {
            assert(delist::is_match(p, scraped, key, true, i));
            let w = delist::inserted(card, date, Some(a[i].representative()), None);
            delist::lemma_one_write(p.record, w);
            assert(s[i] == a[i]);
            assert(dedup::is_same_household(key, p.known[i]));
        },
        None => match absent {
            Some(i) => {
                let old = a[i];
                assert(delist::is_match(p, scraped, key, false, i));
                households::lemma_id_change_moves_household(p.record, old, card, date, i);
                laws::lemma_id_change_sound(p.record, scraped, old, card, date);
                assert(dedup::is_same_household(key, p.known[i]));
                assert(s[n].representative() == s[i].representative());
            },
            None => {
                assert forall|i: int| 0 <= i < n implies !dedup::is_same_household(
                    key,
                    #[trigger] p.known[i],
                ) by {
                    if dedup::is_same_household(key, p.known[i]) {
                        let there = scraper::has_card(scraped, a[i].id());
                        assert(delist::is_match(p, scraped, key, there, i));
                        households::lemma_some_match_is_first(p, scraped, card, there, i);
                    }
                }
                let w = delist::inserted(card, date, None, None);
                delist::lemma_one_write(p.record, w);
                assert forall|i: int| 0 <= i < n implies (#[trigger] s[i]).representative()
                    != card.id by {
                    assert(s[i] == a[i]);
                    if a[i].duplicate_of is Some {
                        assert(laws::is_representative(a, a[i].duplicate_of->0));
                        let j = choose|j: int|
                            0 <= j < n && (#[trigger] a[j]).id() == a[i].duplicate_of->0
                                && a[j].duplicate_of is None;
                        assert(a[j].id() != card.id);
                    } else {
                        assert(a[i].id() != card.id);
                    }
                }
            },
        },
    }
}

/// A new card joins what it matches, and nothing else. Take a card with an id
/// that the record did not know, the first with that id. If it is one household
/// with a listing as it was when the round began, or with an earlier card whose
/// id was new too, then it ends the round in one household with such a listing
/// or card that it matches. If it is one household with none of them, it ends
/// the round as the representative of its own household, which holds none of
/// the listings that were known, and none of the cards before it.
pub proof fn law_new_card_joins_what_it_matches(
    r: RecordView,
    date: Date,
    scraped: Seq<CardView>,
    m: int,
    c: int,
)
    requires
        laws::is_sound(r.listings),
        0 <= m < scraped.len(),
        forall|k: int| 0 <= k < m ==> (#[trigger] scraped[k]).id != scraped[m].id,
        forall|j: int| 0 <= j < r.listings.len() ==> (#[trigger] r.listings[j]).card.id
            != scraped[m].id,
        0 <= c < delist::settled(r, date, scraped).record.listings.len(),
        delist::settled(r, date, scraped).record.listings[c].card.id == scraped[m].id,
    ensures
        ({
            let end = delist::settled(r, date, scraped).record.listings;
            let home = |l: ListingView|
                match l.duplicate_of {
                    Some(d) => d,
                    None => l.card.id,
                };
            let of = |x: CardView|
                HouseholdView {
                    community: x.community,
                    address: x.address,
                    floor: x.floor,
                    area: x.area,
                    main_area: x.main_area,
                    age: x.age,
                };
            let new_before = |k: int|
                0 <= k < m && (forall|h: int| 0 <= h < k ==> (#[trigger] scraped[h]).id
                    != scraped[k].id) && (forall|j: int|
                    0 <= j < r.listings.len() ==> (#[trigger] r.listings[j]).card.id
                        != scraped[k].id);
            let matches = (exists|j: int|
                0 <= j < r.listings.len() && dedup::is_same_household(
                    of(scraped[m]),
                    of((#[trigger] r.listings[j]).card),
                )) || (exists|k: int|
                #[trigger] new_before(k) && dedup::is_same_household(
                    of(scraped[m]),
                    of(scraped[k]),
                ));
            let joins = (exists|j: int|
                0 <= j < r.listings.len() && dedup::is_same_household(
                    of(scraped[m]),
                    of((#[trigger] r.listings[j]).card),
                ) && home(end[j]) == home(end[c])) || (exists|k: int, d: int|
                #![trigger new_before(k), end[d]]
                new_before(k) && dedup::is_same_household(of(scraped[m]), of(scraped[k])) && 0 <= d
                    < end.len() && end[d].card.id == scraped[k].id && home(end[d]) == home(end[c]));
            let alone = end[c].duplicate_of is None && (forall|j: int|
                0 <= j < r.listings.len() ==> home(#[trigger] end[j]) != home(end[c])) && (forall|
                k: int,
                d: int,
            |
                #![trigger scraped[k], end[d]]
                0 <= k < m && 0 <= d < end.len() && end[d].card.id == scraped[k].id ==> home(end[d])
                    != home(end[c]));
            &&& matches ==> joins
            &&& !matches ==> alone
        }),
{
    let end = delist::settled(r, date, scraped).record.listings;
    let found = delist::matched(r, date, scraped).record.listings;
    let home = |l: ListingView|
        match l.duplicate_of {
            Some(d) => d,
            None => l.card.id,
        };
    let of = |x: CardView|
        HouseholdView {
            community: x.community,
            address: x.address,
            floor: x.floor,
            area: x.area,
            main_area: x.main_area,
            age: x.age,
        };
    let new_before = |k: int|
        0 <= k < m && (forall|h: int| 0 <= h < k ==> (#[trigger] scraped[h]).id != scraped[k].id)
            && (forall|j: int| 0 <= j < r.listings.len() ==> (#[trigger] r.listings[j]).card.id
            != scraped[k].id);
    assert forall|l: ListingView| #[trigger] home(l) == l.representative() by {}
    assert forall|x: CardView| #[trigger] of(x) == delist::card_key(x) by {}
    let start = delist::started(r);
    let reps = delist::representatives(r.listings);
    let q = delist::all_succeeded(start, scraped, reps);
    let card = scraped[m];
    let key = delist::card_key(card);
    let rest = scraped.skip(m + 1);
    assert(scraped.take(m) + seq![card] + rest =~= scraped);
    assert((scraped.take(m) + seq![card]).drop_last() =~= scraped.take(m));
    let p = delist::all_taken(q, scraped, date, scraped.take(m));
    let s = delist::taken(p, scraped, date, card);
    assert(delist::all_taken(q, scraped, date, scraped.take(m) + seq![card]) == s);
    households::lemma_all_taken_splits(q, scraped, date, scraped.take(m) + seq![card], rest);
    laws::lemma_matched_sound(r, date, scraped);
    steps::lemma_all_succeeded_shape(start, scraped, reps);
    laws::lemma_all_taken_sound(q, scraped, date, scraped.take(m) + seq![card]);
    lemma_keys_have_origin(r, date, scraped, m);
    assert(laws::is_first_of_id(scraped, m));
    households::lemma_not_known_yet(r, date, scraped, m);
    lemma_turn(p, scraped, date, card);
    let n = p.record.listings.len() as int;
    market::lemma_all_taken_apart(s, scraped, date, rest);
    market::lemma_settled_apart(r, date, scraped);
    assert(scraper::has_card(scraped, card.id));
    lemma_found_representative_stays(s, scraped, date, rest, n);
    laws::lemma_settled_listing(r, date, scraped, n);
    laws::law_round_keeps_record_sound(r, date, scraped);
    steps::lemma_lengths(r, date, scraped);
    laws::lemma_same_id(end, c, n);
    assert forall|i: int| 0 <= i <= n implies (s.record.listings[i].representative()
        == s.record.listings[n].representative() <==> (#[trigger] end[i]).representative()
        == end[n].representative()) by {
        assert(found[i].representative() == found[n].representative() <==> end[i].representative()
            == end[n].representative());
        assert(s.record.listings[i].representative() == s.record.listings[n].representative()
            <==> found[i].representative() == found[n].representative());
    }
    assert forall|i: int| 0 <= i < n implies (#[trigger] end[i]).id() == p.record.listings[i].id() by {
        lemma_ids_stay(s, scraped, date, rest, i);
        laws::lemma_settled_listing(r, date, scraped, i);
        laws::lemma_taken_new(p, scraped, date, card);
        assert(steps::same_contents(p.record.listings[i], s.record.listings[i]));
    }
    let matches = (exists|j: int|
        0 <= j < r.listings.len() && dedup::is_same_household(
            of(scraped[m]),
            of((#[trigger] r.listings[j]).card),
        )) || (exists|k: int|
        #[trigger] new_before(k) && dedup::is_same_household(of(scraped[m]), of(scraped[k])));
    if matches {
        // What matches is among the keys.
        assert(exists|i: int| 0 <= i < n && dedup::is_same_household(key, #[trigger] p.known[i]))
            by {
            if exists|j: int|
                0 <= j < r.listings.len() && dedup::is_same_household(
                    of(scraped[m]),
                    of((#[trigger] r.listings[j]).card),
                ) {
                let j = choose|j: int|
                    0 <= j < r.listings.len() && dedup::is_same_household(
                        of(scraped[m]),
                        of((#[trigger] r.listings[j]).card),
                    );
                assert(p.known[j] == delist::card_key(r.listings[j].card));
            } else {
                let k = choose|k: int|
                    #[trigger] new_before(k) && dedup::is_same_household(
                        of(scraped[m]),
                        of(scraped[k]),
                    );
                let other = scraped[k].id;
                assert(laws::is_first_of_id(scraped, k));
                assert(!record::has_listing(r.listings, other));
                assert(households::matches_known(r, scraped, m, other));
                let known = households::lemma_other_is_known(r, date, scraped, m, other);
                let i = choose|i: int|
                    0 <= i < p.record.listings.len() && #[trigger] p.record.listings[i].id()
                        == other && p.known[i] == known;
                assert(dedup::is_same_household(key, p.known[i]));
            }
        }
        let i = choose|i: int|
            0 <= i < n && dedup::is_same_household(key, #[trigger] p.known[i])
                && s.record.listings[i].representative() == s.record.listings[n].representative();
        assert(end[i].representative() == end[n].representative());
        assert(home(end[i]) == home(end[c]));
        if i < r.listings.len() {
            assert(dedup::is_same_household(of(scraped[m]), of((r.listings[i]).card)));
        } else {
            let k = choose|k: int|
                0 <= k < m && p.known[i] == delist::card_key(#[trigger] scraped[k])
                    && p.record.listings[i].id() == scraped[k].id && laws::is_first_of_id(scraped, k)
                    && !record::has_listing(r.listings, scraped[k].id);
            assert forall|j: int| 0 <= j < r.listings.len() implies (
            #[trigger] r.listings[j]).card.id != scraped[k].id by {
                assert(r.listings[j].id() != scraped[k].id);
            }
            assert(new_before(k));
            assert(end[i].card.id == scraped[k].id);
        }
    } else {
        assert forall|i: int| 0 <= i < n implies !dedup::is_same_household(
            key,
            #[trigger] p.known[i],
        ) by {
            if i < r.listings.len() {
                assert(p.known[i] == of(r.listings[i].card));
            } else {
                let k = choose|k: int|
                    0 <= k < m && p.known[i] == delist::card_key(#[trigger] scraped[k])
                        && p.record.listings[i].id() == scraped[k].id && laws::is_first_of_id(
                        scraped,
                        k,
                    ) && !record::has_listing(r.listings, scraped[k].id);
                assert forall|j: int| 0 <= j < r.listings.len() implies (
                #[trigger] r.listings[j]).card.id != scraped[k].id by {
                    assert(r.listings[j].id() != scraped[k].id);
                }
                assert(new_before(k));
                assert(p.known[i] == of(scraped[k]));
            }
        }
        assert(end[c].duplicate_of is None);
        assert forall|i: int| 0 <= i < n implies home(#[trigger] end[i]) != home(end[c]) by {
            assert(s.record.listings[i].representative() != card.id);
        }
        assert forall|k: int, d: int|
            #![trigger scraped[k], end[d]]
            0 <= k < m && 0 <= d < end.len() && end[d].card.id == scraped[k].id implies home(end[d])
            != home(end[c]) by {
            laws::lemma_all_taken_new_ids(q, scraped, date, scraped.take(m));
            assert(scraped.take(m)[k].id == scraped[k].id);
            assert(scraper::has_card(scraped.take(m), scraped[k].id));
            assert(record::has_listing(p.record.listings, scraped[k].id));
            let i = choose|i: int|
                0 <= i < p.record.listings.len() && #[trigger] p.record.listings[i].id()
                    == scraped[k].id;
            assert(end[i].id() == scraped[k].id);
            laws::lemma_same_id(end, i, d);
        }
    }
}

pub(crate) proof fn lemma_ids_stay(
    p: ProgressView,
    scraped: Seq<CardView>,
    date: Date,
    cards: Seq<CardView>,
    i: int,
)
    requires
        laws::is_sound(p.record.listings),
        0 <= i < p.record.listings.len(),
    ensures
        ({
            let q = delist::all_taken(p, scraped, date, cards).record.listings;
            i < q.len() && q[i].id() == p.record.listings[i].id()
        }),
    decreases cards.len(),
{
    if cards.len() > 0 {
        let front = cards.drop_last();
        let card = cards.last();
        lemma_ids_stay(p, scraped, date, front, i);
        laws::lemma_all_taken_sound(p, scraped, date, front);
        let o = delist::all_taken(p, scraped, date, front);
        let q = delist::taken(o, scraped, date, card);
        if record::has_listing(o.record.listings, card.id) {
            laws::lemma_taken_known(o, scraped, date, card);
            assert(q.record.listings[i].id() == o.record.listings[i].id());
        } else {
            laws::lemma_taken_new(o, scraped, date, card);
            assert(steps::same_contents(o.record.listings[i], q.record.listings[i]));
        }
    }
}

} // verus!

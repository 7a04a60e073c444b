//! Which households a round takes off the market, and which it puts on it
//! again.

use crate::date::Date;
use crate::db::models::{CheckRunView, ListingView};
use crate::db::record;
use crate::db::record::RecordView;
use crate::delist;
use crate::delist::{households, laws, rounds, steps, ProgressView};
use crate::scraper;
use crate::scraper::CardView;
use vstd::prelude::*;

verus! {

// ---------------------------------------------------------------------------
// Households that were known stay apart
// ---------------------------------------------------------------------------

/// Two listings of the first list are one household in it if and only if they
/// are in the second.
pub open spec fn keeps_apart(before: Seq<ListingView>, after: Seq<ListingView>) -> bool {
    &&& before.len() <= after.len()
    &&& forall|i: int, j: int|
        #![trigger after[i], after[j]]
        0 <= i < before.len() && 0 <= j < before.len() ==> (before[i].representative()
            == before[j].representative() <==> after[i].representative()
            == after[j].representative())
}

proof fn lemma_apart_twice(a: Seq<ListingView>, b: Seq<ListingView>, c: Seq<ListingView>)
    requires
        keeps_apart(a, b),
        keeps_apart(b, c),
    ensures
        keeps_apart(a, c),
{
    assert forall|i: int, j: int|
        #![trigger c[i], c[j]]
        0 <= i < a.len() && 0 <= j < a.len() implies (a[i].representative()
        == a[j].representative() <==> c[i].representative() == c[j].representative()) by {
        assert(a[i].representative() == a[j].representative() <==> b[i].representative()
            == b[j].representative());
    }
}

/// Nothing stands below a listing that is not a representative.
proof fn lemma_only_representatives_lead(listings: Seq<ListingView>, id: Seq<char>, i: int)
    requires
        laws::is_sound(listings),
        !laws::is_representative(listings, id),
        0 <= i < listings.len(),
    ensures
        listings[i].representative() != id,
{
    if listings[i].duplicate_of is Some {
        assert(laws::is_representative(listings, listings[i].duplicate_of->0));
    } else if listings[i].id() == id {
        assert(laws::is_representative(listings, id));
    }
}

proof fn lemma_succeeded_apart(p: ProgressView, scraped: Seq<CardView>, rep: Seq<char>)
    requires
        laws::is_sound(p.record.listings),
        laws::is_representative(p.record.listings, rep),
    ensures
        keeps_apart(
            p.record.listings,
            delist::succeeded(p, scraped, rep).record.listings,
        ),
{
    let a = p.record.listings;
    let b = delist::succeeded(p, scraped, rep).record.listings;
    steps::lemma_succeeded_shape(p, scraped, rep);
    if !scraper::has_card(scraped, rep) {
        match delist::successor(a, scraped, rep) {
            Some(new_id) => {
                laws::lemma_successor_is(a, scraped, rep);
                let k = choose|k: int|
                    0 <= k < a.len() && (#[trigger] a[k]).id() == new_id && a[k].duplicate_of
                        == Some(rep);
                assert(!laws::is_representative(a, new_id)) by {
                    if laws::is_representative(a, new_id) {
                        let j = choose|j: int|
                            0 <= j < a.len() && (#[trigger] a[j]).id() == new_id
                                && a[j].duplicate_of is None;
                        laws::lemma_same_id(a, j, k);
                    }
                }
                assert forall|i: int, j: int|
                    #![trigger b[i], b[j]]
                    0 <= i < a.len() && 0 <= j < a.len() implies (a[i].representative()
                    == a[j].representative() <==> b[i].representative() == b[j].representative()) by {
                    households::lemma_hand_over_moves_household(p.record, rep, new_id, i);
                    households::lemma_hand_over_moves_household(p.record, rep, new_id, j);
                    lemma_only_representatives_lead(a, new_id, i);
                    lemma_only_representatives_lead(a, new_id, j);
                }
            },
            None => {},
        }
    }
}

proof fn lemma_all_succeeded_apart(
    p: ProgressView,
    scraped: Seq<CardView>,
    reps: Seq<Seq<char>>,
)
    requires
        laws::is_sound(p.record.listings),
        reps.no_duplicates(),
        forall|k: int|
            0 <= k < reps.len() ==> laws::is_representative(p.record.listings, #[trigger] reps[k]),
    ensures
        keeps_apart(
            p.record.listings,
            delist::all_succeeded(p, scraped, reps).record.listings,
        ),
    decreases reps.len(),
{
    if reps.len() > 0 {
        let front = reps.drop_last();
        households::lemma_front_of_representatives(p.record.listings, reps);
        lemma_all_succeeded_apart(p, scraped, front);
        laws::lemma_all_succeeded_sound(p, scraped, front);
        let q = delist::all_succeeded(p, scraped, front);
        assert(laws::is_representative(p.record.listings, reps.last()));
        lemma_succeeded_apart(q, scraped, reps.last());
        lemma_apart_twice(
            p.record.listings,
            q.record.listings,
            delist::succeeded(q, scraped, reps.last()).record.listings,
        );
    }
}

proof fn lemma_taken_apart(
    p: ProgressView,
    scraped: Seq<CardView>,
    date: Date,
    card: CardView,
)
    requires
        laws::is_sound(p.record.listings),
    ensures
        keeps_apart(
            p.record.listings,
            delist::taken(p, scraped, date, card).record.listings,
        ),
{
    let a = p.record.listings;
    let q = delist::taken(p, scraped, date, card);
    let b = q.record.listings;
    let key = delist::card_key(card);
    if record::has_listing(a, card.id) {
        laws::lemma_taken_known(p, scraped, date, card);
        assert forall|i: int| 0 <= i < a.len() implies (#[trigger] b[i]).representative()
            == a[i].representative() by {}
    } else {
        laws::lemma_taken_new(p, scraped, date, card);
        let present = delist::first_match(p, scraped, key, true);
        let absent = delist::first_match(p, scraped, key, false);
        laws::lemma_first_match_found(p, scraped, card, false);
        if present is None && absent is Some {
            let old = a[absent->0];
            assert(delist::is_match(p, scraped, key, false, absent->0));
            assert(!laws::is_representative(a, card.id)) by {
                if laws::is_representative(a, card.id) {
                    let j = choose|j: int|
                        0 <= j < a.len() && (#[trigger] a[j]).id() == card.id
                            && a[j].duplicate_of is None;
                    assert(a[j].id() == card.id);
                }
            }
            assert forall|i: int, j: int|
                #![trigger b[i], b[j]]
                0 <= i < a.len() && 0 <= j < a.len() implies (a[i].representative()
                == a[j].representative() <==> b[i].representative() == b[j].representative()) by {
                households::lemma_id_change_moves_household(p.record, old, card, date, i);
                households::lemma_id_change_moves_household(p.record, old, card, date, j);
                lemma_only_representatives_lead(a, card.id, i);
                lemma_only_representatives_lead(a, card.id, j);
            }
        } else {
            let w = if present is Some {
                delist::inserted(card, date, Some(a[present->0].representative()), None)
            } else {
                delist::inserted(card, date, None, None)
            };
            delist::lemma_one_write(p.record, w);
            assert forall|i: int| 0 <= i < a.len() implies #[trigger] b[i] == a[i] by {}
        }
    }
}

pub(crate) proof fn lemma_all_taken_apart(
    p: ProgressView,
    scraped: Seq<CardView>,
    date: Date,
    cards: Seq<CardView>,
)
    requires
        laws::is_sound(p.record.listings),
    ensures
        keeps_apart(
            p.record.listings,
            delist::all_taken(p, scraped, date, cards).record.listings,
        ),
    decreases cards.len(),
{
    if cards.len() > 0 {
        let front = cards.drop_last();
        lemma_all_taken_apart(p, scraped, date, front);
        laws::lemma_all_taken_sound(p, scraped, date, front);
        let q = delist::all_taken(p, scraped, date, front);
        lemma_taken_apart(q, scraped, date, cards.last());
        lemma_apart_twice(
            p.record.listings,
            q.record.listings,
            delist::taken(q, scraped, date, cards.last()).record.listings,
        );
    }
}

pub(crate) proof fn lemma_settled_apart(r: RecordView, date: Date, scraped: Seq<CardView>)
    requires
        laws::is_sound(r.listings),
    ensures
        keeps_apart(
            delist::matched(r, date, scraped).record.listings,
            delist::settled(r, date, scraped).record.listings,
        ),
{
    let p = delist::matched(r, date, scraped).record.listings;
    let end = delist::settled(r, date, scraped).record.listings;
    laws::lemma_matched_sound(r, date, scraped);
    steps::lemma_lengths(r, date, scraped);
    assert forall|i: int| 0 <= i < p.len() implies (#[trigger] end[i]).representative()
        == p[i].representative() by {
        laws::lemma_settled_listing(r, date, scraped, i);
    }
}

/// A round neither parts nor merges the households that were known: two
/// listings have one representative after it if and only if they had one
/// before.
pub proof fn law_known_households_stay_as_they_are(
    r: RecordView,
    date: Date,
    scraped: Seq<CardView>,
    i: int,
    j: int,
)
    requires
        laws::is_sound(r.listings),
        0 <= i < r.listings.len(),
        0 <= j < r.listings.len(),
    ensures
        ({
            let end = delist::settled(r, date, scraped).record.listings;
            let home = |l: ListingView|
                match l.duplicate_of {
                    Some(d) => d,
                    None => l.card.id,
                };
            home(r.listings[i]) == home(r.listings[j]) <==> home(end[i]) == home(end[j])
        }),
{
    let start = delist::started(r);
    let reps = delist::representatives(r.listings);
    let q = delist::all_succeeded(start, scraped, reps);
    let p = delist::matched(r, date, scraped).record.listings;
    let end = delist::settled(r, date, scraped).record.listings;
    laws::lemma_representatives(r.listings);
    laws::lemma_matched_sound(r, date, scraped);
    lemma_all_succeeded_apart(start, scraped, reps);
    lemma_all_taken_apart(q, scraped, date, scraped);
    lemma_settled_apart(r, date, scraped);
    lemma_apart_twice(r.listings, q.record.listings, p);
    lemma_apart_twice(r.listings, p, end);
    assert(end[i] == end[i] && end[j] == end[j]);
}

// ---------------------------------------------------------------------------
// Off the market and on it again
// ---------------------------------------------------------------------------

/// Among rounds there is a last one, if there is any.
proof fn lemma_latest_run_exists(runs: Seq<CheckRunView>) -> (m: Option<i64>)
    ensures
        record::is_latest_run(runs, m),
        m == record::latest_run(runs),
    decreases runs.len(),
{
    let m = if runs.len() == 0 {
        None
    } else {
        let front = runs.drop_last();
        let before = lemma_latest_run_exists(front);
        let n = runs.len() - 1;
        assert(runs[n] == runs.last());
        match before {
            None => Some(runs[n].id),
            Some(id) => {
                let k = choose|k: int| 0 <= k < front.len() && #[trigger] front[k].id == id;
                assert(runs[k].id == id);
                assert forall|i: int| 0 <= i < n implies #[trigger] runs[i].id <= id by {
                    assert(front[i].id <= id);
                }
                if id < runs[n].id {
                    Some(runs[n].id)
                } else {
                    Some(id)
                }
            },
        }
    };
    record::lemma_latest_run_unique(runs, m, record::latest_run(runs));
    m
}

/// A listing that the round added was found in it.
pub(crate) proof fn lemma_added_was_found(
    r: RecordView,
    date: Date,
    scraped: Seq<CardView>,
    i: int,
)
    requires
        laws::is_sound(r.listings),
        r.listings.len() <= i < delist::settled(r, date, scraped).record.listings.len(),
    ensures
        ({
            let end = delist::settled(r, date, scraped).record.listings;
            &&& scraper::has_card(scraped, end[i].id())
            &&& !record::has_listing(r.listings, end[i].id())
        }),
{
    let end = delist::settled(r, date, scraped).record.listings;
    laws::law_new_ids(r, date, scraped);
    laws::law_round_keeps_record_sound(r, date, scraped);
    assert(record::has_listing(end, end[i].id()));
    if record::has_listing(r.listings, end[i].id()) {
        let j = choose|j: int|
            0 <= j < r.listings.len() && #[trigger] r.listings[j].id() == end[i].id();
        laws::law_no_listing_is_lost(r, date, scraped, j);
        laws::lemma_same_id(end, i, j);
    }
}

/// What is on the market after a round. A representative is on it where the id
/// of one of its household's listings is among those found. Where none is, one
/// that was off the market stays off it as it was, and one that was on it goes
/// off it if and only if some earlier round came after the one in which it was
/// last seen. A duplicate changes only if it was itself found, and what the
/// round added is on the market.
pub proof fn law_what_is_on_the_market(
    r: RecordView,
    date: Date,
    scraped: Seq<CardView>,
    i: int,
)
    requires
        laws::is_sound(r.listings),
        0 <= i < delist::settled(r, date, scraped).record.listings.len(),
    ensures
        ({
            let end = delist::settled(r, date, scraped).record.listings;
            let was = r.listings[i];
            let found = exists|j: int, k: int|
                #![trigger end[j], scraped[k]]
                0 <= j < end.len() && 0 <= k < scraped.len() && scraped[k].id == end[j].card.id && (j
                    == i || end[j].duplicate_of == Some(end[i].card.id));
            let found_itself = exists|k: int|
                0 <= k < scraped.len() && (#[trigger] scraped[k]).id == end[i].card.id;
            let missed_before = exists|q: int|
                0 <= q < r.check_runs.len() && (match was.last_seen_check_run_id {
                    Some(seen) => seen < (#[trigger] r.check_runs[q]).id,
                    None => true,
                });
            &&& i >= r.listings.len() ==> !end[i].delisted
            &&& i < r.listings.len() && end[i].duplicate_of is None ==> {
                &&& found ==> !end[i].delisted
                &&& !found && was.delisted ==> end[i].delisted && end[i].delisted_date
                    == was.delisted_date
                &&& !found && !was.delisted && missed_before ==> end[i].delisted
                    && end[i].delisted_date == Some(date)
                &&& !found && !was.delisted && !missed_before ==> !end[i].delisted
            }
            &&& i < r.listings.len() && end[i].duplicate_of is Some ==> {
                &&& found_itself ==> !end[i].delisted
                &&& !found_itself ==> end[i].delisted == was.delisted && end[i].delisted_date
                    == was.delisted_date
            }
        }),
{
    let end = delist::settled(r, date, scraped).record.listings;
    let p = delist::matched(r, date, scraped).record;
    laws::lemma_matched_sound(r, date, scraped);
    laws::law_round_keeps_record_sound(r, date, scraped);
    steps::lemma_lengths(r, date, scraped);
    laws::lemma_settled_listing(r, date, scraped, i);
    let found_itself = exists|k: int|
        0 <= k < scraped.len() && (#[trigger] scraped[k]).id == end[i].card.id;
    assert(found_itself == scraper::has_card(scraped, end[i].id()));
    if i >= r.listings.len() {
        lemma_added_was_found(r, date, scraped, i);
    }
    if found_itself {
        rounds::lemma_found_listing_is_on_the_market(r, date, scraped, i);
    } else {
        laws::lemma_matched_carries(r, date, scraped, i);
        let was = r.listings[i];
        let found = exists|j: int, k: int|
            #![trigger end[j], scraped[k]]
            0 <= j < end.len() && 0 <= k < scraped.len() && scraped[k].id == end[j].card.id && (j
                == i || end[j].duplicate_of == Some(end[i].card.id));
        if end[i].duplicate_of is None {
            assert(found == delist::is_household_seen(p.listings, scraped, p.listings[i].id())) by {
                if found {
                    let (j, k) = choose|j: int, k: int|
                        #![trigger end[j], scraped[k]]
                        0 <= j < end.len() && 0 <= k < scraped.len() && scraped[k].id
                            == end[j].card.id && (j == i || end[j].duplicate_of == Some(
                            end[i].card.id,
                        ));
                    laws::lemma_settled_listing(r, date, scraped, j);
                    assert(scraped[k].id == p.listings[j].id());
                    assert(scraper::has_card(scraped, p.listings[j].id()));
                    assert(p.listings[j].representative() == p.listings[i].id());
                }
                if delist::is_household_seen(p.listings, scraped, p.listings[i].id()) {
                    let j = choose|j: int|
                        0 <= j < p.listings.len() && (#[trigger] p.listings[j]).representative()
                            == p.listings[i].id() && scraper::has_card(
                            scraped,
                            p.listings[j].id(),
                        );
                    laws::lemma_settled_listing(r, date, scraped, j);
                    let k = choose|k: int|
                        0 <= k < scraped.len() && (#[trigger] scraped[k]).id == p.listings[j].id();
                    if p.listings[j].duplicate_of is None {
                        laws::lemma_same_id(p.listings, i, j);
                    }
                    assert(scraped[k].id == end[j].card.id);
                }
            }
            let m = lemma_latest_run_exists(r.check_runs);
            let missed_before = exists|q: int|
                0 <= q < r.check_runs.len() && (match was.last_seen_check_run_id {
                    Some(seen) => seen < (#[trigger] r.check_runs[q]).id,
                    None => true,
                });
            assert(missed_before == delist::missed_last_time(was.last_seen_check_run_id, m)) by {
                match m {
                    Some(id) => {
                        let q = choose|q: int|
                            0 <= q < r.check_runs.len() && #[trigger] r.check_runs[q].id == id;
                        assert(r.check_runs[q].id == id);
                        if missed_before {
                            let q = choose|q: int|
                                0 <= q < r.check_runs.len() && (match was.last_seen_check_run_id {
                                    Some(seen) => seen < (#[trigger] r.check_runs[q]).id,
                                    None => true,
                                });
                            assert(r.check_runs[q].id <= id);
                        }
                    },
                    None => {},
                }
            }
        }
    }
}

/// Two misses take a household off the market. A representative that was on it,
/// that was last seen before the previous round, and none of whose household's
/// ids was found, is off the market with the day of the round, unless a card
/// that the record did not know joined the household in the round.
pub proof fn law_missing_household_is_delisted(
    r: RecordView,
    date: Date,
    scraped: Seq<CardView>,
    i: int,
    q: int,
)
    requires
        laws::is_sound(r.listings),
        0 <= i < r.listings.len(),
        r.listings[i].duplicate_of is None,
        !r.listings[i].delisted,
        0 <= q < r.check_runs.len(),
        r.listings[i].last_seen_check_run_id matches Some(seen) ==> seen < r.check_runs[q].id,
        forall|j: int, k: int|
            #![trigger r.listings[j], scraped[k]]
            0 <= j < r.listings.len() && 0 <= k < scraped.len() && (j == i
                || r.listings[j].duplicate_of == Some(r.listings[i].card.id)) ==> scraped[k].id
                != r.listings[j].card.id,
    ensures
        ({
            let end = delist::settled(r, date, scraped).record.listings;
            let home = |l: ListingView|
                match l.duplicate_of {
                    Some(d) => d,
                    None => l.card.id,
                };
            ||| end[i].duplicate_of is None && end[i].delisted && end[i].delisted_date == Some(date)
            ||| exists|n: int|
                r.listings.len() <= n < end.len() && home(#[trigger] end[n]) == home(end[i])
        }),
{
    let end = delist::settled(r, date, scraped).record.listings;
    let home = |l: ListingView|
        match l.duplicate_of {
            Some(d) => d,
            None => l.card.id,
        };
    laws::law_round_keeps_record_sound(r, date, scraped);
    laws::law_no_listing_is_lost(r, date, scraped, i);
    assert forall|l: ListingView| #[trigger] home(l) == l.representative() by {}
    if forall|n: int|
        r.listings.len() <= n < end.len() ==> home(#[trigger] end[n]) != home(end[i]) {
        households::law_new_representative_was_found(r, date, scraped, i);
        assert(end[i].representative() == r.listings[i].id()) by {
            if end[i].representative() != r.listings[i].id() {
                let n = rounds::lemma_place_of_representative(end, i);
                lemma_leader_leads_itself(end, i, n);
                assert(home(end[n]) == home(end[i]));
                assert(n < r.listings.len());
                law_known_households_stay_as_they_are(r, date, scraped, n, i);
                laws::law_no_listing_is_lost(r, date, scraped, n);
                let k = choose|k: int|
                    0 <= k < scraped.len() && (#[trigger] scraped[k]).id
                        == end[i].representative();
                lemma_in_household(r.listings, i, n);
                assert(scraped[k].id == r.listings[n].card.id);
            }
        }
        if end[i].duplicate_of is Some {
            laws::lemma_not_own_duplicate(end, i);
        }
        let found = exists|j: int, k: int|
            #![trigger end[j], scraped[k]]
            0 <= j < end.len() && 0 <= k < scraped.len() && scraped[k].id == end[j].card.id && (j
                == i || end[j].duplicate_of == Some(end[i].card.id));
        if found {
            let (j, k) = choose|j: int, k: int|
                #![trigger end[j], scraped[k]]
                0 <= j < end.len() && 0 <= k < scraped.len() && scraped[k].id == end[j].card.id && (j
                    == i || end[j].duplicate_of == Some(end[i].card.id));
            assert(home(end[j]) == home(end[i]));
            assert(j < r.listings.len());
            law_known_households_stay_as_they_are(r, date, scraped, j, i);
            laws::law_no_listing_is_lost(r, date, scraped, j);
            lemma_in_household(r.listings, i, j);
            assert(scraped[k].id == r.listings[j].card.id);
        }
        assert(match r.listings[i].last_seen_check_run_id {
            Some(seen) => seen < (r.check_runs[q]).id,
            None => true,
        });
        law_what_is_on_the_market(r, date, scraped, i);
    }
}

proof fn lemma_in_household(listings: Seq<ListingView>, i: int, j: int)
    requires
        record::distinct_ids(listings),
        0 <= i < listings.len(),
        0 <= j < listings.len(),
        listings[i].duplicate_of is None,
        listings[j].representative() == listings[i].representative(),
    ensures
        j == i || listings[j].duplicate_of == Some(listings[i].card.id),
{
    if listings[j].duplicate_of is None {
        laws::lemma_same_id(listings, i, j);
    }
}

pub(crate) proof fn lemma_leader_leads_itself(listings: Seq<ListingView>, i: int, n: int)
    requires
        laws::is_sound(listings),
        0 <= i < listings.len(),
        0 <= n < listings.len(),
        listings[n].id() == listings[i].representative(),
    ensures
        listings[n].duplicate_of is None,
        listings[n].representative() == listings[i].representative(),
{
    if listings[i].duplicate_of is None {
        laws::lemma_same_id(listings, i, n);
    } else {
        assert(laws::is_representative(listings, listings[i].duplicate_of->0));
        let j = choose|j: int|
            0 <= j < listings.len() && (#[trigger] listings[j]).id() == listings[i].duplicate_of->0
                && listings[j].duplicate_of is None;
        laws::lemma_same_id(listings, j, n);
    }
}

/// What is off the market comes back only by being found: a listing that was
/// off it before a round and is on it after has the id of a card of the round
/// in its household.
pub proof fn law_only_what_is_found_comes_back(
    r: RecordView,
    date: Date,
    scraped: Seq<CardView>,
    i: int,
)
    requires
        laws::is_sound(r.listings),
        0 <= i < r.listings.len(),
        r.listings[i].delisted,
        !delist::settled(r, date, scraped).record.listings[i].delisted,
    ensures
        ({
            let end = delist::settled(r, date, scraped).record.listings;
            exists|j: int, k: int|
                #![trigger end[j], scraped[k]]
                0 <= j < end.len() && 0 <= k < scraped.len() && scraped[k].id == end[j].card.id && (j
                    == i || end[j].duplicate_of == Some(end[i].card.id))
        }),
{
    let end = delist::settled(r, date, scraped).record.listings;
    laws::law_no_listing_is_lost(r, date, scraped, i);
    law_what_is_on_the_market(r, date, scraped, i);
    if end[i].duplicate_of is Some {
        let k = choose|k: int|
            0 <= k < scraped.len() && (#[trigger] scraped[k]).id == end[i].card.id;
        assert(scraped[k].id == end[i].card.id);
    }
}

/// The number that a round reports is that of the listings that stand for
/// themselves and are on the market.
pub proof fn law_reported_total_counts_the_market(
    r: RecordView,
    date: Date,
    scraped: Seq<CardView>,
)
    ensures
        delist::reconciled(r, date, scraped).total_active_representatives == delist::settled(
            r,
            date,
            scraped,
        ).record.listings.filter(
            |l: ListingView| l.duplicate_of is None && !l.delisted,
        ).len(),
{
    lemma_count_same(
        delist::settled(r, date, scraped).record.listings,
        record::active(),
        |l: ListingView| l.duplicate_of is None && !l.delisted,
    );
}

proof fn lemma_count_same(
    ls: Seq<ListingView>,
    f: spec_fn(ListingView) -> bool,
    g: spec_fn(ListingView) -> bool,
)
    requires
        forall|l: ListingView| #[trigger] f(l) == g(l),
    ensures
        ls.filter(f) == ls.filter(g),
    decreases ls.len(),
{
    reveal(Seq::filter);
    if ls.len() > 0 {
        lemma_count_same(ls.drop_last(), f, g);
        assert(f(ls.last()) == g(ls.last()));
    }
}

} // verus!

//! What single steps of a round do.

use crate::date::Date;
use crate::db::models::ListingView;
use crate::db::record;
use crate::db::record::{RecordView, WriteView};
use crate::delist;
use crate::delist::ProgressView;
use crate::scraper;
use crate::scraper::CardView;
use vstd::prelude::*;

verus! {

/// A write that adds no listing.
pub open spec fn adds_none(ws: Seq<WriteView>) -> bool {
    forall|i: int| 0 <= i < ws.len() ==> !(#[trigger] ws[i] is InsertListing)
}

/// What giving up and taking over a household's part leaves as it was.
pub(crate) proof fn lemma_succeeded_shape(p: ProgressView, scraped: Seq<CardView>, rep: Seq<char>)
    ensures
        delist::succeeded(p, scraped, rep).record.listings.len() == p.record.listings.len(),
        delist::succeeded(p, scraped, rep).known == p.known,
        delist::succeeded(p, scraped, rep).new_ids == p.new_ids,
{
    if !scraper::has_card(scraped, rep) {
        match delist::successor(p.record.listings, scraped, rep) {
            Some(new_id) => {
                let ws = delist::hand_over(p.record, rep, new_id);
                assert(adds_none(ws));
                delist::lemma_len_after_writes(p.record, ws);
            },
            None => {},
        }
    }
}

pub(crate) proof fn lemma_all_succeeded_shape(
    p: ProgressView,
    scraped: Seq<CardView>,
    reps: Seq<Seq<char>>,
)
    ensures
        delist::all_succeeded(p, scraped, reps).record.listings.len() == p.record.listings.len(),
        delist::all_succeeded(p, scraped, reps).known == p.known,
        delist::all_succeeded(p, scraped, reps).new_ids == p.new_ids,
    decreases reps.len(),
{
    if reps.len() > 0 {
        lemma_all_succeeded_shape(p, scraped, reps.drop_last());
        lemma_succeeded_shape(
            delist::all_succeeded(p, scraped, reps.drop_last()),
            scraped,
            reps.last(),
        );
    }
}

/// The state's record is what its writes make of the record at the start.
pub open spec fn follows_writes(r: RecordView, p: ProgressView) -> bool {
    p.record == record::apply_writes(r, p.writes)
}

pub(crate) proof fn lemma_performed_follows(r: RecordView, p: ProgressView, ws: Seq<WriteView>)
    requires
        follows_writes(r, p),
    ensures
        follows_writes(r, delist::performed(p, ws)),
{
    record::lemma_apply_writes_add(r, p.writes, ws);
}

pub(crate) proof fn lemma_all_succeeded_follows(
    r: RecordView,
    p: ProgressView,
    scraped: Seq<CardView>,
    reps: Seq<Seq<char>>,
)
    requires
        follows_writes(r, p),
    ensures
        follows_writes(r, delist::all_succeeded(p, scraped, reps)),
    decreases reps.len(),
{
    if reps.len() > 0 {
        let q = delist::all_succeeded(p, scraped, reps.drop_last());
        let rep = reps.last();
        lemma_all_succeeded_follows(r, p, scraped, reps.drop_last());
        if !scraper::has_card(scraped, rep) {
            match delist::successor(q.record.listings, scraped, rep) {
                Some(new_id) => {
                    lemma_performed_follows(r, q, delist::hand_over(q.record, rep, new_id));
                },
                None => {},
            }
        }
    }
}

/// The writes for one card.
pub open spec fn card_writes(
    p: ProgressView,
    scraped: Seq<CardView>,
    date: Date,
    card: CardView,
) -> Seq<WriteView> {
    let present = delist::first_match(p, scraped, delist::card_key(card), true);
    let absent = delist::first_match(p, scraped, delist::card_key(card), false);
    if record::has_listing(p.record.listings, card.id) {
        seq![WriteView::UpdateListing { card }]
    } else if present is Some {
        seq![
            delist::inserted(
                card,
                date,
                Some(p.record.listings[present->0].representative()),
                None,
            ),
        ]
    } else if absent is Some {
        delist::id_change(p.record, p.record.listings[absent->0], card, date)
    } else {
        seq![delist::inserted(card, date, None, None)]
    }
}

pub(crate) proof fn lemma_taken_performs(
    p: ProgressView,
    scraped: Seq<CardView>,
    date: Date,
    card: CardView,
)
    ensures
        ({
            let q = delist::taken(p, scraped, date, card);
            let ws = card_writes(p, scraped, date, card);
            &&& q.record == record::apply_writes(p.record, ws)
            &&& q.writes == p.writes + ws
        }),
{
}

pub(crate) proof fn lemma_all_taken_follows(
    r: RecordView,
    p: ProgressView,
    scraped: Seq<CardView>,
    date: Date,
    cards: Seq<CardView>,
)
    requires
        follows_writes(r, p),
    ensures
        follows_writes(r, delist::all_taken(p, scraped, date, cards)),
    decreases cards.len(),
{
    if cards.len() > 0 {
        let q = delist::all_taken(p, scraped, date, cards.drop_last());
        lemma_all_taken_follows(r, p, scraped, date, cards.drop_last());
        lemma_taken_performs(q, scraped, date, cards.last());
        lemma_performed_follows(r, q, card_writes(q, scraped, date, cards.last()));
    }
}

pub(crate) proof fn lemma_writes_lead_to_record(r: RecordView, date: Date, scraped: Seq<CardView>)
    ensures
        follows_writes(r, delist::matched(r, date, scraped)),
        follows_writes(r, delist::settled(r, date, scraped)),
{
    let start = delist::started(r);
    let reps = delist::representatives(r.listings);
    lemma_all_succeeded_follows(r, start, scraped, reps);
    lemma_all_taken_follows(
        r,
        delist::all_succeeded(start, scraped, reps),
        scraped,
        date,
        scraped,
    );
    let p = delist::matched(r, date, scraped);
    lemma_performed_follows(
        r,
        p,
        delist::delist_writes(
            delist::ids_where(p.record.listings, delist::gone(p.record, scraped)),
            date,
        ) + delist::relist_writes(
            delist::ids_where(p.record.listings, delist::back(p.record, scraped)),
        ),
    );
}

pub(crate) proof fn lemma_all_taken_lengths(
    p: ProgressView,
    scraped: Seq<CardView>,
    date: Date,
    cards: Seq<CardView>,
)
    ensures
        ({
            let q = delist::all_taken(p, scraped, date, cards);
            &&& q.record.listings.len() - p.record.listings.len() == q.known.len() - p.known.len()
            &&& q.known.len() - p.known.len() == q.new_ids.len() - p.new_ids.len()
            &&& p.new_ids.len() <= q.new_ids.len() <= p.new_ids.len() + cards.len()
        }),
    decreases cards.len(),
{
    if cards.len() > 0 {
        lemma_all_taken_lengths(p, scraped, date, cards.drop_last());
        delist::lemma_taken_len(
            delist::all_taken(p, scraped, date, cards.drop_last()),
            scraped,
            date,
            cards.last(),
        );
    }
}

/// A round adds one listing for each new id.
pub(crate) proof fn lemma_lengths(r: RecordView, date: Date, scraped: Seq<CardView>)
    ensures
        ({
            let p = delist::matched(r, date, scraped);
            let end = delist::settled(r, date, scraped);
            &&& p.record.listings.len() == r.listings.len() + p.new_ids.len()
            &&& p.known.len() == p.record.listings.len()
            &&& p.new_ids.len() <= scraped.len()
            &&& end.record.listings.len() == p.record.listings.len()
        }),
{
    let start = delist::started(r);
    let reps = delist::representatives(r.listings);
    let q = delist::all_succeeded(start, scraped, reps);
    lemma_all_succeeded_shape(start, scraped, reps);
    lemma_all_taken_lengths(q, scraped, date, scraped);
    let p = delist::matched(r, date, scraped);
    let out = delist::delist_writes(
        delist::ids_where(p.record.listings, delist::gone(p.record, scraped)),
        date,
    );
    let again = delist::relist_writes(
        delist::ids_where(p.record.listings, delist::back(p.record, scraped)),
    );
    assert(adds_none(out + again));
    delist::lemma_len_after_writes(p.record, out + again);
}

// ---------------------------------------------------------------------------
// What single steps do to a listing
// ---------------------------------------------------------------------------

pub open spec fn listing_after_all(l: ListingView, ws: Seq<WriteView>) -> ListingView
    decreases ws.len(),
{
    if ws.len() == 0 {
        l
    } else {
        record::listing_after(listing_after_all(l, ws.drop_last()), ws.last())
    }
}

pub(crate) proof fn lemma_listing_after_add(l: ListingView, a: Seq<WriteView>, b: Seq<WriteView>)
    ensures
        listing_after_all(l, a + b) == listing_after_all(listing_after_all(l, a), b),
    decreases b.len(),
{
    if b.len() == 0 {
        assert(a + b =~= a);
    } else {
        assert((a + b).drop_last() =~= a + b.drop_last());
        lemma_listing_after_add(l, a, b.drop_last());
    }
}

/// Listings stay where they are, and each is changed by each write.
pub(crate) proof fn lemma_listing_after_writes(r: RecordView, ws: Seq<WriteView>, i: int)
    requires
        0 <= i < r.listings.len(),
    ensures
        i < record::apply_writes(r, ws).listings.len(),
        record::apply_writes(r, ws).listings[i] == listing_after_all(r.listings[i], ws),
        record::apply_writes(r, ws).check_runs == r.check_runs,
    decreases ws.len(),
{
    if ws.len() > 0 {
        lemma_listing_after_writes(r, ws.drop_last(), i);
    }
}

pub(crate) proof fn lemma_check_runs_after_writes(r: RecordView, ws: Seq<WriteView>)
    ensures
        record::apply_writes(r, ws).check_runs == r.check_runs,
    decreases ws.len(),
{
    if ws.len() > 0 {
        lemma_check_runs_after_writes(r, ws.drop_last());
    }
}

pub(crate) proof fn lemma_listing_after_one(l: ListingView, w: WriteView)
    ensures
        listing_after_all(l, seq![w]) == record::listing_after(l, w),
{
    reveal_with_fuel(listing_after_all, 2);
    assert(seq![w].drop_last() =~= Seq::<WriteView>::empty());
}

pub(crate) proof fn lemma_listing_after_moves(
    l: ListingView,
    r: RecordView,
    old_id: Seq<char>,
    new_id: Seq<char>,
)
    ensures
        listing_after_all(l, delist::review_moves(r, old_id, new_id)) == l,
{
    let ws = delist::review_moves(r, old_id, new_id);
    if ws.len() > 0 {
        assert(ws =~= seq![ws[0]] + seq![ws[1]]);
        lemma_listing_after_add(l, seq![ws[0]], seq![ws[1]]);
        lemma_listing_after_one(l, ws[0]);
        lemma_listing_after_one(l, ws[1]);
    }
}

/// Two states of a listing that differ in whose duplicate it is and in its
/// note at most.
pub open spec fn same_contents(l: ListingView, m: ListingView) -> bool {
    &&& l.card == m.card
    &&& l.first_seen == m.first_seen
    &&& l.delisted == m.delisted
    &&& l.delisted_date == m.delisted_date
    &&& l.last_seen_check_run_id == m.last_seen_check_run_id
}

/// Whose duplicate a listing is once `new_id` has taken the place of `old_id`.
pub open spec fn place_after_hand_over(
    l: ListingView,
    old_id: Seq<char>,
    new_id: Seq<char>,
) -> Option<Seq<char>> {
    if l.id() == new_id {
        None
    } else if l.id() == old_id || l.duplicate_of == Some(old_id) {
        Some(new_id)
    } else {
        l.duplicate_of
    }
}

pub(crate) proof fn lemma_hand_over_effect(
    r: RecordView,
    old_id: Seq<char>,
    new_id: Seq<char>,
    i: int,
)
    requires
        0 <= i < r.listings.len(),
    ensures
        ({
            let after = record::apply_writes(r, delist::hand_over(r, old_id, new_id));
            &&& after.listings.len() == r.listings.len()
            &&& same_contents(r.listings[i], after.listings[i])
            &&& after.listings[i].duplicate_of == place_after_hand_over(
                r.listings[i],
                old_id,
                new_id,
            )
        }),
{
    let ws = delist::hand_over(r, old_id, new_id);
    let moves = delist::review_moves(r, old_id, new_id);
    let l = r.listings[i];
    assert(adds_none(ws));
    delist::lemma_len_after_writes(r, ws);
    lemma_listing_after_writes(r, ws, i);
    assert(ws =~= seq![ws[0]] + seq![ws[1]] + seq![ws[2]] + moves);
    lemma_listing_after_add(l, seq![ws[0]] + seq![ws[1]] + seq![ws[2]], moves);
    lemma_listing_after_add(l, seq![ws[0]] + seq![ws[1]], seq![ws[2]]);
    lemma_listing_after_add(l, seq![ws[0]], seq![ws[1]]);
    lemma_listing_after_one(l, ws[0]);
    let l1 = record::listing_after(l, ws[0]);
    lemma_listing_after_one(l1, ws[1]);
    let l2 = record::listing_after(l1, ws[1]);
    lemma_listing_after_one(l2, ws[2]);
    let l3 = record::listing_after(l2, ws[2]);
    lemma_listing_after_moves(l3, r, old_id, new_id);
}

/// Whose duplicate a listing is once the card has taken over the part of
/// `old`.
pub open spec fn place_after_id_change(
    l: ListingView,
    old: ListingView,
    card: CardView,
) -> Option<Seq<char>> {
    if l.id() == old.id() {
        Some(if old.duplicate_of is None { card.id } else { old.duplicate_of->0 })
    } else if old.duplicate_of is None && l.duplicate_of == Some(old.id()) {
        Some(card.id)
    } else {
        l.duplicate_of
    }
}

pub(crate) proof fn lemma_id_change_on(
    r: RecordView,
    old: ListingView,
    card: CardView,
    date: Date,
    l: ListingView,
)
    ensures
        ({
            let ws = delist::id_change(r, old, card, date);
            &&& same_contents(l, listing_after_all(l, ws.skip(1)))
            &&& listing_after_all(l, ws.skip(1)).duplicate_of == place_after_id_change(
                l,
                old,
                card,
            )
            &&& listing_after_all(l, ws) == listing_after_all(l, ws.skip(1))
            &&& adds_none(ws.skip(1))
        }),
{
    let ws = delist::id_change(r, old, card, date);
    let rest = ws.skip(1);
    let moves = delist::review_moves(r, old.id(), card.id);
    assert(ws =~= seq![ws[0]] + rest);
    lemma_listing_after_add(l, seq![ws[0]], rest);
    lemma_listing_after_one(l, ws[0]);
    if old.duplicate_of is None {
        assert(rest =~= seq![rest[0]] + seq![rest[1]] + moves);
        lemma_listing_after_add(l, seq![rest[0]] + seq![rest[1]], moves);
        lemma_listing_after_add(l, seq![rest[0]], seq![rest[1]]);
        lemma_listing_after_one(l, rest[0]);
        let l1 = record::listing_after(l, rest[0]);
        lemma_listing_after_one(l1, rest[1]);
        lemma_listing_after_moves(record::listing_after(l1, rest[1]), r, old.id(), card.id);
    } else {
        assert(rest =~= seq![rest[0]] + moves);
        lemma_listing_after_add(l, seq![rest[0]], moves);
        lemma_listing_after_one(l, rest[0]);
        lemma_listing_after_moves(record::listing_after(l, rest[0]), r, old.id(), card.id);
    }
}

/// The listing that an insertion adds.
pub open spec fn fresh_listing(
    card: CardView,
    date: Date,
    duplicate_of: Option<Seq<char>>,
    note: Option<Seq<char>>,
) -> ListingView {
    ListingView {
        card,
        first_seen: date,
        duplicate_of,
        delisted: false,
        delisted_date: None,
        note,
        last_seen_check_run_id: None,
    }
}

pub(crate) proof fn lemma_id_change_effect(
    r: RecordView,
    old: ListingView,
    card: CardView,
    date: Date,
)
    requires
        !record::has_listing(r.listings, card.id),
        exists|k: int| 0 <= k < r.listings.len() && r.listings[k] == old,
    ensures
        ({
            let n = r.listings.len() as int;
            let after = record::apply_writes(r, delist::id_change(r, old, card, date)).listings;
            &&& after.len() == n + 1
            &&& forall|i: int|
                #![trigger after[i]]
                0 <= i < n ==> same_contents(r.listings[i], after[i]) && after[i].duplicate_of
                    == place_after_id_change(r.listings[i], old, card)
            &&& after[n] == fresh_listing(
                card,
                date,
                if old.duplicate_of is Some && old.duplicate_of->0 != card.id {
                    old.duplicate_of
                } else {
                    None
                },
                Some(delist::id_change_note(old.id())),
            )
        }),
{
    let k = choose|k: int| 0 <= k < r.listings.len() && r.listings[k] == old;
    assert(r.listings[k].id() == old.id());
    assert(old.id() != card.id);
    let n = r.listings.len() as int;
    let ws = delist::id_change(r, old, card, date);
    let rest = ws.skip(1);
    let after = record::apply_writes(r, ws).listings;
    let r1 = record::apply_write(r, ws[0]);
    assert(ws =~= seq![ws[0]] + rest);
    record::lemma_apply_writes_add(r, seq![ws[0]], rest);
    delist::lemma_one_write(r, ws[0]);
    lemma_id_change_on(r, old, card, date, old);
    delist::lemma_len_after_writes(r1, rest);
    assert forall|i: int| #![trigger after[i]] 0 <= i < n implies same_contents(
        r.listings[i],
        after[i],
    ) && after[i].duplicate_of == place_after_id_change(r.listings[i], old, card) by {
        lemma_listing_after_writes(r, ws, i);
        lemma_id_change_on(r, old, card, date, r.listings[i]);
    }
    let fresh = r1.listings[n];
    lemma_listing_after_writes(r1, rest, n);
    lemma_id_change_on(r, old, card, date, fresh);
    lemma_fresh_untouched(r, old, card, date, fresh);
}

/// The writes that follow the insertion leave the inserted listing alone.
pub(crate) proof fn lemma_fresh_untouched(
    r: RecordView,
    old: ListingView,
    card: CardView,
    date: Date,
    fresh: ListingView,
)
    requires
        fresh.id() == card.id,
        old.id() != card.id,
        old.duplicate_of is None ==> fresh.duplicate_of is None,
    ensures
        listing_after_all(fresh, delist::id_change(r, old, card, date).skip(1)) == fresh,
{
    let rest = delist::id_change(r, old, card, date).skip(1);
    let moves = delist::review_moves(r, old.id(), card.id);
    if old.duplicate_of is None {
        assert(rest =~= seq![rest[0]] + seq![rest[1]] + moves);
        lemma_listing_after_add(fresh, seq![rest[0]] + seq![rest[1]], moves);
        lemma_listing_after_add(fresh, seq![rest[0]], seq![rest[1]]);
        lemma_listing_after_one(fresh, rest[0]);
        lemma_listing_after_one(fresh, rest[1]);
    } else {
        assert(rest =~= seq![rest[0]] + moves);
        lemma_listing_after_add(fresh, seq![rest[0]], moves);
        lemma_listing_after_one(fresh, rest[0]);
    }
    lemma_listing_after_moves(fresh, r, old.id(), card.id);
}

} // verus!

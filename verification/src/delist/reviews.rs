//! What a round does to reviews.

use crate::date::Date;
use crate::db::models::{ListingView, ReviewView};
use crate::db::record;
use crate::db::record::{RecordView, WriteView};
use crate::delist;
use crate::delist::{households, laws, steps, ProgressView};
use crate::scraper;
use crate::scraper::CardView;
use vstd::prelude::*;

verus! {


pub open spec fn reviews_after_all(
    reviews: Map<Seq<char>, ReviewView>,
    ws: Seq<WriteView>,
) -> Map<Seq<char>, ReviewView>
    decreases ws.len(),
{
    if ws.len() == 0 {
        reviews
    } else {
        record::reviews_after(reviews_after_all(reviews, ws.drop_last()), ws.last())
    }
}

pub(crate) proof fn lemma_reviews_after_writes(r: RecordView, ws: Seq<WriteView>)
    ensures
        record::apply_writes(r, ws).reviews == reviews_after_all(r.reviews, ws),
    decreases ws.len(),
{
    if ws.len() > 0 {
        lemma_reviews_after_writes(r, ws.drop_last());
    }
}

pub(crate) proof fn lemma_reviews_after_add(
    reviews: Map<Seq<char>, ReviewView>,
    a: Seq<WriteView>,
    b: Seq<WriteView>,
)
    ensures
        reviews_after_all(reviews, a + b) == reviews_after_all(reviews_after_all(reviews, a), b),
    decreases b.len(),
{
    if b.len() == 0 {
        assert(a + b =~= a);
    } else {
        assert((a + b).drop_last() =~= a + b.drop_last());
        lemma_reviews_after_add(reviews, a, b.drop_last());
    }
}

/// A write that is not about a review.
pub open spec fn spares_reviews(w: WriteView) -> bool {
    !(w is SaveReview) && !(w is SaveReason) && !(w is DeleteReview)
}

pub(crate) proof fn lemma_reviews_spared(reviews: Map<Seq<char>, ReviewView>, ws: Seq<WriteView>)
    requires
        forall|i: int| 0 <= i < ws.len() ==> spares_reviews(#[trigger] ws[i]),
    ensures
        reviews_after_all(reviews, ws) == reviews,
    decreases ws.len(),
{
    if ws.len() > 0 {
        lemma_reviews_spared(reviews, ws.drop_last());
        assert(spares_reviews(ws[ws.len() - 1]));
    }
}

/// The reviews once one has moved from `old_id` to `new_id`.
pub open spec fn reviews_moved(
    reviews: Map<Seq<char>, ReviewView>,
    old_id: Seq<char>,
    new_id: Seq<char>,
) -> Map<Seq<char>, ReviewView> {
    if reviews.contains_key(old_id) {
        reviews.insert(new_id, reviews[old_id]).remove(old_id)
    } else {
        reviews
    }
}

/// Writes that spare reviews, followed by the move of one.
pub(crate) proof fn lemma_reviews_move(
    r: RecordView,
    ws: Seq<WriteView>,
    old_id: Seq<char>,
    new_id: Seq<char>,
)
    requires
        forall|i: int| 0 <= i < ws.len() ==> spares_reviews(#[trigger] ws[i]),
    ensures
        record::apply_writes(r, ws + delist::review_moves(r, old_id, new_id)).reviews
            == reviews_moved(r.reviews, old_id, new_id),
{
    let moves = delist::review_moves(r, old_id, new_id);
    lemma_reviews_after_writes(r, ws + moves);
    lemma_reviews_after_add(r.reviews, ws, moves);
    lemma_reviews_spared(r.reviews, ws);
    if moves.len() > 0 {
        reveal_with_fuel(reviews_after_all, 3);
        assert(moves.drop_last() =~= seq![moves[0]]);
        assert(moves.drop_last().drop_last() =~= Seq::<WriteView>::empty());
        assert(reviews_after_all(r.reviews, moves) == r.reviews.insert(
            new_id,
            r.reviews[old_id],
        ).remove(old_id));
    }
}

pub(crate) proof fn lemma_hand_over_reviews(r: RecordView, old_id: Seq<char>, new_id: Seq<char>)
    ensures
        record::apply_writes(r, delist::hand_over(r, old_id, new_id)).reviews == reviews_moved(
            r.reviews,
            old_id,
            new_id,
        ),
{
    let all = delist::hand_over(r, old_id, new_id);
    let ws = all.take(3);
    assert(all =~= ws + delist::review_moves(r, old_id, new_id));
    lemma_reviews_move(r, ws, old_id, new_id);
}

pub(crate) proof fn lemma_id_change_reviews(
    r: RecordView,
    old: ListingView,
    card: CardView,
    date: Date,
)
    ensures
        record::apply_writes(r, delist::id_change(r, old, card, date)).reviews == reviews_moved(
            r.reviews,
            old.id(),
            card.id,
        ),
{
    let all = delist::id_change(r, old, card, date);
    let n: int = if old.duplicate_of is None { 3 } else { 2 };
    let ws = all.take(n);
    assert(all =~= ws + delist::review_moves(r, old.id(), card.id));
    lemma_reviews_move(r, ws, old.id(), card.id);
}

/// The review that a listing not found in the round had at its start is with
/// that listing still, or with the one that took over its part.
pub open spec fn is_review_kept(
    p: ProgressView,
    scraped: Seq<CardView>,
    id: Seq<char>,
    review: ReviewView,
) -> bool {
    ||| p.record.reviews.contains_key(id) && p.record.reviews[id] == review
    ||| exists|k: int|
        0 <= k < p.id_changes.len() && (#[trigger] p.id_changes[k]).0 == id
            && p.record.reviews.contains_key(p.id_changes[k].1)
            && p.record.reviews[p.id_changes[k].1] == review && scraper::has_card(
            scraped,
            p.id_changes[k].1,
        )
}

/// The review of a listing found in the round is there still, unless the
/// review of a listing whose part it took over came in its place.
pub open spec fn is_own_review_kept(
    p: ProgressView,
    id: Seq<char>,
    review: ReviewView,
) -> bool {
    &&& p.record.reviews.contains_key(id)
    &&& p.record.reviews[id] == review || exists|k: int|
        0 <= k < p.id_changes.len() && (#[trigger] p.id_changes[k]).1 == id
}

/// While representatives are looked at, what took over a part represents its
/// household.
pub open spec fn heirs_represent(p: ProgressView) -> bool {
    forall|k: int|
        0 <= k < p.id_changes.len() ==> laws::is_representative(
            p.record.listings,
            (#[trigger] p.id_changes[k]).1,
        )
}

pub(crate) proof fn lemma_succeeded_reviews(
    p: ProgressView,
    scraped: Seq<CardView>,
    rep: Seq<char>,
    id: Seq<char>,
    review: ReviewView,
)
    requires
        laws::is_sound(p.record.listings),
        laws::is_representative(p.record.listings, rep),
        heirs_represent(p),
        forall|k: int|
            0 <= k < p.id_changes.len() ==> scraper::has_card(
                scraped,
                (#[trigger] p.id_changes[k]).1,
            ),
    ensures
        ({
            let q = delist::succeeded(p, scraped, rep);
            &&& heirs_represent(q)
            &&& forall|k: int|
                0 <= k < q.id_changes.len() ==> scraper::has_card(
                    scraped,
                    (#[trigger] q.id_changes[k]).1,
                )
            &&& !scraper::has_card(scraped, id) && is_review_kept(p, scraped, id, review)
                ==> is_review_kept(q, scraped, id, review)
            &&& scraper::has_card(scraped, id) && is_own_review_kept(p, id, review)
                ==> is_own_review_kept(q, id, review)
        }),
{
    let q = delist::succeeded(p, scraped, rep);
    let a = p.record.listings;
    if !scraper::has_card(scraped, rep) {
        match delist::successor(a, scraped, rep) {
            Some(new_id) => {
                laws::lemma_successor_is(a, scraped, rep);
                laws::lemma_hand_over_sound(p.record, rep, new_id);
                lemma_hand_over_reviews(p.record, rep, new_id);
                let n = p.id_changes.len() as int;
                assert(q.id_changes[n] == (rep, new_id));
                assert forall|k: int| 0 <= k < q.id_changes.len() implies laws::is_representative(
                    q.record.listings,
                    (#[trigger] q.id_changes[k]).1,
                ) && scraper::has_card(scraped, q.id_changes[k].1) by {
                    if k < n {
                        assert(q.id_changes[k] == p.id_changes[k]);
                        assert(laws::is_representative(a, p.id_changes[k].1));
                        assert(p.id_changes[k].1 != rep);
                    }
                }
                if !scraper::has_card(scraped, id) && is_review_kept(p, scraped, id, review) {
                    if p.record.reviews.contains_key(id) && p.record.reviews[id] == review {
                        if id == rep {
                            assert(q.record.reviews[new_id] == review);
                            assert(q.id_changes[n].0 == id);
                        }
                    } else {
                        let k = choose|k: int|
                            0 <= k < n && (#[trigger] p.id_changes[k]).0 == id
                                && p.record.reviews.contains_key(p.id_changes[k].1)
                                && p.record.reviews[p.id_changes[k].1] == review
                                && scraper::has_card(scraped, p.id_changes[k].1);
                        assert(q.id_changes[k] == p.id_changes[k]);
                        assert(laws::is_representative(a, p.id_changes[k].1));
                        lemma_heir_differs(a, p.id_changes[k].1, new_id, rep);
                    }
                }
                if scraper::has_card(scraped, id) && is_own_review_kept(p, id, review) {
                    if p.record.reviews[id] != review {
                        let k = choose|k: int|
                            0 <= k < n && (#[trigger] p.id_changes[k]).1 == id;
                        assert(q.id_changes[k].1 == id);
                    } else if id == new_id {
                        assert(q.id_changes[n].1 == id);
                    }
                }
            },
            None => {},
        }
    }
}

/// A representative is not a duplicate.
pub(crate) proof fn lemma_heir_differs(
    listings: Seq<ListingView>,
    heir: Seq<char>,
    member: Seq<char>,
    rep: Seq<char>,
)
    requires
        record::distinct_ids(listings),
        laws::is_representative(listings, heir),
        exists|k: int|
            0 <= k < listings.len() && (#[trigger] listings[k]).id() == member
                && listings[k].duplicate_of == Some(rep),
    ensures
        heir != member,
{
    let k = choose|k: int|
        0 <= k < listings.len() && (#[trigger] listings[k]).id() == member
            && listings[k].duplicate_of == Some(rep);
    let j = choose|j: int|
        0 <= j < listings.len() && (#[trigger] listings[j]).id() == heir
            && listings[j].duplicate_of is None;
    if heir == member {
        laws::lemma_same_id(listings, j, k);
    }
}

pub(crate) proof fn lemma_all_succeeded_reviews(
    p: ProgressView,
    scraped: Seq<CardView>,
    reps: Seq<Seq<char>>,
    id: Seq<char>,
    review: ReviewView,
)
    requires
        laws::is_sound(p.record.listings),
        reps.no_duplicates(),
        forall|k: int| 0 <= k < reps.len() ==> laws::is_representative(p.record.listings, #[trigger] reps[k]),
        p.id_changes.len() == 0,
    ensures
        ({
            let q = delist::all_succeeded(p, scraped, reps);
            &&& heirs_represent(q)
            &&& forall|k: int|
                0 <= k < q.id_changes.len() ==> scraper::has_card(
                    scraped,
                    (#[trigger] q.id_changes[k]).1,
                )
            &&& !scraper::has_card(scraped, id) && is_review_kept(p, scraped, id, review)
                ==> is_review_kept(q, scraped, id, review)
            &&& scraper::has_card(scraped, id) && is_own_review_kept(p, id, review)
                ==> is_own_review_kept(q, id, review)
        }),
    decreases reps.len(),
{
    if reps.len() > 0 {
        let front = reps.drop_last();
        households::lemma_front_of_representatives(p.record.listings, reps);
        lemma_all_succeeded_reviews(p, scraped, front, id, review);
        laws::lemma_all_succeeded_sound(p, scraped, front);
        assert(laws::is_representative(p.record.listings, reps.last()));
        lemma_succeeded_reviews(
            delist::all_succeeded(p, scraped, front),
            scraped,
            reps.last(),
            id,
            review,
        );
    }
}

/// What took over a part is known.
pub open spec fn heirs_are_known(p: ProgressView) -> bool {
    forall|k: int|
        0 <= k < p.id_changes.len() ==> record::has_listing(
            p.record.listings,
            (#[trigger] p.id_changes[k]).1,
        )
}

pub(crate) proof fn lemma_reviews_untouched(
    p: ProgressView,
    q: ProgressView,
    scraped: Seq<CardView>,
    id: Seq<char>,
    review: ReviewView,
)
    requires
        q.id_changes == p.id_changes,
        q.record.reviews == p.record.reviews,
    ensures
        is_review_kept(p, scraped, id, review) == is_review_kept(q, scraped, id, review),
        is_own_review_kept(p, id, review) == is_own_review_kept(q, id, review),
{
}

pub(crate) proof fn lemma_taken_reviews(
    p: ProgressView,
    scraped: Seq<CardView>,
    date: Date,
    card: CardView,
    id: Seq<char>,
    review: ReviewView,
)
    requires
        laws::is_sound(p.record.listings),
        heirs_are_known(p),
        scraper::has_card(scraped, card.id),
    ensures
        ({
            let q = delist::taken(p, scraped, date, card);
            &&& heirs_are_known(q)
            &&& !scraper::has_card(scraped, id) && is_review_kept(p, scraped, id, review)
                ==> is_review_kept(q, scraped, id, review)
            &&& scraper::has_card(scraped, id) && is_own_review_kept(p, id, review)
                ==> is_own_review_kept(q, id, review)
        }),
{
    let q = delist::taken(p, scraped, date, card);
    let a = p.record.listings;
    let b = q.record.listings;
    let key = delist::card_key(card);
    let n = p.id_changes.len() as int;
    if record::has_listing(a, card.id) {
        laws::lemma_taken_known(p, scraped, date, card);
        lemma_reviews_untouched(p, q, scraped, id, review);
        assert forall|x: Seq<char>| #[trigger] record::has_listing(a, x) implies record::has_listing(
            b,
            x,
        ) by {
            let k = choose|k: int| 0 <= k < a.len() && #[trigger] a[k].id() == x;
            assert(b[k].id() == x);
        }
    } else {
        laws::lemma_taken_new(p, scraped, date, card);
        assert(b[a.len() as int].id() == card.id);
        assert forall|x: Seq<char>| #[trigger] record::has_listing(a, x) implies record::has_listing(
            b,
            x,
        ) by {
            let k = choose|k: int| 0 <= k < a.len() && #[trigger] a[k].id() == x;
            assert(steps::same_contents(a[k], b[k]));
            assert(b[k].id() == x);
        }
        laws::lemma_first_match_found(p, scraped, card, false);
        let present = delist::first_match(p, scraped, key, true);
        let absent = delist::first_match(p, scraped, key, false);
        if present is None && absent is Some {
            let old = a[absent->0];
            assert(delist::is_match(p, scraped, key, false, absent->0));
            lemma_id_change_reviews(p.record, old, card, date);
            assert(q.id_changes[n] == (old.id(), card.id));
            if !scraper::has_card(scraped, id) && is_review_kept(p, scraped, id, review) {
                if p.record.reviews.contains_key(id) && p.record.reviews[id] == review {
                    if id == old.id() {
                        assert(q.record.reviews[card.id] == review);
                        assert(q.id_changes[n].0 == id);
                    }
                } else {
                    let k = choose|k: int|
                        0 <= k < n && (#[trigger] p.id_changes[k]).0 == id
                            && p.record.reviews.contains_key(p.id_changes[k].1)
                            && p.record.reviews[p.id_changes[k].1] == review && scraper::has_card(
                            scraped,
                            p.id_changes[k].1,
                        );
                    assert(q.id_changes[k] == p.id_changes[k]);
                    assert(record::has_listing(a, p.id_changes[k].1));
                }
            }
            if scraper::has_card(scraped, id) && is_own_review_kept(p, id, review) {
                if p.record.reviews[id] != review {
                    let k = choose|k: int| 0 <= k < n && (#[trigger] p.id_changes[k]).1 == id;
                    assert(q.id_changes[k].1 == id);
                } else if id == card.id {
                    assert(q.id_changes[n].1 == id);
                }
            }
        } else {
            let w = if present is Some {
                delist::inserted(card, date, Some(a[present->0].representative()), None)
            } else {
                delist::inserted(card, date, None, None)
            };
            delist::lemma_one_write(p.record, w);
            lemma_reviews_untouched(p, q, scraped, id, review);
        }
    }
    assert forall|k: int| 0 <= k < q.id_changes.len() implies record::has_listing(
        b,
        (#[trigger] q.id_changes[k]).1,
    ) by {
        if k < n {
            assert(q.id_changes[k] == p.id_changes[k]);
            assert(record::has_listing(a, p.id_changes[k].1));
        } else {
            assert(b[a.len() as int].id() == card.id);
        }
    }
}

pub(crate) proof fn lemma_all_taken_reviews(
    p: ProgressView,
    scraped: Seq<CardView>,
    date: Date,
    cards: Seq<CardView>,
    id: Seq<char>,
    review: ReviewView,
)
    requires
        laws::is_sound(p.record.listings),
        heirs_are_known(p),
        forall|k: int|
            0 <= k < cards.len() ==> scraper::has_card(scraped, (#[trigger] cards[k]).id),
    ensures
        ({
            let q = delist::all_taken(p, scraped, date, cards);
            &&& heirs_are_known(q)
            &&& !scraper::has_card(scraped, id) && is_review_kept(p, scraped, id, review)
                ==> is_review_kept(q, scraped, id, review)
            &&& scraper::has_card(scraped, id) && is_own_review_kept(p, id, review)
                ==> is_own_review_kept(q, id, review)
        }),
    decreases cards.len(),
{
    if cards.len() > 0 {
        let front = cards.drop_last();
        assert(cards[cards.len() - 1] == cards.last());
        assert forall|k: int| 0 <= k < front.len() implies scraper::has_card(
            scraped,
            (#[trigger] front[k]).id,
        ) by {
            assert(front[k] == cards[k]);
        }
        lemma_all_taken_reviews(p, scraped, date, front, id, review);
        laws::lemma_all_taken_sound(p, scraped, date, front);
        lemma_taken_reviews(
            delist::all_taken(p, scraped, date, front),
            scraped,
            date,
            cards.last(),
            id,
            review,
        );
    }
}

/// No review of a household that changes its representative or its id is lost:
/// the review of a listing that was not found is with that listing or with the
/// one that took over its part, and that of a listing that was found is there,
/// unless such a review came in its place.
pub proof fn law_reviews_follow(
    r: RecordView,
    date: Date,
    scraped: Seq<CardView>,
    id: Seq<char>,
)
    requires
        laws::is_sound(r.listings),
        r.reviews.contains_key(id),
    ensures
        !scraper::has_card(scraped, id) ==> is_review_kept(
            delist::settled(r, date, scraped),
            scraped,
            id,
            r.reviews[id],
        ),
        scraper::has_card(scraped, id) ==> is_own_review_kept(
            delist::settled(r, date, scraped),
            id,
            r.reviews[id],
        ),
{
    let start = delist::started(r);
    let reps = delist::representatives(r.listings);
    let review = r.reviews[id];
    laws::lemma_representatives(r.listings);
    laws::lemma_matched_sound(r, date, scraped);
    lemma_all_succeeded_reviews(start, scraped, reps, id, review);
    let q = delist::all_succeeded(start, scraped, reps);
    assert forall|k: int| 0 <= k < q.id_changes.len() implies record::has_listing(
        q.record.listings,
        (#[trigger] q.id_changes[k]).1,
    ) by {
        assert(laws::is_representative(q.record.listings, q.id_changes[k].1));
    }
    laws::lemma_own_cards(scraped);
    lemma_all_taken_reviews(q, scraped, date, scraped, id, review);
    let p = delist::matched(r, date, scraped);
    let end = delist::settled(r, date, scraped);
    let ws = delist::delist_writes(
        delist::ids_where(p.record.listings, delist::gone(p.record, scraped)),
        date,
    ) + delist::relist_writes(
        delist::ids_where(p.record.listings, delist::back(p.record, scraped)),
    );
    lemma_reviews_after_writes(p.record, ws);
    lemma_reviews_spared(p.record.reviews, ws);
    lemma_reviews_untouched(p, end, scraped, id, review);
}

} // verus!

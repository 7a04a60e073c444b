//! What the database holds of one tracked search, and the statements that
//! change it.
//!
//! Every change is a [`Write`], which stands for one statement on the tables.
//! A record is changed by the same writes as the tables, so that what is
//! decided from the record is decided from what the tables hold.

use crate::date::Date;
use crate::db::models::{
    CheckRun, CheckRunEventType, CheckRunView, Listing, ListingView, Review, ReviewDecision,
    ReviewRowView, ReviewView,
};
use crate::scraper::{CardView, ScrapedCard};
use crate::text::copy_text;
use vstd::prelude::*;

verus! {

/// One statement on the tables of a search.
#[derive(Debug)]
pub enum Write {
    /// Overwrites the contents of the listing with the card's id, which is
    /// thereby on the market.
    UpdateListing { card: ScrapedCard },
    /// Adds a listing that is on the market and not yet seen in a round.
    InsertListing {
        card: ScrapedCard,
        first_seen: Date,
        duplicate_of: Option<String>,
        note: Option<String>,
    },
    /// Makes every duplicate of one listing a duplicate of another.
    RepointDuplicates { from: String, to: String },
    /// Sets what one listing is a duplicate of, and its note where there is
    /// one.
    SetDuplicateOf { id: String, duplicate_of: Option<String>, note: Option<String> },
    /// Adds or replaces a review.
    SaveReview { listing_id: String, decision: Option<ReviewDecision>, reason: Option<String> },
    /// Adds a review without a decision, or replaces the reason of one.
    SaveReason { listing_id: String, reason: Option<String> },
    DeleteReview { listing_id: String },
    Delist { id: String, date: Date },
    Relist { id: String },
    MarkSeen { id: String, check_run_id: i64 },
    AddEvent { check_run_id: i64, listing_id: String, event_type: CheckRunEventType },
    SetLastChecked { date: Date },
}

pub enum WriteView {
    UpdateListing { card: CardView },
    InsertListing {
        card: CardView,
        first_seen: Date,
        duplicate_of: Option<Seq<char>>,
        note: Option<Seq<char>>,
    },
    RepointDuplicates { from: Seq<char>, to: Seq<char> },
    SetDuplicateOf { id: Seq<char>, duplicate_of: Option<Seq<char>>, note: Option<Seq<char>> },
    SaveReview {
        listing_id: Seq<char>,
        decision: Option<ReviewDecision>,
        reason: Option<Seq<char>>,
    },
    SaveReason { listing_id: Seq<char>, reason: Option<Seq<char>> },
    DeleteReview { listing_id: Seq<char> },
    Delist { id: Seq<char>, date: Date },
    Relist { id: Seq<char> },
    MarkSeen { id: Seq<char>, check_run_id: i64 },
    AddEvent { check_run_id: i64, listing_id: Seq<char>, event_type: CheckRunEventType },
    SetLastChecked { date: Date },
}

impl View for Write {
    type V = WriteView;

    open spec fn view(&self) -> WriteView {
        match self {
            Write::UpdateListing { card } => WriteView::UpdateListing { card: card@ },
            Write::InsertListing { card, first_seen, duplicate_of, note } => {
                WriteView::InsertListing {
                    card: card@,
                    first_seen: *first_seen,
                    duplicate_of: duplicate_of.deep_view(),
                    note: note.deep_view(),
                }
            },
            Write::RepointDuplicates { from, to } => WriteView::RepointDuplicates {
                from: from@,
                to: to@,
            },
            Write::SetDuplicateOf { id, duplicate_of, note } => WriteView::SetDuplicateOf {
                id: id@,
                duplicate_of: duplicate_of.deep_view(),
                note: note.deep_view(),
            },
            Write::SaveReview { listing_id, decision, reason } => WriteView::SaveReview {
                listing_id: listing_id@,
                decision: *decision,
                reason: reason.deep_view(),
            },
            Write::SaveReason { listing_id, reason } => WriteView::SaveReason {
                listing_id: listing_id@,
                reason: reason.deep_view(),
            },
            Write::DeleteReview { listing_id } => WriteView::DeleteReview {
                listing_id: listing_id@,
            },
            Write::Delist { id, date } => WriteView::Delist { id: id@, date: *date },
            Write::Relist { id } => WriteView::Relist { id: id@ },
            Write::MarkSeen { id, check_run_id } => WriteView::MarkSeen {
                id: id@,
                check_run_id: *check_run_id,
            },
            Write::AddEvent { check_run_id, listing_id, event_type } => WriteView::AddEvent {
                check_run_id: *check_run_id,
                listing_id: listing_id@,
                event_type: *event_type,
            },
            Write::SetLastChecked { date } => WriteView::SetLastChecked { date: *date },
        }
    }
}

impl DeepView for Write {
    type V = WriteView;

    open spec fn deep_view(&self) -> WriteView {
        self@
    }
}

/// The rows of one tracked search.
#[derive(Debug)]
pub struct SearchRecord {
    pub tracked_search_id: i64,
    pub listings: Vec<Listing>,
    pub reviews: Vec<Review>,
    pub check_runs: Vec<CheckRun>,
    pub last_checked: Option<Date>,
}

#[verifier::ext_equal]
pub struct RecordView {
    pub tracked_search_id: i64,
    pub listings: Seq<ListingView>,
    /// By the id of the listing.
    pub reviews: Map<Seq<char>, ReviewView>,
    pub check_runs: Seq<CheckRunView>,
    pub last_checked: Option<Date>,
}

pub open spec fn review_at(reviews: Seq<Review>, id: Seq<char>, i: int) -> bool {
    0 <= i < reviews.len() && reviews[i].listing_id@ == id
}

pub open spec fn review_map(reviews: Seq<Review>) -> Map<Seq<char>, ReviewView> {
    Map::new(
        |id: Seq<char>| exists|i: int| review_at(reviews, id, i),
        |id: Seq<char>| reviews[choose|i: int| review_at(reviews, id, i)]@.review,
    )
}

impl View for SearchRecord {
    type V = RecordView;

    open spec fn view(&self) -> RecordView {
        RecordView {
            tracked_search_id: self.tracked_search_id,
            listings: self.listings.deep_view(),
            reviews: review_map(self.reviews@),
            check_runs: self.check_runs.deep_view(),
            last_checked: self.last_checked,
        }
    }
}

/// No two listings have one id.
pub open spec fn distinct_ids(listings: Seq<ListingView>) -> bool {
    forall|i: int, j: int|
        #![trigger listings[i], listings[j]]
        0 <= i < j < listings.len() ==> listings[i].id() != listings[j].id()
}

pub open spec fn has_listing(listings: Seq<ListingView>, id: Seq<char>) -> bool {
    exists|i: int| 0 <= i < listings.len() && #[trigger] listings[i].id() == id
}

/// A listing that represents its household and is on the market.
pub open spec fn is_active(l: ListingView) -> bool {
    l.duplicate_of is None && !l.delisted
}

pub open spec fn active() -> spec_fn(ListingView) -> bool {
    |l: ListingView| is_active(l)
}

/// How many households are on the market.
pub open spec fn active_count(listings: Seq<ListingView>) -> nat {
    listings.filter(active()).len()
}

/// `m` is the largest id of a round, or absent where there was none.
pub open spec fn is_latest_run(runs: Seq<CheckRunView>, m: Option<i64>) -> bool {
    match m {
        None => runs.len() == 0,
        Some(id) => {
            &&& exists|i: int| 0 <= i < runs.len() && #[trigger] runs[i].id == id
            &&& forall|i: int| 0 <= i < runs.len() ==> #[trigger] runs[i].id <= id
        },
    }
}

pub open spec fn latest_run(runs: Seq<CheckRunView>) -> Option<i64> {
    choose|m: Option<i64>| is_latest_run(runs, m)
}

/// What a write makes of a listing that is already there.
pub open spec fn listing_after(l: ListingView, w: WriteView) -> ListingView {
    match w {
        WriteView::UpdateListing { card } => if l.card.id == card.id {
            ListingView { card, delisted: false, delisted_date: None, ..l }
        } else {
            l
        },
        WriteView::RepointDuplicates { from, to } => if l.duplicate_of == Some(from) {
            ListingView { duplicate_of: Some(to), ..l }
        } else {
            l
        },
        WriteView::SetDuplicateOf { id, duplicate_of, note } => if l.card.id == id {
            ListingView {
                duplicate_of,
                note: if note is Some {
                    note
                } else {
                    l.note
                },
                ..l
            }
        } else {
            l
        },
        WriteView::Delist { id, date } => if l.card.id == id {
            ListingView { delisted: true, delisted_date: Some(date), ..l }
        } else {
            l
        },
        WriteView::Relist { id } => if l.card.id == id {
            ListingView { delisted: false, delisted_date: None, ..l }
        } else {
            l
        },
        WriteView::MarkSeen { id, check_run_id } => if l.card.id == id {
            ListingView { last_seen_check_run_id: Some(check_run_id), ..l }
        } else {
            l
        },
        _ => l,
    }
}

/// The listing that a write adds, if it adds one.
pub open spec fn listing_added(w: WriteView) -> Seq<ListingView> {
    match w {
        WriteView::InsertListing { card, first_seen, duplicate_of, note } => seq![
            ListingView {
                card,
                first_seen,
                duplicate_of,
                delisted: false,
                delisted_date: None,
                note,
                last_seen_check_run_id: None,
            },
        ],
        _ => seq![],
    }
}

pub open spec fn reviews_after(
    reviews: Map<Seq<char>, ReviewView>,
    w: WriteView,
) -> Map<Seq<char>, ReviewView> {
    match w {
        WriteView::SaveReview { listing_id, decision, reason } => reviews.insert(
            listing_id,
            ReviewView { decision, reason },
        ),
        WriteView::SaveReason { listing_id, reason } => reviews.insert(
            listing_id,
            ReviewView {
                decision: if reviews.contains_key(listing_id) {
                    reviews[listing_id].decision
                } else {
                    None
                },
                reason,
            },
        ),
        WriteView::DeleteReview { listing_id } => reviews.remove(listing_id),
        _ => reviews,
    }
}

/// The record after a write.
pub open spec fn apply_write(r: RecordView, w: WriteView) -> RecordView {
    RecordView {
        tracked_search_id: r.tracked_search_id,
        listings: r.listings.map_values(|l: ListingView| listing_after(l, w)) + listing_added(w),
        reviews: reviews_after(r.reviews, w),
        check_runs: r.check_runs,
        last_checked: match w {
            WriteView::SetLastChecked { date } => Some(date),
            _ => r.last_checked,
        },
    }
}

/// The record after several writes, one after the other.
pub open spec fn apply_writes(r: RecordView, ws: Seq<WriteView>) -> RecordView
    decreases ws.len(),
{
    if ws.len() == 0 {
        r
    } else {
        apply_write(apply_writes(r, ws.drop_last()), ws.last())
    }
}

/// A write that the primary key of the listings allows.
pub open spec fn is_allowed(r: RecordView, w: WriteView) -> bool {
    w matches WriteView::InsertListing { card, .. } ==> !has_listing(r.listings, card.id)
}

pub proof fn lemma_apply_writes_push(r: RecordView, ws: Seq<WriteView>, w: WriteView)
    ensures
        apply_writes(r, ws.push(w)) == apply_write(apply_writes(r, ws), w),
{
    assert(ws.push(w).drop_last() =~= ws);
}

pub proof fn lemma_apply_writes_add(r: RecordView, a: Seq<WriteView>, b: Seq<WriteView>)
    ensures
        apply_writes(r, a + b) == apply_writes(apply_writes(r, a), b),
    decreases b.len(),
{
    if b.len() == 0 {
        assert(a + b =~= a);
    } else {
        assert((a + b).drop_last() =~= a + b.drop_last());
        lemma_apply_writes_add(r, a, b.drop_last());
    }
}

/// An allowed write leaves no two listings with one id.
pub proof fn lemma_write_keeps_distinct(r: RecordView, w: WriteView)
    requires
        distinct_ids(r.listings),
        is_allowed(r, w),
    ensures
        distinct_ids(apply_write(r, w).listings),
{
    let after = apply_write(r, w).listings;
    let n = r.listings.len() as int;
    assert forall|i: int, j: int|
        #![trigger after[i], after[j]]
        0 <= i < j < after.len() implies after[i].id() != after[j].id() by {
        assert(after[i] == listing_after(r.listings[i], w));
        if j < n {
            assert(after[j] == listing_after(r.listings[j], w));
        } else {
            assert(after[j] == listing_added(w)[j - n]);
            assert(r.listings[i].id() == after[i].id());
        }
    }
}

/// No two reviews are of one listing.
pub open spec fn distinct_reviews(reviews: Seq<Review>) -> bool {
    forall|i: int, j: int|
        #![trigger reviews[i], reviews[j]]
        0 <= i < j < reviews.len() ==> reviews[i].listing_id@ != reviews[j].listing_id@
}

/// The map holds what the rows hold.
proof fn lemma_review_map_at(reviews: Seq<Review>, i: int)
    requires
        distinct_reviews(reviews),
        0 <= i < reviews.len(),
    ensures
        review_map(reviews).contains_key(reviews[i].listing_id@),
        review_map(reviews)[reviews[i].listing_id@] == reviews[i]@.review,
{
    let id = reviews[i].listing_id@;
    assert(review_at(reviews, id, i));
    let k = choose|k: int| review_at(reviews, id, k);
    assert(review_at(reviews, id, k));
    if k < i {
        assert(reviews[k].listing_id@ != reviews[i].listing_id@);
    } else if i < k {
        assert(reviews[i].listing_id@ != reviews[k].listing_id@);
    }
}

/// Adding a review to the rows, or replacing one, does so to the map.
proof fn lemma_review_map_insert(before: Seq<Review>, after: Seq<Review>, k: int)
    requires
        distinct_reviews(before),
        distinct_reviews(after),
        0 <= k < after.len(),
        after.len() == before.len() || (k == before.len() && after.len() == before.len() + 1),
        k < before.len() ==> before[k].listing_id@ == after[k].listing_id@,
        forall|i: int| 0 <= i < before.len() && i != k ==> before[i] == after[i],
    ensures
        review_map(after) == review_map(before).insert(after[k].listing_id@, after[k]@.review),
{
    let id = after[k].listing_id@;
    let want = review_map(before).insert(id, after[k]@.review);
    let got = review_map(after);
    lemma_review_map_at(after, k);
    assert forall|x: Seq<char>| got.contains_key(x) <==> want.contains_key(x) by {
        if got.contains_key(x) && x != id {
            let i = choose|i: int| review_at(after, x, i);
            assert(review_at(after, x, i));
            assert(review_at(before, x, i));
        }
        if want.contains_key(x) && x != id {
            let i = choose|i: int| review_at(before, x, i);
            assert(review_at(before, x, i));
            assert(review_at(after, x, i));
        }
    }
    assert forall|x: Seq<char>| got.contains_key(x) implies got[x] == want[x] by {
        if x != id {
            let i = choose|i: int| review_at(after, x, i);
            assert(review_at(after, x, i));
            lemma_review_map_at(after, i);
            lemma_review_map_at(before, i);
        }
    }
    assert(got =~= want);
}

/// Removing a review from the rows does so from the map.
proof fn lemma_review_map_remove(before: Seq<Review>, k: int)
    requires
        distinct_reviews(before),
        0 <= k < before.len(),
    ensures
        distinct_reviews(before.remove(k)),
        review_map(before.remove(k)) == review_map(before).remove(before[k].listing_id@),
{
    let after = before.remove(k);
    let id = before[k].listing_id@;
    assert forall|i: int, j: int|
        #![trigger after[i], after[j]]
        0 <= i < j < after.len() implies after[i].listing_id@ != after[j].listing_id@ by {
        let i0 = if i < k { i } else { i + 1 };
        let j0 = if j < k { j } else { j + 1 };
        assert(after[i] == before[i0] && after[j] == before[j0]);
    }
    let want = review_map(before).remove(id);
    let got = review_map(after);
    assert forall|x: Seq<char>| got.contains_key(x) <==> want.contains_key(x) by {
        if got.contains_key(x) {
            let i = choose|i: int| review_at(after, x, i);
            assert(review_at(after, x, i));
            let i0 = if i < k { i } else { i + 1 };
            assert(after[i] == before[i0]);
            assert(review_at(before, x, i0));
            if i0 < k {
                assert(before[i0].listing_id@ != before[k].listing_id@);
            } else {
                assert(before[k].listing_id@ != before[i0].listing_id@);
            }
        }
        if want.contains_key(x) {
            let i0 = choose|i: int| review_at(before, x, i);
            assert(review_at(before, x, i0));
            assert(i0 != k);
            let i = if i0 < k { i0 } else { i0 - 1 };
            assert(after[i] == before[i0]);
            assert(review_at(after, x, i));
        }
    }
    assert forall|x: Seq<char>| got.contains_key(x) implies got[x] == want[x] by {
        let i = choose|i: int| review_at(after, x, i);
        assert(review_at(after, x, i));
        let i0 = if i < k { i } else { i + 1 };
        assert(after[i] == before[i0]);
        lemma_review_map_at(after, i);
        lemma_review_map_at(before, i0);
    }
    assert(got =~= want);
}

fn write_to_listing(l: &mut Listing, w: &Write)
    ensures
        final(l)@ == listing_after(old(l)@, w@),
{
    match w {
        Write::UpdateListing { card } => {
            if l.card.id == card.id {
                l.card = card.clone();
                l.delisted = false;
                l.delisted_date = None;
            }
        },
        Write::RepointDuplicates { from, to } => {
            let pointed = match &l.duplicate_of {
                Some(d) => *d == *from,
                None => false,
            };
            if pointed {
                l.duplicate_of = Some(to.clone());
            }
        },
        Write::SetDuplicateOf { id, duplicate_of, note } => {
            if l.card.id == *id {
                l.duplicate_of = copy_text(duplicate_of);
                if note.is_some() {
                    l.note = copy_text(note);
                }
            }
        },
        Write::Delist { id, date } => {
            if l.card.id == *id {
                l.delisted = true;
                l.delisted_date = Some(*date);
            }
        },
        Write::Relist { id } => {
            if l.card.id == *id {
                l.delisted = false;
                l.delisted_date = None;
            }
        },
        Write::MarkSeen { id, check_run_id } => {
            if l.card.id == *id {
                l.last_seen_check_run_id = Some(*check_run_id);
            }
        },
        _ => {},
    }
}

impl SearchRecord {
    /// What the primary keys of the tables guarantee.
    pub open spec fn keys_distinct(&self) -> bool {
        &&& distinct_ids(self.listings.deep_view())
        &&& distinct_reviews(self.reviews@)
    }

    /// Whether no two listings have one id and no two reviews one listing.
    pub fn has_distinct_keys(&self) -> (r: bool)
        ensures
            r == self.keys_distinct(),
    {
        for i in 0..self.listings.len()
            invariant
                forall|k: int, j: int|
                    #![trigger self@.listings[k], self@.listings[j]]
                    0 <= k < i && k < j < self.listings.len() ==> self@.listings[k].id()
                        != self@.listings[j].id(),
        {
            for j in i + 1..self.listings.len()
                invariant
                    i < self.listings.len(),
                    forall|k: int|
                        i < k < j ==> self@.listings[i as int].id() != (
                        #[trigger] self@.listings[k]).id(),
            {
                if self.listings[i].card.id == self.listings[j].card.id {
                    assert(self@.listings[i as int].id() == self@.listings[j as int].id());
                    return false;
                }
                assert(self@.listings[i as int] == self.listings[i as int]@);
                assert(self@.listings[j as int] == self.listings[j as int]@);
            }
        }
        for i in 0..self.reviews.len()
            invariant
                distinct_ids(self@.listings),
                forall|k: int, j: int|
                    #![trigger self.reviews@[k], self.reviews@[j]]
                    0 <= k < i && k < j < self.reviews.len() ==> self.reviews@[k].listing_id@
                        != self.reviews@[j].listing_id@,
        {
            for j in i + 1..self.reviews.len()
                invariant
                    i < self.reviews.len(),
                    forall|k: int|
                        i < k < j ==> self.reviews@[i as int].listing_id@ != (
                        #[trigger] self.reviews@[k]).listing_id@,
            {
                if self.reviews[i].listing_id == self.reviews[j].listing_id {
                    return false;
                }
            }
        }
        true
    }

    /// The place of a listing among the rows.
    pub fn find_listing(&self, id: &str) -> (r: Option<usize>)
        ensures
            r matches Some(i) ==> i < self.listings.len() && self@.listings[i as int].id() == id@,
            r is None ==> !has_listing(self@.listings, id@),
            r is Some ==> has_listing(self@.listings, id@),
    {
        let wanted = id.to_owned();
        for i in 0..self.listings.len()
            invariant
                wanted@ == id@,
                forall|j: int| 0 <= j < i ==> (#[trigger] self@.listings[j]).id() != id@,
        {
            if self.listings[i].card.id == wanted {
                assert(self@.listings[i as int].id() == id@);
                return Some(i);
            }
        }
        None
    }

    fn find_review(&self, id: &str) -> (r: Option<usize>)
        ensures
            r matches Some(i) ==> review_at(self.reviews@, id@, i as int),
            r is None ==> !review_map(self.reviews@).contains_key(id@),
    {
        let wanted = id.to_owned();
        for i in 0..self.reviews.len()
            invariant
                wanted@ == id@,
                forall|j: int| 0 <= j < i ==> !#[trigger] review_at(self.reviews@, id@, j),
        {
            if self.reviews[i].listing_id == wanted {
                return Some(i);
            }
        }
        None
    }

    /// The review of a listing.
    pub fn review_of(&self, id: &str) -> (r: Option<&Review>)
        requires
            self.keys_distinct(),
        ensures
            r is Some <==> self@.reviews.contains_key(id@),
            r matches Some(v) ==> v@ == (ReviewRowView { listing_id: id@, review: self@.reviews[id@] }),
    {
        match self.find_review(id) {
            Some(i) => {
                proof {
                    lemma_review_map_at(self.reviews@, i as int);
                }
                Some(&self.reviews[i])
            },
            None => None,
        }
    }

    /// The id of the last round.
    pub fn previous_run(&self) -> (r: Option<i64>)
        ensures
            is_latest_run(self@.check_runs, r),
            r == latest_run(self@.check_runs),
    {
        let mut best: Option<i64> = None;
        for i in 0..self.check_runs.len()
            invariant
                is_latest_run(self@.check_runs.take(i as int), best),
        {
            let id = self.check_runs[i].id;
            let ghost runs = self@.check_runs;
            proof {
                assert(runs.take(i + 1)[i as int].id == id);
                assert(forall|j: int| 0 <= j < i ==> runs.take(i + 1)[j] == runs.take(i as int)[j]);
            }
            best = match best {
                Some(b) => if b < id {
                    Some(id)
                } else {
                    proof {
                        let k = choose|k: int|
                            0 <= k < i && #[trigger] runs.take(i as int)[k].id == b;
                        assert(runs.take(i + 1)[k].id == b);
                    }
                    Some(b)
                },
                None => Some(id),
            };
        }
        proof {
            let runs = self@.check_runs;
            assert(runs.take(runs.len() as int) =~= runs);
            lemma_latest_run_unique(runs, best, latest_run(runs));
        }
        best
    }

    /// Changes the record as the statement changes the tables.
    pub fn apply(&mut self, w: &Write)
        requires
            old(self).keys_distinct(),
            is_allowed(old(self)@, w@),
        ensures
            final(self)@ == apply_write(old(self)@, w@),
            final(self).keys_distinct(),
    {
        let ghost before = self@;
        let n = self.listings.len();
        for i in 0..n
            invariant
                n == self.listings.len(),
                n == before.listings.len(),
                self.reviews == old(self).reviews,
                self.check_runs == old(self).check_runs,
                self.last_checked == old(self).last_checked,
                self.tracked_search_id == old(self).tracked_search_id,
                before == old(self)@,
                forall|j: int|
                    0 <= j < i ==> #[trigger] self.listings@[j]@ == listing_after(
                        before.listings[j],
                        w@,
                    ),
                forall|j: int| i <= j < n ==> #[trigger] self.listings@[j]@ == before.listings[j],
        {
            write_to_listing(&mut self.listings[i], w);
        }
        assert(self.listings.deep_view() =~= before.listings.map_values(
            |l: ListingView| listing_after(l, w@),
        ));
        match w {
            Write::InsertListing { card, first_seen, duplicate_of, note } => {
                let ghost kept = self.listings.deep_view();
                self.listings.push(
                    Listing {
                        card: card.clone(),
                        first_seen: *first_seen,
                        duplicate_of: copy_text(duplicate_of),
                        delisted: false,
                        delisted_date: None,
                        note: copy_text(note),
                        last_seen_check_run_id: None,
                    },
                );
                assert(self.listings.deep_view() =~= kept + listing_added(w@));
            },
            Write::SaveReview { listing_id, decision, reason } => {
                self.save_review(listing_id, *decision, reason);
            },
            Write::SaveReason { listing_id, reason } => {
                let decision = match self.find_review(listing_id.as_str()) {
                    Some(i) => {
                        proof {
                            lemma_review_map_at(self.reviews@, i as int);
                        }
                        self.reviews[i].decision
                    },
                    None => None,
                };
                self.save_review(listing_id, decision, reason);
            },
            Write::DeleteReview { listing_id } => {
                match self.find_review(listing_id.as_str()) {
                    Some(i) => {
                        proof {
                            lemma_review_map_remove(self.reviews@, i as int);
                        }
                        self.reviews.remove(i);
                    },
                    None => {
                        assert(before.reviews.remove(listing_id@) =~= before.reviews);
                    },
                }
            },
            Write::SetLastChecked { date } => {
                self.last_checked = Some(*date);
            },
            _ => {},
        }
        proof {
            assert(self@ =~= apply_write(before, w@));
            lemma_write_keeps_distinct(before, w@);
        }
    }

    fn save_review(
        &mut self,
        listing_id: &String,
        decision: Option<ReviewDecision>,
        reason: &Option<String>,
    )
        requires
            distinct_reviews(old(self).reviews@),
        ensures
            final(self).listings == old(self).listings,
            final(self).check_runs == old(self).check_runs,
            final(self).last_checked == old(self).last_checked,
            final(self).tracked_search_id == old(self).tracked_search_id,
            distinct_reviews(final(self).reviews@),
            review_map(final(self).reviews@) == review_map(old(self).reviews@).insert(
                listing_id@,
                ReviewView { decision, reason: reason.deep_view() },
            ),
    {
        let review = Review { listing_id: listing_id.clone(), decision, reason: copy_text(reason) };
        let ghost before = self.reviews@;
        match self.find_review(listing_id.as_str()) {
            Some(i) => {
                self.reviews.set(i, review);
                proof {
                    lemma_review_map_insert(before, self.reviews@, i as int);
                }
            },
            None => {
                self.reviews.push(review);
                proof {
                    assert forall|i: int, j: int|
                        #![trigger self.reviews@[i], self.reviews@[j]]
                        0 <= i < j < self.reviews@.len() implies self.reviews@[i].listing_id@
                        != self.reviews@[j].listing_id@ by {
                        assert(self.reviews@[i] == before[i]);
                        if j == before.len() {
                            assert(!review_at(before, listing_id@, i));
                        } else {
                            assert(self.reviews@[j] == before[j]);
                        }
                    }
                    lemma_review_map_insert(before, self.reviews@, before.len() as int);
                }
            },
        }
    }

    /// Adds a round.
    pub fn add_run(&mut self, run: CheckRun)
        requires
            old(self).keys_distinct(),
        ensures
            final(self)@ == (RecordView {
                check_runs: old(self)@.check_runs.push(run@),
                ..old(self)@
            }),
            final(self).keys_distinct(),
    {
        let ghost before = self@;
        self.check_runs.push(run);
        assert(self@.check_runs =~= before.check_runs.push(run@));
        assert(self@.listings =~= before.listings);
    }

    /// How many households are on the market.
    pub fn count_active(&self) -> (r: usize)
        ensures
            r == active_count(self@.listings),
    {
        let mut r: usize = 0;
        proof {
            reveal(Seq::filter);
        }
        for i in 0..self.listings.len()
            invariant
                r == active_count(self@.listings.take(i as int)),
                r <= i,
        {
            let l = &self.listings[i];
            proof {
                reveal(Seq::filter);
                assert(self@.listings.take(i + 1).drop_last() =~= self@.listings.take(i as int));
                assert(self@.listings.take(i + 1).last() == l@);
            }
            if l.duplicate_of.is_none() && !l.delisted {
                r = r + 1;
            }
        }
        assert(self@.listings.take(self@.listings.len() as int) =~= self@.listings);
        r
    }
}

/// There is one last round at most.
pub proof fn lemma_latest_run_unique(runs: Seq<CheckRunView>, a: Option<i64>, b: Option<i64>)
    requires
        is_latest_run(runs, a),
    ensures
        is_latest_run(runs, b) ==> a == b,
        is_latest_run(runs, latest_run(runs)),
{
    if is_latest_run(runs, b) {
        if a is Some && b is Some {
            let i = choose|i: int| 0 <= i < runs.len() && #[trigger] runs[i].id == a->0;
            let j = choose|j: int| 0 <= j < runs.len() && #[trigger] runs[j].id == b->0;
            assert(runs[i].id <= b->0 && runs[j].id <= a->0);
        } else if a is Some {
            let i = choose|i: int| 0 <= i < runs.len() && #[trigger] runs[i].id == a->0;
        } else if b is Some {
            let j = choose|j: int| 0 <= j < runs.len() && #[trigger] runs[j].id == b->0;
        }
    }
}

/// There are no more households on the market than listings.
pub proof fn lemma_active_count(listings: Seq<ListingView>)
    ensures
        active_count(listings) <= listings.len(),
{
    listings.lemma_filter_len(active());
}

// ---------------------------------------------------------------------------
// Laws
// ---------------------------------------------------------------------------

/// What a write makes of a listing. It keeps its place, its id, the day it was
/// first seen, and all that the write is not about; a listing with another id
/// stays as it is, unless it is a duplicate that is to stand below another.
pub proof fn law_writes_keep_to_their_listing(r: RecordView, w: WriteView, i: int)
    requires
        0 <= i < r.listings.len(),
    ensures
        ({
            let l = r.listings[i];
            let m = apply_write(r, w).listings[i];
            &&& m.card.id == l.card.id
            &&& m.first_seen == l.first_seen
            &&& apply_write(r, w).tracked_search_id == r.tracked_search_id
            &&& apply_write(r, w).check_runs == r.check_runs
            &&& w matches WriteView::UpdateListing { card } ==> {
                &&& card.id == l.card.id ==> m.card == card && !m.delisted && m.delisted_date is None
                &&& card.id != l.card.id ==> m == l
                &&& m.duplicate_of == l.duplicate_of
                &&& m.note == l.note
                &&& m.last_seen_check_run_id == l.last_seen_check_run_id
            }
            &&& w matches WriteView::RepointDuplicates { from, to } ==> {
                &&& l.duplicate_of == Some(from) ==> m.duplicate_of == Some(to)
                &&& l.duplicate_of != Some(from) ==> m.duplicate_of == l.duplicate_of
                &&& m.card == l.card
                &&& m.note == l.note
                &&& m.delisted == l.delisted
                &&& m.delisted_date == l.delisted_date
                &&& m.last_seen_check_run_id == l.last_seen_check_run_id
            }
            &&& w matches WriteView::SetDuplicateOf { id, duplicate_of, note } ==> {
                &&& id == l.card.id ==> m.duplicate_of == duplicate_of
                &&& id == l.card.id && note is Some ==> m.note == note
                &&& id == l.card.id && note is None ==> m.note == l.note
                &&& id != l.card.id ==> m == l
                &&& m.card == l.card
                &&& m.delisted == l.delisted
                &&& m.delisted_date == l.delisted_date
                &&& m.last_seen_check_run_id == l.last_seen_check_run_id
            }
            &&& w matches WriteView::Delist { id, date } ==> {
                &&& id == l.card.id ==> m.delisted && m.delisted_date == Some(date)
                &&& id != l.card.id ==> m == l
                &&& m.card == l.card && m.duplicate_of == l.duplicate_of && m.note == l.note
                &&& m.last_seen_check_run_id == l.last_seen_check_run_id
            }
            &&& w matches WriteView::Relist { id } ==> {
                &&& id == l.card.id ==> !m.delisted && m.delisted_date is None
                &&& id != l.card.id ==> m == l
                &&& m.card == l.card && m.duplicate_of == l.duplicate_of && m.note == l.note
                &&& m.last_seen_check_run_id == l.last_seen_check_run_id
            }
            &&& w matches WriteView::MarkSeen { id, check_run_id } ==> {
                &&& id == l.card.id ==> m.last_seen_check_run_id == Some(check_run_id)
                &&& id != l.card.id ==> m == l
                &&& m.card == l.card && m.duplicate_of == l.duplicate_of && m.note == l.note
                &&& m.delisted == l.delisted && m.delisted_date == l.delisted_date
            }
            &&& w is InsertListing || w is SaveReview || w is SaveReason || w is DeleteReview || w
                is AddEvent || w is SetLastChecked ==> m == l
        }),
{
}

/// What a write makes of the reviews. A saved review is there with its decision
/// and reason, a saved reason leaves the decision as it was, a deleted review is
/// gone, and the reviews of other listings stay.
pub proof fn law_writes_keep_to_their_review(r: RecordView, w: WriteView, id: Seq<char>)
    ensures
        ({
            let before = r.reviews;
            let after = apply_write(r, w).reviews;
            let same = (after.contains_key(id) <==> before.contains_key(id)) && (
            before.contains_key(id) ==> after[id] == before[id]);
            match w {
                WriteView::SaveReview { listing_id, decision, reason } => if listing_id == id {
                    after.contains_key(id) && after[id].decision == decision && after[id].reason
                        == reason
                } else {
                    same
                },
                WriteView::SaveReason { listing_id, reason } => if listing_id == id {
                    &&& after.contains_key(id)
                    &&& after[id].reason == reason
                    &&& before.contains_key(id) ==> after[id].decision == before[id].decision
                    &&& !before.contains_key(id) ==> after[id].decision is None
                } else {
                    same
                },
                WriteView::DeleteReview { listing_id } => if listing_id == id {
                    !after.contains_key(id)
                } else {
                    same
                },
                _ => same,
            }
        }),
{
}

} // verus!

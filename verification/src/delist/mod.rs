//! What a round of checking changes in the record of a search.
//!
//! An id that the record does not know is not yet a new household: the site
//! gives the same apartment another id from time to time, and several agents
//! advertise one apartment at once. Such a card is compared with what is known
//! before it counts as new. A household is taken off the market only when it
//! was missing from two rounds in a row, because a single round misses up to a
//! quarter of what is there.

use crate::date::Date;
use crate::db::models::{CheckRun, CheckRunEventType, CheckRunView, ListingView};
use crate::db::record;
use crate::db::record::{RecordView, SearchRecord, Write, WriteView};
use crate::dedup;
use crate::dedup::{same_household, HouseholdKey, HouseholdView};
use crate::double::Double;
use crate::scraper;
use crate::scraper::{contains_card, CardView, ScrapedCard};
use crate::text;
use crate::text::{copy_text, decimal_text, parse_u64};
use vstd::prelude::*;

pub mod households;
pub mod joining;
pub mod laws;
pub mod market;
pub mod matching;
pub mod outcome;
pub mod reviews;
pub mod rounds;
pub mod steps;
pub mod succession;

verus! {

/// What is compared of a listing, as it was when the round began.
#[derive(Debug)]
pub struct ExistingListing {
    pub area: Double,
    pub main_area: Option<Double>,
    pub age: Option<i64>,
    pub floor: String,
    pub community: Option<String>,
    pub address: String,
}

impl View for ExistingListing {
    type V = HouseholdView;

    open spec fn view(&self) -> HouseholdView {
        HouseholdView {
            community: self.community.deep_view(),
            address: self.address@,
            floor: self.floor@,
            area: self.area,
            main_area: self.main_area,
            age: self.age,
        }
    }
}

impl DeepView for ExistingListing {
    type V = HouseholdView;

    open spec fn deep_view(&self) -> HouseholdView {
        self@
    }
}

fn as_deref(s: &Option<String>) -> (r: Option<&str>)
    ensures
        r.deep_view() == s.deep_view(),
{
    match s {
        Some(t) => Some(t.as_str()),
        None => None,
    }
}

impl ExistingListing {
    pub fn household_key(&self) -> (r: HouseholdKey<'_>)
        ensures
            r@ == self@,
    {
        HouseholdKey {
            community: as_deref(&self.community),
            address: self.address.as_str(),
            floor: self.floor.as_str(),
            area: self.area,
            main_area: self.main_area,
            age: self.age,
        }
    }

    fn of_card(c: &ScrapedCard) -> (r: ExistingListing)
        ensures
            r@ == card_key(c@),
    {
        ExistingListing {
            area: c.area,
            main_area: c.main_area,
            age: c.age,
            floor: c.floor.clone(),
            community: copy_text(&c.community),
            address: c.address.clone(),
        }
    }
}

/// What tells the household of a card.
pub open spec fn card_key(c: CardView) -> HouseholdView {
    HouseholdView {
        community: c.community,
        address: c.address,
        floor: c.floor,
        area: c.area,
        main_area: c.main_area,
        age: c.age,
    }
}

pub fn card_household_key(c: &ScrapedCard) -> (r: HouseholdKey<'_>)
    ensures
        r@ == card_key(c@),
{
    HouseholdKey {
        community: as_deref(&c.community),
        address: c.address.as_str(),
        floor: c.floor.as_str(),
        area: c.area,
        main_area: c.main_area,
        age: c.age,
    }
}

// ---------------------------------------------------------------------------
// The state of a round
// ---------------------------------------------------------------------------

/// How far a round has come: the record as it is now, what is compared of each
/// of its listings, and what has been done.
#[verifier::ext_equal]
pub struct ProgressView {
    pub record: RecordView,
    pub known: Seq<HouseholdView>,
    pub writes: Seq<WriteView>,
    pub new_ids: Seq<Seq<char>>,
    pub id_changes: Seq<(Seq<char>, Seq<char>)>,
}

/// The state after further writes.
pub open spec fn performed(p: ProgressView, ws: Seq<WriteView>) -> ProgressView {
    ProgressView {
        record: record::apply_writes(p.record, ws),
        writes: p.writes + ws,
        ..p
    }
}

pub open spec fn key_of_listing() -> spec_fn(ListingView) -> HouseholdView {
    |l: ListingView| card_key(l.card)
}

pub open spec fn started(r: RecordView) -> ProgressView {
    ProgressView {
        record: r,
        known: r.listings.map_values(key_of_listing()),
        writes: seq![],
        new_ids: seq![],
        id_changes: seq![],
    }
}

/// What a round has done so far.
struct Progress {
    known: Vec<ExistingListing>,
    writes: Vec<Write>,
    new_ids: Vec<String>,
    id_changes: Vec<(String, String)>,
}

impl Progress {
    spec fn with(&self, r: RecordView) -> ProgressView {
        ProgressView {
            record: r,
            known: self.known.deep_view(),
            writes: self.writes.deep_view(),
            new_ids: self.new_ids.deep_view(),
            id_changes: self.id_changes.deep_view(),
        }
    }

    fn start(record: &SearchRecord) -> (r: Progress)
        ensures
            r.with(record@) == started(record@),
    {
        let mut known: Vec<ExistingListing> = Vec::new();
        for i in 0..record.listings.len()
            invariant
                known.deep_view() == record@.listings.take(i as int).map_values(key_of_listing()),
        {
            let ghost before = known.deep_view();
            known.push(ExistingListing::of_card(&record.listings[i].card));
            proof {
                let l = record@.listings[i as int];
                assert(known.deep_view() =~= before.push(card_key(l.card)));
                assert(known.deep_view() =~= record@.listings.take(i + 1).map_values(
                    key_of_listing(),
                ));
            }
        }
        assert(record@.listings.take(record@.listings.len() as int) =~= record@.listings);
        let r = Progress {
            known,
            writes: Vec::new(),
            new_ids: Vec::new(),
            id_changes: Vec::new(),
        };
        assert(r.with(record@) =~= started(record@));
        r
    }

    /// Changes the record by the writes and notes them down.
    fn perform(&mut self, record: &mut SearchRecord, ws: Vec<Write>)
        requires
            old(record).keys_distinct(),
            forall|i: int|
                0 < i < ws.len() ==> !(#[trigger] ws.deep_view()[i] is InsertListing),
            ws.len() > 0 ==> record::is_allowed(old(record)@, ws.deep_view()[0]),
        ensures
            final(record).keys_distinct(),
            final(self).with(final(record)@) == performed(
                old(self).with(old(record)@),
                ws.deep_view(),
            ),
    {
        let ghost before = self.with(record@);
        let ghost all = ws.deep_view();
        let ghost r0 = record@;
        for i in 0..ws.len()
            invariant
                all == ws.deep_view(),
                record.keys_distinct(),
                forall|i: int| 0 < i < ws.len() ==> !(#[trigger] ws.deep_view()[i] is InsertListing),
                ws.len() > 0 ==> record::is_allowed(r0, ws.deep_view()[0]),
                record@ == record::apply_writes(r0, all.take(i as int)),
        {
            proof {
                assert(all.take(0) =~= Seq::empty());
                assert(all[i as int] == ws@[i as int]@);
                assert(all.take(i + 1) =~= all.take(i as int).push(all[i as int]));
                record::lemma_apply_writes_push(r0, all.take(i as int), all[i as int]);
            }
            record.apply(&ws[i]);
        }
        assert(all.take(all.len() as int) =~= all);
        let mut ws = ws;
        self.writes.append(&mut ws);
        assert(self.writes.deep_view() =~= before.writes + all);
        assert(self.with(record@) =~= performed(before, all));
    }
}

// ---------------------------------------------------------------------------
// Reviews
// ---------------------------------------------------------------------------

/// The writes that move a review from one listing to another, where there is
/// one to move.
pub open spec fn review_moves(r: RecordView, old_id: Seq<char>, new_id: Seq<char>) -> Seq<
    WriteView,
> {
    if r.reviews.contains_key(old_id) {
        seq![
            WriteView::SaveReview {
                listing_id: new_id,
                decision: r.reviews[old_id].decision,
                reason: r.reviews[old_id].reason,
            },
            WriteView::DeleteReview { listing_id: old_id },
        ]
    } else {
        seq![]
    }
}

/// A review goes where the listing's part goes.
fn move_review(record: &SearchRecord, old_id: &String, new_id: &String) -> (r: Vec<Write>)
    requires
        record.keys_distinct(),
    ensures
        r.deep_view() == review_moves(record@, old_id@, new_id@),
{
    let mut r: Vec<Write> = Vec::new();
    match record.review_of(old_id.as_str()) {
        Some(review) => {
            r.push(
                Write::SaveReview {
                    listing_id: new_id.clone(),
                    decision: review.decision,
                    reason: copy_text(&review.reason),
                },
            );
            r.push(Write::DeleteReview { listing_id: old_id.clone() });
        },
        None => {},
    }
    assert(r.deep_view() =~= review_moves(record@, old_id@, new_id@));
    r
}

// ---------------------------------------------------------------------------
// A representative that is missing while others of its household are there
// ---------------------------------------------------------------------------

/// The number that an id writes; an id that writes none comes last.
pub open spec fn id_number(id: Seq<char>) -> u64 {
    match text::parsed_u64(id) {
        Some(n) => n,
        None => u64::MAX,
    }
}

/// A duplicate of `rep` that was found in this round.
pub open spec fn is_present_member(
    l: ListingView,
    rep: Seq<char>,
    scraped: Seq<CardView>,
) -> bool {
    l.duplicate_of == Some(rep) && scraper::has_card(scraped, l.id())
}

/// `i` is the place of the present member with the smallest number, the first
/// of them where several have it.
pub open spec fn is_successor(
    listings: Seq<ListingView>,
    scraped: Seq<CardView>,
    rep: Seq<char>,
    i: int,
) -> bool {
    &&& 0 <= i < listings.len()
    &&& is_present_member(listings[i], rep, scraped)
    &&& forall|j: int|
        0 <= j < listings.len() && is_present_member(#[trigger] listings[j], rep, scraped) ==> {
            ||| id_number(listings[i].id()) < id_number(listings[j].id())
            ||| id_number(listings[i].id()) == id_number(listings[j].id()) && i <= j
        }
}

/// The listing that takes the place of a missing representative.
pub open spec fn successor(
    listings: Seq<ListingView>,
    scraped: Seq<CardView>,
    rep: Seq<char>,
) -> Option<Seq<char>> {
    if exists|i: int| is_successor(listings, scraped, rep, i) {
        Some(listings[choose|i: int| is_successor(listings, scraped, rep, i)].id())
    } else {
        None
    }
}

pub open spec fn hand_over_note(new_id: Seq<char>) -> Seq<char> {
    "代表轉移給 "@ + new_id + "（原代表本身已從頁面消失，但同戶其他刊登仍在架）"@
}

/// The writes that make a known duplicate the representative.
pub open spec fn hand_over(r: RecordView, old_id: Seq<char>, new_id: Seq<char>) -> Seq<
    WriteView,
> {
    seq![
        WriteView::RepointDuplicates { from: old_id, to: new_id },
        WriteView::SetDuplicateOf {
            id: old_id,
            duplicate_of: Some(new_id),
            note: Some(hand_over_note(new_id)),
        },
        WriteView::SetDuplicateOf { id: new_id, duplicate_of: None, note: None },
    ] + review_moves(r, old_id, new_id)
}

/// The state after one representative has been looked at.
pub open spec fn succeeded(
    p: ProgressView,
    scraped: Seq<CardView>,
    rep: Seq<char>,
) -> ProgressView {
    if scraper::has_card(scraped, rep) {
        p
    } else {
        match successor(p.record.listings, scraped, rep) {
            Some(new_id) => ProgressView {
                id_changes: p.id_changes.push((rep, new_id)),
                ..performed(p, hand_over(p.record, rep, new_id))
            },
            None => p,
        }
    }
}

pub open spec fn all_succeeded(
    p: ProgressView,
    scraped: Seq<CardView>,
    reps: Seq<Seq<char>>,
) -> ProgressView
    decreases reps.len(),
{
    if reps.len() == 0 {
        p
    } else {
        succeeded(all_succeeded(p, scraped, reps.drop_last()), scraped, reps.last())
    }
}

pub open spec fn represents() -> spec_fn(ListingView) -> bool {
    |l: ListingView| l.duplicate_of is None
}

pub open spec fn id_of() -> spec_fn(ListingView) -> Seq<char> {
    |l: ListingView| l.id()
}

/// The ids of the representatives, in the order of the listings.
pub open spec fn representatives(listings: Seq<ListingView>) -> Seq<Seq<char>> {
    listings.filter(represents()).map_values(id_of())
}

/// One more listing at the end of a filtered and mapped sequence.
pub(crate) proof fn lemma_ids_where_push(
    listings: Seq<ListingView>,
    keep: spec_fn(ListingView) -> bool,
    i: int,
)
    requires
        0 <= i < listings.len(),
    ensures
        listings.take(i + 1).filter(keep).map_values(id_of()) == (if keep(listings[i]) {
            listings.take(i).filter(keep).map_values(id_of()).push(listings[i].id())
        } else {
            listings.take(i).filter(keep).map_values(id_of())
        }),
        listings.take(0).filter(keep).map_values(id_of()) == Seq::<Seq<char>>::empty(),
        listings.take(listings.len() as int) == listings,
{
    reveal(Seq::filter);
    assert(listings.take(i + 1).drop_last() =~= listings.take(i));
    assert(listings.take(listings.len() as int) =~= listings);
    let front = listings.take(i).filter(keep);
    if keep(listings[i]) {
        assert(listings.take(i + 1).filter(keep) =~= front.push(listings[i]));
        assert(front.push(listings[i]).map_values(id_of()) =~= front.map_values(id_of()).push(
            listings[i].id(),
        ));
    }
    assert(listings.take(0).filter(keep) =~= Seq::empty());
    assert(Seq::<ListingView>::empty().map_values(id_of()) =~= Seq::<Seq<char>>::empty());
}

fn representative_ids(record: &SearchRecord) -> (r: Vec<String>)
    ensures
        r.deep_view() == representatives(record@.listings),
{
    let mut r: Vec<String> = Vec::new();
    let ghost listings = record@.listings;
    proof {
        reveal(Seq::filter);
        assert(listings.take(0).filter(represents()) =~= Seq::empty());
        assert(r.deep_view() =~= representatives(listings.take(0)));
    }
    for i in 0..record.listings.len()
        invariant
            listings == record@.listings,
            r.deep_view() == representatives(listings.take(i as int)),
    {
        proof {
            lemma_ids_where_push(listings, represents(), i as int);
        }
        let l = &record.listings[i];
        if l.duplicate_of.is_none() {
            let ghost before = r.deep_view();
            r.push(l.card.id.clone());
            assert(r.deep_view() =~= before.push(listings[i as int].id()));
        }
    }
    assert(listings.take(listings.len() as int) =~= listings);
    r
}

fn number_of(id: &String) -> (r: u64)
    ensures
        r == id_number(id@),
{
    match parse_u64(id.as_str()) {
        Some(n) => n,
        None => u64::MAX,
    }
}

fn choose_successor(record: &SearchRecord, scraped: &Vec<ScrapedCard>, rep: &String) -> (r: Option<
    String,
>)
    ensures
        r.deep_view() == successor(record@.listings, scraped.deep_view(), rep@),
{
    let mut best: Option<usize> = None;
    let ghost listings = record@.listings;
    let ghost cards = scraped.deep_view();
    for i in 0..record.listings.len()
        invariant
            listings == record@.listings,
            cards == scraped.deep_view(),
            match best {
                Some(b) => b < i && is_successor(listings.take(i as int), cards, rep@, b as int),
                None => forall|j: int|
                    0 <= j < i ==> !is_present_member(#[trigger] listings[j], rep@, cards),
            },
    {
        let l = &record.listings[i];
        let ghost front = listings.take(i as int);
        let ghost more = listings.take(i + 1);
        proof {
            assert(more[i as int] == l@);
            assert(forall|j: int| 0 <= j < i ==> more[j] == front[j] && more[j] == listings[j]);
        }
        let member = match &l.duplicate_of {
            Some(d) => *d == *rep,
            None => false,
        };
        if member && contains_card(scraped, &l.card.id) {
            match best {
                Some(b) => {
                    if number_of(&l.card.id) < number_of(&record.listings[b].card.id) {
                        best = Some(i);
                    }
                },
                None => {
                    best = Some(i);
                },
            }
        }
    }
    assert(listings.take(listings.len() as int) =~= listings);
    match best {
        Some(b) => {
            proof {
                assert(is_successor(listings, cards, rep@, b as int));
                let c = choose|c: int| is_successor(listings, cards, rep@, c);
                assert(is_successor(listings, cards, rep@, c));
                assert(c == b);
            }
            Some(record.listings[b].card.id.clone())
        },
        None => None,
    }
}

fn transfer_representative_among_known(
    record: &SearchRecord,
    old_rep_id: &String,
    new_rep_id: &String,
) -> (r: Vec<Write>)
    requires
        record.keys_distinct(),
    ensures
        r.deep_view() == hand_over(record@, old_rep_id@, new_rep_id@),
{
    let mut note = "代表轉移給 ".to_owned();
    note.append(new_rep_id.as_str());
    note.append("（原代表本身已從頁面消失，但同戶其他刊登仍在架）");
    let mut r: Vec<Write> = Vec::new();
    r.push(Write::RepointDuplicates { from: old_rep_id.clone(), to: new_rep_id.clone() });
    r.push(
        Write::SetDuplicateOf {
            id: old_rep_id.clone(),
            duplicate_of: Some(new_rep_id.clone()),
            note: Some(note),
        },
    );
    r.push(Write::SetDuplicateOf { id: new_rep_id.clone(), duplicate_of: None, note: None });
    let mut moves = move_review(record, old_rep_id, new_rep_id);
    r.append(&mut moves);
    assert(r.deep_view() =~= hand_over(record@, old_rep_id@, new_rep_id@));
    r
}

impl Progress {
    fn succeed(
        &mut self,
        record: &mut SearchRecord,
        scraped: &Vec<ScrapedCard>,
        rep: &String,
    )
        requires
            old(record).keys_distinct(),
        ensures
            final(record).keys_distinct(),
            final(self).with(final(record)@) == succeeded(
                old(self).with(old(record)@),
                scraped.deep_view(),
                rep@,
            ),
    {
        if contains_card(scraped, rep) {
            return ;
        }
        match choose_successor(record, scraped, rep) {
            Some(new_id) => {
                let ghost before = self.with(record@);
                let writes = transfer_representative_among_known(record, rep, &new_id);
                self.perform(record, writes);
                let ghost changes = self.id_changes.deep_view();
                let ghost to = new_id@;
                self.id_changes.push((rep.clone(), new_id));
                proof {
                    assert(self.id_changes.deep_view() =~= changes.push((rep@, to)));
                    assert(self.with(record@) =~= succeeded(before, scraped.deep_view(), rep@));
                }
            },
            None => {},
        }
    }

    /// Where a representative is missing and duplicates of it are not, the one
    /// of these with the smallest number takes its place. This comes before
    /// any new card is looked at, so that a new card of such a household meets
    /// the representative that there now is.
    fn succeed_all(&mut self, record: &mut SearchRecord, scraped: &Vec<ScrapedCard>)
        requires
            old(record).keys_distinct(),
        ensures
            final(record).keys_distinct(),
            final(self).with(final(record)@) == all_succeeded(
                old(self).with(old(record)@),
                scraped.deep_view(),
                representatives(old(record)@.listings),
            ),
    {
        let reps = representative_ids(record);
        let ghost before = self.with(record@);
        let ghost all = reps.deep_view();
        for i in 0..reps.len()
            invariant
                all == reps.deep_view(),
                record.keys_distinct(),
                self.with(record@) == all_succeeded(before, scraped.deep_view(), all.take(i as int)),
        {
            proof {
                assert(all.take(i + 1).drop_last() =~= all.take(i as int));
                assert(all.take(i + 1).last() == reps[i as int]@);
            }
            self.succeed(record, scraped, &reps[i]);
        }
        assert(all.take(all.len() as int) =~= all);
    }
}

// ---------------------------------------------------------------------------
// The cards of the round
// ---------------------------------------------------------------------------

/// The listing at `i` is one household with the key, and was found in this
/// round or not as `present` says.
pub open spec fn is_match(
    p: ProgressView,
    scraped: Seq<CardView>,
    key: HouseholdView,
    present: bool,
    i: int,
) -> bool {
    &&& 0 <= i < p.record.listings.len()
    &&& scraper::has_card(scraped, p.record.listings[i].id()) == present
    &&& dedup::is_same_household(key, p.known[i])
}

pub open spec fn is_first_match(
    p: ProgressView,
    scraped: Seq<CardView>,
    key: HouseholdView,
    present: bool,
    i: int,
) -> bool {
    &&& is_match(p, scraped, key, present, i)
    &&& forall|j: int| 0 <= j < i ==> !#[trigger] is_match(p, scraped, key, present, j)
}

pub open spec fn first_match(
    p: ProgressView,
    scraped: Seq<CardView>,
    key: HouseholdView,
    present: bool,
) -> Option<int> {
    if exists|i: int| is_first_match(p, scraped, key, present, i) {
        Some(choose|i: int| is_first_match(p, scraped, key, present, i))
    } else {
        None
    }
}

pub open spec fn inserted(
    card: CardView,
    date: Date,
    duplicate_of: Option<Seq<char>>,
    note: Option<Seq<char>>,
) -> WriteView {
    WriteView::InsertListing { card, first_seen: date, duplicate_of, note }
}

pub open spec fn id_change_note(old_id: Seq<char>) -> Seq<char> {
    "由 "@ + old_id + " 轉移而來（591 id 換了但內容判定為同一戶）"@
}

/// The writes that give a household's listing another id: the card takes over
/// the part of the listing `old`, be it that of a representative or of a
/// duplicate, and its review.
pub open spec fn id_change(r: RecordView, old: ListingView, card: CardView, date: Date) -> Seq<
    WriteView,
> {
    let new_rep = if old.duplicate_of is None { card.id } else { old.duplicate_of->0 };
    let insert = inserted(
        card,
        date,
        if new_rep == card.id {
            None
        } else {
            Some(new_rep)
        },
        Some(id_change_note(old.id())),
    );
    let repoint = if old.duplicate_of is None {
        seq![WriteView::RepointDuplicates { from: old.id(), to: card.id }]
    } else {
        seq![]
    };
    let leave = WriteView::SetDuplicateOf {
        id: old.id(),
        duplicate_of: Some(new_rep),
        note: None,
    };
    seq![insert] + repoint + seq![leave] + review_moves(r, old.id(), card.id)
}

/// The state after a card that the record did not know.
pub open spec fn added(p: ProgressView, card: CardView, ws: Seq<WriteView>) -> ProgressView {
    ProgressView {
        new_ids: p.new_ids.push(card.id),
        known: p.known.push(card_key(card)),
        ..performed(p, ws)
    }
}

/// The state after a card has been looked at.
pub open spec fn taken(
    p: ProgressView,
    scraped: Seq<CardView>,
    date: Date,
    card: CardView,
) -> ProgressView {
    if record::has_listing(p.record.listings, card.id) {
        performed(p, seq![WriteView::UpdateListing { card }])
    } else {
        match first_match(p, scraped, card_key(card), true) {
            Some(i) => added(
                p,
                card,
                seq![
                    inserted(card, date, Some(p.record.listings[i].representative()), None),
                ],
            ),
            None => match first_match(p, scraped, card_key(card), false) {
                Some(i) => {
                    let old = p.record.listings[i];
                    ProgressView {
                        id_changes: p.id_changes.push((old.id(), card.id)),
                        ..added(p, card, id_change(p.record, old, card, date))
                    }
                },
                None => added(p, card, seq![inserted(card, date, None, None)]),
            },
        }
    }
}

/// The state after the cards, one after the other.
pub open spec fn all_taken(
    p: ProgressView,
    scraped: Seq<CardView>,
    date: Date,
    cards: Seq<CardView>,
) -> ProgressView
    decreases cards.len(),
{
    if cards.len() == 0 {
        p
    } else {
        taken(all_taken(p, scraped, date, cards.drop_last()), scraped, date, cards.last())
    }
}

pub(crate) proof fn lemma_first_match_is(
    p: ProgressView,
    scraped: Seq<CardView>,
    key: HouseholdView,
    present: bool,
    i: int,
)
    requires
        is_first_match(p, scraped, key, present, i),
    ensures
        first_match(p, scraped, key, present) == Some(i),
{
    let c = choose|c: int| is_first_match(p, scraped, key, present, c);
    assert(is_first_match(p, scraped, key, present, c));
    if c < i {
        assert(!is_match(p, scraped, key, present, c));
    } else if i < c {
        assert(!is_match(p, scraped, key, present, i));
    }
}

fn one_write(w: Write) -> (r: Vec<Write>)
    ensures
        r.deep_view() == seq![w@],
{
    let mut r: Vec<Write> = Vec::new();
    r.push(w);
    assert(r.deep_view() =~= seq![w@]);
    r
}

fn update_known_listing(card: &ScrapedCard) -> (r: Vec<Write>)
    ensures
        r.deep_view() == seq![WriteView::UpdateListing { card: card@ }],
{
    one_write(Write::UpdateListing { card: card.clone() })
}

fn insert_new_household(card: &ScrapedCard, checked_date: Date) -> (r: Vec<Write>)
    ensures
        r.deep_view() == seq![inserted(card@, checked_date, None, None)],
{
    one_write(
        Write::InsertListing {
            card: card.clone(),
            first_seen: checked_date,
            duplicate_of: None,
            note: None,
        },
    )
}

/// The household is there under another id: this is one more agent's
/// advertisement.
fn insert_new_duplicate(
    card: &ScrapedCard,
    representative_id: String,
    checked_date: Date,
) -> (r: Vec<Write>)
    ensures
        r.deep_view() == seq![inserted(card@, checked_date, Some(representative_id@), None)],
{
    one_write(
        Write::InsertListing {
            card: card.clone(),
            first_seen: checked_date,
            duplicate_of: Some(representative_id),
            note: None,
        },
    )
}

/// The household was there under another id, which is gone.
fn transfer_to_new_id(
    record: &SearchRecord,
    old: usize,
    card: &ScrapedCard,
    checked_date: Date,
) -> (r: Vec<Write>)
    requires
        record.keys_distinct(),
        old < record.listings.len(),
    ensures
        r.deep_view() == id_change(record@, record@.listings[old as int], card@, checked_date),
{
    let old_listing = &record.listings[old];
    let old_id = &old_listing.card.id;
    let was_representative = old_listing.duplicate_of.is_none();
    let new_rep = match &old_listing.duplicate_of {
        Some(d) => d.clone(),
        None => card.id.clone(),
    };
    let mut note = "由 ".to_owned();
    note.append(old_id.as_str());
    note.append(" 轉移而來（591 id 換了但內容判定為同一戶）");
    let mut r: Vec<Write> = Vec::new();
    r.push(
        Write::InsertListing {
            card: card.clone(),
            first_seen: checked_date,
            duplicate_of: if new_rep == card.id {
                None
            } else {
                Some(new_rep.clone())
            },
            note: Some(note),
        },
    );
    if was_representative {
        r.push(Write::RepointDuplicates { from: old_id.clone(), to: card.id.clone() });
    }
    r.push(Write::SetDuplicateOf { id: old_id.clone(), duplicate_of: Some(new_rep), note: None });
    let mut moves = move_review(record, old_id, &card.id);
    r.append(&mut moves);
    assert(r.deep_view() =~= id_change(
        record@,
        record@.listings[old as int],
        card@,
        checked_date,
    ));
    r
}

impl Progress {
    fn find_match(
        &self,
        record: &SearchRecord,
        scraped: &Vec<ScrapedCard>,
        key: &HouseholdKey,
        present: bool,
    ) -> (r: Option<usize>)
        requires
            self.known.len() == record.listings.len(),
        ensures
            match r {
                Some(i) => i < record.listings.len() && first_match(
                    self.with(record@),
                    scraped.deep_view(),
                    key@,
                    present,
                ) == Some(i as int),
                None => first_match(self.with(record@), scraped.deep_view(), key@, present) is None,
            },
    {
        let ghost p = self.with(record@);
        let ghost cards = scraped.deep_view();
        for i in 0..record.listings.len()
            invariant
                self.known.len() == record.listings.len(),
                p == self.with(record@),
                cards == scraped.deep_view(),
                forall|j: int| 0 <= j < i ==> !#[trigger] is_match(p, cards, key@, present, j),
        {
            let there = contains_card(scraped, &record.listings[i].card.id);
            if there == present && same_household(key, &self.known[i].household_key()) {
                proof {
                    assert(is_match(p, cards, key@, present, i as int));
                    lemma_first_match_is(p, cards, key@, present, i as int);
                }
                return Some(i);
            }
            assert(!is_match(p, cards, key@, present, i as int));
        }
        None
    }

    /// Performs the writes for a card that the record did not know.
    fn add(&mut self, record: &mut SearchRecord, card: &ScrapedCard, writes: Vec<Write>)
        requires
            old(record).keys_distinct(),
            forall|i: int|
                0 < i < writes.len() ==> !(#[trigger] writes.deep_view()[i] is InsertListing),
            writes.len() > 0 ==> record::is_allowed(old(record)@, writes.deep_view()[0]),
        ensures
            final(record).keys_distinct(),
            final(self).with(final(record)@) == added(
                old(self).with(old(record)@),
                card@,
                writes.deep_view(),
            ),
    {
        let ghost before = self.with(record@);
        self.perform(record, writes);
        self.new_ids.push(card.id.clone());
        self.known.push(ExistingListing::of_card(card));
        proof {
            assert(self.new_ids.deep_view() =~= before.new_ids.push(card.id@));
            assert(self.known.deep_view() =~= before.known.push(card_key(card@)));
            assert(self.with(record@) =~= added(before, card@, writes.deep_view()));
        }
    }

    /// Takes one card in: it is known, or one more advertisement of a
    /// household that is there, or a household that was there under another
    /// id, or a new household.
    fn take(
        &mut self,
        record: &mut SearchRecord,
        scraped: &Vec<ScrapedCard>,
        checked_date: Date,
        card: &ScrapedCard,
    )
        requires
            old(record).keys_distinct(),
            old(self).known.len() == old(record).listings.len(),
        ensures
            final(record).keys_distinct(),
            final(self).known.len() == final(record).listings.len(),
            final(self).with(final(record)@) == taken(
                old(self).with(old(record)@),
                scraped.deep_view(),
                checked_date,
                card@,
            ),
    {
        let ghost before = self.with(record@);
        let ghost cards = scraped.deep_view();
        if record.find_listing(card.id.as_str()).is_some() {
            self.perform(record, update_known_listing(card));
            proof {
                lemma_one_write(before.record, WriteView::UpdateListing { card: card@ });
                assert(self.with(record@).known == before.known);
                assert(self.known.len() == self.with(record@).known.len());
                assert(record.listings.len() == self.with(record@).record.listings.len());
            }
            return ;
        }
        let key = card_household_key(card);
        match self.find_match(record, scraped, &key, true) {
            Some(i) => {
                let l = &record.listings[i];
                let rep = match &l.duplicate_of {
                    Some(d) => d.clone(),
                    None => l.card.id.clone(),
                };
                let writes = insert_new_duplicate(card, rep, checked_date);
                self.add(record, card, writes);
            },
            None => match self.find_match(record, scraped, &key, false) {
                Some(i) => {
                    let old_id = record.listings[i].card.id.clone();
                    let writes = transfer_to_new_id(record, i, card, checked_date);
                    proof {
                        let ws = writes.deep_view();
                        let old_listing = before.record.listings[i as int];
                        assert(ws == id_change(before.record, old_listing, card@, checked_date));
                    }
                    self.add(record, card, writes);
                    let ghost changes = self.id_changes.deep_view();
                    let ghost from = old_id@;
                    self.id_changes.push((old_id, card.id.clone()));
                    assert(self.id_changes.deep_view() =~= changes.push((from, card.id@)));
                },
                None => {
                    let writes = insert_new_household(card, checked_date);
                    self.add(record, card, writes);
                },
            },
        }
        proof {
            assert(self.with(record@) =~= taken(before, cards, checked_date, card@));
            lemma_taken_len(before, cards, checked_date, card@);
            assert(self.known.len() == self.with(record@).known.len());
            assert(record.listings.len() == self.with(record@).record.listings.len());
        }
    }

    fn take_all(
        &mut self,
        record: &mut SearchRecord,
        scraped: &Vec<ScrapedCard>,
        checked_date: Date,
    )
        requires
            old(record).keys_distinct(),
            old(self).known.len() == old(record).listings.len(),
        ensures
            final(record).keys_distinct(),
            final(self).with(final(record)@) == all_taken(
                old(self).with(old(record)@),
                scraped.deep_view(),
                checked_date,
                scraped.deep_view(),
            ),
    {
        let ghost before = self.with(record@);
        let ghost all = scraped.deep_view();
        for i in 0..scraped.len()
            invariant
                all == scraped.deep_view(),
                record.keys_distinct(),
                self.known.len() == record.listings.len(),
                self.with(record@) == all_taken(before, all, checked_date, all.take(i as int)),
        {
            proof {
                assert(all.take(i + 1).drop_last() =~= all.take(i as int));
                assert(all.take(i + 1).last() == scraped[i as int]@);
            }
            self.take(record, scraped, checked_date, &scraped[i]);
        }
        assert(all.take(all.len() as int) =~= all);
    }
}

pub(crate) proof fn lemma_one_write(r: RecordView, w: WriteView)
    ensures
        record::apply_writes(r, seq![w]) == record::apply_write(r, w),
{
    assert(seq![w] =~= Seq::<WriteView>::empty().push(w));
    record::lemma_apply_writes_push(r, seq![], w);
}

/// Writes that add no listing change no number of listings.
pub(crate) proof fn lemma_len_after_writes(r: RecordView, ws: Seq<WriteView>)
    requires
        forall|i: int| 0 <= i < ws.len() ==> !(#[trigger] ws[i] is InsertListing),
    ensures
        record::apply_writes(r, ws).listings.len() == r.listings.len(),
    decreases ws.len(),
{
    if ws.len() > 0 {
        lemma_len_after_writes(r, ws.drop_last());
        assert(!(ws[ws.len() - 1] is InsertListing));
    }
}

/// A card that the record did not know makes it one listing longer.
pub(crate) proof fn lemma_taken_len(
    p: ProgressView,
    scraped: Seq<CardView>,
    date: Date,
    card: CardView,
)
    ensures
        taken(p, scraped, date, card).record.listings.len() - p.record.listings.len() == taken(
            p,
            scraped,
            date,
            card,
        ).known.len() - p.known.len(),
{
    if record::has_listing(p.record.listings, card.id) {
        lemma_one_write(p.record, WriteView::UpdateListing { card });
    } else if first_match(p, scraped, card_key(card), true) is Some {
        let i = first_match(p, scraped, card_key(card), true)->0;
        lemma_one_write(
            p.record,
            inserted(card, date, Some(p.record.listings[i].representative()), None),
        );
    } else if first_match(p, scraped, card_key(card), false) is Some {
        let old = p.record.listings[first_match(p, scraped, card_key(card), false)->0];
        let ws = id_change(p.record, old, card, date);
        let rest = ws.skip(1);
        assert(ws =~= seq![ws[0]] + rest);
        record::lemma_apply_writes_add(p.record, seq![ws[0]], rest);
        lemma_one_write(p.record, ws[0]);
        lemma_len_after_writes(record::apply_write(p.record, ws[0]), rest);
    } else {
        lemma_one_write(p.record, inserted(card, date, None, None));
    }
}

// ---------------------------------------------------------------------------
// What is off the market, and what is on it again
// ---------------------------------------------------------------------------

/// A listing of the household that `rep` represents was found in this round.
pub open spec fn is_household_seen(
    listings: Seq<ListingView>,
    scraped: Seq<CardView>,
    rep: Seq<char>,
) -> bool {
    exists|i: int|
        0 <= i < listings.len() && (#[trigger] listings[i]).representative() == rep
            && scraper::has_card(scraped, listings[i].id())
}

/// The listing was missing from the previous round already. Nothing was where
/// there was no such round.
pub open spec fn missed_last_time(last_seen: Option<i64>, previous_run: Option<i64>) -> bool {
    match (last_seen, previous_run) {
        (_, None) => false,
        (Some(seen), Some(prev)) => seen < prev,
        (None, Some(_)) => true,
    }
}

/// A household on the market that is missing for the second time.
pub open spec fn is_gone(r: RecordView, scraped: Seq<CardView>, l: ListingView) -> bool {
    &&& l.duplicate_of is None
    &&& !l.delisted
    &&& !is_household_seen(r.listings, scraped, l.id())
    &&& missed_last_time(l.last_seen_check_run_id, record::latest_run(r.check_runs))
}

/// A household off the market that was found again.
pub open spec fn is_back(r: RecordView, scraped: Seq<CardView>, l: ListingView) -> bool {
    &&& l.duplicate_of is None
    &&& l.delisted
    &&& is_household_seen(r.listings, scraped, l.id())
}

pub open spec fn gone(r: RecordView, scraped: Seq<CardView>) -> spec_fn(ListingView) -> bool {
    |l: ListingView| is_gone(r, scraped, l)
}

pub open spec fn back(r: RecordView, scraped: Seq<CardView>) -> spec_fn(ListingView) -> bool {
    |l: ListingView| is_back(r, scraped, l)
}

pub open spec fn ids_where(
    listings: Seq<ListingView>,
    keep: spec_fn(ListingView) -> bool,
) -> Seq<Seq<char>> {
    listings.filter(keep).map_values(id_of())
}

pub open spec fn delist_writes(ids: Seq<Seq<char>>, date: Date) -> Seq<WriteView> {
    Seq::new(ids.len(), |i: int| WriteView::Delist { id: ids[i], date })
}

pub open spec fn relist_writes(ids: Seq<Seq<char>>) -> Seq<WriteView> {
    Seq::new(ids.len(), |i: int| WriteView::Relist { id: ids[i] })
}

/// Whether a listing of the household was found in this round.
fn household_seen_today(
    record: &SearchRecord,
    scraped: &Vec<ScrapedCard>,
    rep: &String,
) -> (r: bool)
    ensures
        r == is_household_seen(record@.listings, scraped.deep_view(), rep@),
{
    for i in 0..record.listings.len()
        invariant
            forall|j: int|
                0 <= j < i ==> !((#[trigger] record@.listings[j]).representative() == rep@
                    && scraper::has_card(scraped.deep_view(), record@.listings[j].id())),
    {
        let l = &record.listings[i];
        assert(record@.listings[i as int] == l@);
        let member = match &l.duplicate_of {
            Some(d) => *d == *rep,
            None => l.card.id == *rep,
        };
        if member && contains_card(scraped, &l.card.id) {
            return true;
        }
    }
    false
}

/// The ids to be taken off the market, and those to be put on it again.
fn delisting_decisions(record: &SearchRecord, scraped: &Vec<ScrapedCard>) -> (r: (
    Vec<String>,
    Vec<String>,
))
    ensures
        r.0.deep_view() == ids_where(record@.listings, gone(record@, scraped.deep_view())),
        r.1.deep_view() == ids_where(record@.listings, back(record@, scraped.deep_view())),
{
    let previous_run_id = record.previous_run();
    let mut delisted_ids: Vec<String> = Vec::new();
    let mut relisted_ids: Vec<String> = Vec::new();
    let ghost listings = record@.listings;
    let ghost out = gone(record@, scraped.deep_view());
    let ghost again = back(record@, scraped.deep_view());
    proof {
        reveal(Seq::filter);
        assert(listings.take(0).filter(out) =~= Seq::empty());
        assert(listings.take(0).filter(again) =~= Seq::empty());
        assert(delisted_ids.deep_view() =~= ids_where(listings.take(0), out));
        assert(relisted_ids.deep_view() =~= ids_where(listings.take(0), again));
    }
    for i in 0..record.listings.len()
        invariant
            listings == record@.listings,
            out == gone(record@, scraped.deep_view()),
            again == back(record@, scraped.deep_view()),
            previous_run_id == record::latest_run(record@.check_runs),
            delisted_ids.deep_view() == ids_where(listings.take(i as int), out),
            relisted_ids.deep_view() == ids_where(listings.take(i as int), again),
    {
        proof {
            lemma_ids_where_push(listings, out, i as int);
            lemma_ids_where_push(listings, again, i as int);
        }
        let l = &record.listings[i];
        assert(listings[i as int] == l@);
        let ghost before = delisted_ids.deep_view();
        let ghost before_again = relisted_ids.deep_view();
        if l.duplicate_of.is_none() {
            if household_seen_today(record, scraped, &l.card.id) {
                if l.delisted {
                    relisted_ids.push(l.card.id.clone());
                    assert(relisted_ids.deep_view() =~= before_again.push(l@.id()));
                }
            } else if !l.delisted {
                let missed = match (l.last_seen_check_run_id, previous_run_id) {
                    (_, None) => false,
                    (Some(last_seen), Some(prev)) => last_seen < prev,
                    (None, Some(_)) => true,
                };
                if missed {
                    delisted_ids.push(l.card.id.clone());
                    assert(delisted_ids.deep_view() =~= before.push(l@.id()));
                }
            }
        }
    }
    assert(listings.take(listings.len() as int) =~= listings);
    (delisted_ids, relisted_ids)
}

fn market_writes(delisted: &Vec<String>, relisted: &Vec<String>, date: Date) -> (r: Vec<Write>)
    ensures
        r.deep_view() == delist_writes(delisted.deep_view(), date) + relist_writes(
            relisted.deep_view(),
        ),
{
    let mut r: Vec<Write> = Vec::new();
    for i in 0..delisted.len()
        invariant
            r.deep_view() == delist_writes(delisted.deep_view(), date).take(i as int),
    {
        let ghost before = r.deep_view();
        r.push(Write::Delist { id: delisted[i].clone(), date });
        proof {
            let w = WriteView::Delist { id: delisted[i as int]@, date };
            assert(r.deep_view() =~= before.push(w));
            assert(r.deep_view() =~= delist_writes(delisted.deep_view(), date).take(i + 1));
        }
    }
    let ghost first = delist_writes(delisted.deep_view(), date);
    assert(r.deep_view() =~= first);
    for i in 0..relisted.len()
        invariant
            r.deep_view() == first + relist_writes(relisted.deep_view()).take(i as int),
    {
        let ghost before = r.deep_view();
        r.push(Write::Relist { id: relisted[i].clone() });
        proof {
            let w = WriteView::Relist { id: relisted[i as int]@ };
            assert(r.deep_view() =~= before.push(w));
            assert(r.deep_view() =~= first + relist_writes(relisted.deep_view()).take(i + 1));
        }
    }
    assert(r.deep_view() =~= first + relist_writes(relisted.deep_view()));
    r
}

// ---------------------------------------------------------------------------
// A round
// ---------------------------------------------------------------------------

/// What a round decided, before the database gave it an id.
#[derive(Debug)]
pub struct Reconciliation {
    pub checked_date: Date,
    /// What is to be done in the database.
    pub writes: Vec<Write>,
    /// The ids that the record did not know, whatever they turned out to be.
    pub new_ids: Vec<String>,
    /// The representatives that are now off the market.
    pub delisted_ids: Vec<String>,
    /// Old and new id of each listing whose part another took over.
    pub id_changes: Vec<(String, String)>,
    /// How many households are on the market.
    pub total_active_representatives: i64,
    /// What is noted of the round.
    pub note: String,
}

#[verifier::ext_equal]
pub struct ReconciliationView {
    pub checked_date: Date,
    pub writes: Seq<WriteView>,
    pub new_ids: Seq<Seq<char>>,
    pub delisted_ids: Seq<Seq<char>>,
    pub id_changes: Seq<(Seq<char>, Seq<char>)>,
    pub total_active_representatives: int,
    pub note: Seq<char>,
}

impl View for Reconciliation {
    type V = ReconciliationView;

    open spec fn view(&self) -> ReconciliationView {
        ReconciliationView {
            checked_date: self.checked_date,
            writes: self.writes.deep_view(),
            new_ids: self.new_ids.deep_view(),
            delisted_ids: self.delisted_ids.deep_view(),
            id_changes: self.id_changes.deep_view(),
            total_active_representatives: self.total_active_representatives as int,
            note: self.note@,
        }
    }
}

/// The state once every representative and every card has been looked at.
pub open spec fn matched(r: RecordView, date: Date, scraped: Seq<CardView>) -> ProgressView {
    all_taken(
        all_succeeded(started(r), scraped, representatives(r.listings)),
        scraped,
        date,
        scraped,
    )
}

/// The state at the end of a round.
pub open spec fn settled(r: RecordView, date: Date, scraped: Seq<CardView>) -> ProgressView {
    let p = matched(r, date, scraped);
    performed(
        p,
        delist_writes(ids_where(p.record.listings, gone(p.record, scraped)), date) + relist_writes(
            ids_where(p.record.listings, back(p.record, scraped)),
        ),
    )
}

pub open spec fn round_note(new: nat, delisted: nat, changed: nat) -> Seq<char> {
    "新增 "@ + text::decimal(new) + " 筆、下架 "@ + text::decimal(delisted) + " 筆、換id轉移 "@
        + text::decimal(changed) + " 筆"@
}

/// What a round decides.
pub open spec fn reconciled(
    r: RecordView,
    date: Date,
    scraped: Seq<CardView>,
) -> ReconciliationView {
    let p = matched(r, date, scraped);
    let end = settled(r, date, scraped);
    let delisted_ids = ids_where(p.record.listings, gone(p.record, scraped));
    ReconciliationView {
        checked_date: date,
        writes: end.writes,
        new_ids: end.new_ids,
        delisted_ids,
        id_changes: end.id_changes,
        total_active_representatives: record::active_count(end.record.listings) as int,
        note: round_note(end.new_ids.len(), delisted_ids.len(), end.id_changes.len()),
    }
}

fn note_of(new: usize, delisted: usize, changed: usize) -> (r: String)
    ensures
        r@ == round_note(new as nat, delisted as nat, changed as nat),
{
    let mut note = "新增 ".to_owned();
    note.append(decimal_text(new as u64).as_str());
    note.append(" 筆、下架 ");
    note.append(decimal_text(delisted as u64).as_str());
    note.append(" 筆、換id轉移 ");
    note.append(decimal_text(changed as u64).as_str());
    note.append(" 筆");
    note
}

/// Brings the record of a search up to date with the cards of a round, and
/// tells what is to be done in the database for that.
pub fn reconcile_tracked_search(
    record: &mut SearchRecord,
    checked_date: Date,
    scraped: &Vec<ScrapedCard>,
) -> (r: Reconciliation)
    requires
        old(record).keys_distinct(),
        old(record).listings.len() + scraped.len() <= i64::MAX,
    ensures
        r@ == reconciled(old(record)@, checked_date, scraped.deep_view()),
        final(record)@ == settled(old(record)@, checked_date, scraped.deep_view()).record,
        final(record)@ == record::apply_writes(old(record)@, r.writes.deep_view()),
        final(record).keys_distinct(),
{
    let ghost r0 = record@;
    let ghost cards = scraped.deep_view();
    let mut progress = Progress::start(record);
    progress.succeed_all(record, scraped);
    proof {
        steps::lemma_all_succeeded_shape(started(r0), cards, representatives(r0.listings));
        assert(progress.known.len() == progress.with(record@).known.len());
        assert(record.listings.len() == progress.with(record@).record.listings.len());
    }
    progress.take_all(record, scraped, checked_date);
    let ghost p = progress.with(record@);
    let (delisted_ids, relisted_ids) = delisting_decisions(record, scraped);
    let writes = market_writes(&delisted_ids, &relisted_ids, checked_date);
    progress.perform(record, writes);
    proof {
        steps::lemma_lengths(r0, checked_date, cards);
        steps::lemma_writes_lead_to_record(r0, checked_date, cards);
        record::lemma_active_count(record@.listings);
        assert(progress.with(record@) == settled(r0, checked_date, cards));
    }
    let total_active_representatives = record.count_active() as i64;
    let note = note_of(progress.new_ids.len(), delisted_ids.len(), progress.id_changes.len());
    proof {
        assert(progress.new_ids.len() == progress.with(record@).new_ids.len());
        assert(progress.id_changes.len() == progress.with(record@).id_changes.len());
        assert(delisted_ids.len() == delisted_ids.deep_view().len());
    }
    let r = Reconciliation {
        checked_date,
        writes: progress.writes,
        new_ids: progress.new_ids,
        delisted_ids,
        id_changes: progress.id_changes,
        total_active_representatives,
        note,
    };
    assert(r@ =~= reconciled(r0, checked_date, cards));
    r
}

/// What a round found.
#[derive(Debug, Default)]
pub struct ReconcileSummary {
    pub check_run_id: i64,
    /// The ids that the record did not know, whatever they turned out to be:
    /// new households, further advertisements or old ones under a new id.
    pub new_ids: Vec<String>,
    /// The representatives that were missing from two rounds in a row.
    pub delisted_ids: Vec<String>,
    /// Old and new id of each listing whose part another took over.
    pub id_changes: Vec<(String, String)>,
    /// How many households are on the market.
    pub total_active_representatives: i64,
}

/// The row that tells of a round.
pub open spec fn run_row(rec: ReconciliationView, check_run_id: i64) -> CheckRunView {
    CheckRunView {
        id: check_run_id,
        checked_date: rec.checked_date,
        new_count: rec.new_ids.len() as i64,
        total_count: rec.total_active_representatives as i64,
        note: Some(rec.note),
    }
}

pub open spec fn seen_writes(cards: Seq<CardView>, check_run_id: i64) -> Seq<WriteView> {
    Seq::new(cards.len(), |i: int| WriteView::MarkSeen { id: cards[i].id, check_run_id })
}

pub open spec fn event_writes(
    ids: Seq<Seq<char>>,
    check_run_id: i64,
    event_type: CheckRunEventType,
) -> Seq<WriteView> {
    Seq::new(
        ids.len(),
        |i: int| WriteView::AddEvent { check_run_id, listing_id: ids[i], event_type },
    )
}

/// The writes that need the id of the round: every id found was seen in it,
/// what is new and what is gone is noted, and the search has been checked.
pub open spec fn closing_writes(
    rec: ReconciliationView,
    scraped: Seq<CardView>,
    check_run_id: i64,
) -> Seq<WriteView> {
    seen_writes(scraper::first_by_id(scraped), check_run_id) + event_writes(
        rec.new_ids,
        check_run_id,
        CheckRunEventType::New,
    ) + event_writes(rec.delisted_ids, check_run_id, CheckRunEventType::Delisted) + seq![
        WriteView::SetLastChecked { date: rec.checked_date },
    ]
}

/// The record after a round has been written down.
pub open spec fn closed(
    r: RecordView,
    rec: ReconciliationView,
    scraped: Seq<CardView>,
    check_run_id: i64,
) -> RecordView {
    record::apply_writes(
        RecordView { check_runs: r.check_runs.push(run_row(rec, check_run_id)), ..r },
        closing_writes(rec, scraped, check_run_id),
    )
}

fn push_seen(writes: &mut Vec<Write>, scraped: &Vec<ScrapedCard>, check_run_id: i64)
    ensures
        final(writes).deep_view() == old(writes).deep_view() + seen_writes(
            scraper::first_by_id(scraped.deep_view()),
            check_run_id,
        ),
{
    let ghost before = writes.deep_view();
    let ghost all = scraped.deep_view();
    let mut i: usize = 0;
    assert(writes.deep_view() =~= before + seen_writes(
        scraper::first_by_id(all.take(0)),
        check_run_id,
    ));
    while i < scraped.len()
        invariant
            i <= scraped.len(),
            all == scraped.deep_view(),
            writes.deep_view() == before + seen_writes(
                scraper::first_by_id(all.take(i as int)),
                check_run_id,
            ),
        decreases scraped.len() - i,
    {
        let ghost kept = scraper::first_by_id(all.take(i as int));
        proof {
            assert(all.take(i + 1).drop_last() =~= all.take(i as int));
            assert(all.take(i + 1).last() == scraped[i as int]@);
        }
        if !appears_before(scraped, i) {
            let ghost so_far = writes.deep_view();
            writes.push(Write::MarkSeen { id: scraped[i].id.clone(), check_run_id });
            proof {
                let w = WriteView::MarkSeen { id: scraped[i as int].id@, check_run_id };
                assert(writes.deep_view() =~= so_far.push(w));
                assert(writes.deep_view() =~= before + seen_writes(
                    kept.push(all[i as int]),
                    check_run_id,
                ));
            }
        }
        i = i + 1;
    }
    assert(all.take(all.len() as int) =~= all);
}

fn appears_before(scraped: &Vec<ScrapedCard>, i: usize) -> (r: bool)
    requires
        i < scraped.len(),
    ensures
        r == scraper::has_card(scraped.deep_view().take(i as int), scraped[i as int].id@),
{
    let ghost front = scraped.deep_view().take(i as int);
    for j in 0..i
        invariant
            i < scraped.len(),
            front == scraped.deep_view().take(i as int),
            forall|k: int| 0 <= k < j ==> (#[trigger] front[k]).id != scraped[i as int].id@,
    {
        if scraped[j].id == scraped[i].id {
            assert(front[j as int].id == scraped[i as int].id@);
            return true;
        }
    }
    false
}

fn push_events(
    writes: &mut Vec<Write>,
    ids: &Vec<String>,
    check_run_id: i64,
    event_type: CheckRunEventType,
)
    ensures
        final(writes).deep_view() == old(writes).deep_view() + event_writes(
            ids.deep_view(),
            check_run_id,
            event_type,
        ),
{
    let ghost before = writes.deep_view();
    for i in 0..ids.len()
        invariant
            writes.deep_view() == before + event_writes(
                ids.deep_view(),
                check_run_id,
                event_type,
            ).take(i as int),
    {
        let ghost so_far = writes.deep_view();
        writes.push(Write::AddEvent { check_run_id, listing_id: ids[i].clone(), event_type });
        proof {
            let w = WriteView::AddEvent {
                check_run_id,
                listing_id: ids[i as int]@,
                event_type,
            };
            assert(writes.deep_view() =~= so_far.push(w));
            assert(writes.deep_view() =~= before + event_writes(
                ids.deep_view(),
                check_run_id,
                event_type,
            ).take(i + 1));
        }
    }
    assert(writes.deep_view() =~= before + event_writes(ids.deep_view(), check_run_id, event_type));
}

/// Writes a round down under the id that the database gave it, and tells what
/// else is to be done in the database.
pub fn close_check_run(
    record: &mut SearchRecord,
    reconciliation: Reconciliation,
    scraped: &Vec<ScrapedCard>,
    check_run_id: i64,
) -> (r: (ReconcileSummary, Vec<Write>))
    requires
        old(record).keys_distinct(),
        reconciliation.new_ids.len() <= i64::MAX,
    ensures
        final(record).keys_distinct(),
        final(record)@ == closed(old(record)@, reconciliation@, scraped.deep_view(), check_run_id),
        r.1.deep_view() == closing_writes(reconciliation@, scraped.deep_view(), check_run_id),
        r.0.check_run_id == check_run_id,
        r.0.new_ids.deep_view() == reconciliation@.new_ids,
        r.0.delisted_ids.deep_view() == reconciliation@.delisted_ids,
        r.0.id_changes.deep_view() == reconciliation@.id_changes,
        r.0.total_active_representatives == reconciliation@.total_active_representatives,
{
    let ghost rec = reconciliation@;
    let ghost cards = scraped.deep_view();
    let run = CheckRun {
        id: check_run_id,
        checked_date: reconciliation.checked_date,
        new_count: reconciliation.new_ids.len() as i64,
        total_count: reconciliation.total_active_representatives,
        note: Some(reconciliation.note.clone()),
    };
    assert(run@ == run_row(rec, check_run_id));
    record.add_run(run);
    let mut writes: Vec<Write> = Vec::new();
    push_seen(&mut writes, scraped, check_run_id);
    push_events(&mut writes, &reconciliation.new_ids, check_run_id, CheckRunEventType::New);
    push_events(
        &mut writes,
        &reconciliation.delisted_ids,
        check_run_id,
        CheckRunEventType::Delisted,
    );
    writes.push(Write::SetLastChecked { date: reconciliation.checked_date });
    let ghost all = writes.deep_view();
    assert(all =~= closing_writes(rec, cards, check_run_id));
    assert(forall|i: int| 0 <= i < all.len() ==> !(#[trigger] all[i] is InsertListing));
    let ghost r0 = record@;
    for i in 0..writes.len()
        invariant
            all == writes.deep_view(),
            forall|i: int| 0 <= i < all.len() ==> !(#[trigger] all[i] is InsertListing),
            record.keys_distinct(),
            record@ == record::apply_writes(r0, all.take(i as int)),
    {
        proof {
            assert(all[i as int] == writes@[i as int]@);
            assert(all.take(i + 1) =~= all.take(i as int).push(all[i as int]));
            record::lemma_apply_writes_push(r0, all.take(i as int), all[i as int]);
        }
        record.apply(&writes[i]);
    }
    assert(all.take(all.len() as int) =~= all);
    let summary = ReconcileSummary {
        check_run_id,
        new_ids: reconciliation.new_ids,
        delisted_ids: reconciliation.delisted_ids,
        id_changes: reconciliation.id_changes,
        total_active_representatives: reconciliation.total_active_representatives,
    };
    (summary, writes)
}

} // verus!

//! What the page shows and what the forms come to, stated of what is handed in.

use crate::date::Date;
use crate::db::models::{NewSearchView, ReviewDecision};
use crate::db::record::WriteView;
use crate::db::tables::SearchWriteView;
use crate::json;
use crate::query;
use crate::text;
use crate::web::handlers;
use crate::web::handlers::{
    AddTrackedSearchForm, ListingRowView, ReplyView, ReviewForm, ReviewMarkView, TrackedSearchView,
};
use vstd::prelude::*;

verus! {

// ---------------------------------------------------------------------------
// The page
// ---------------------------------------------------------------------------

/// A card on the page shows its listing as it is, and whether it was first
/// seen today.
pub proof fn law_card_shows_its_listing(row: ListingRowView, today: Date)
    ensures
        ({
            let card = handlers::shown(row, today);
            &&& card.tracked_search_id == row.tracked_search_id
            &&& card.id == row.card.id
            &&& card.title == row.card.title
            &&& card.price == row.card.price
            &&& card.unit_price == row.card.unit_price
            &&& card.rooms == row.card.rooms
            &&& card.area == row.card.area
            &&& card.main_area == row.card.main_area
            &&& card.age == row.card.age
            &&& card.floor == row.card.floor
            &&& card.community == row.card.community
            &&& card.address == row.card.address
            &&& card.agent == row.card.agent
            &&& card.delisted == row.delisted
            &&& card.note == row.note
            &&& card.decision == row.decision
            &&& card.reason == row.reason
            &&& card.is_new_today <==> row.first_seen.year == today.year && row.first_seen.month
                == today.month && row.first_seen.day == today.day
        }),
{
}

spec fn places_under(
    searches: Seq<TrackedSearchView>,
    rows: Seq<ListingRowView>,
    g: int,
    n: int,
) -> Seq<int>
    decreases n,
{
    if n <= 0 {
        seq![]
    } else if handlers::is_first_search(searches, rows[n - 1].tracked_search_id, g) {
        places_under(searches, rows, g, n - 1).push(n - 1)
    } else {
        places_under(searches, rows, g, n - 1)
    }
}

proof fn lemma_places_under(
    searches: Seq<TrackedSearchView>,
    rows: Seq<ListingRowView>,
    today: Date,
    g: int,
    n: int,
)
    requires
        0 <= n <= rows.len(),
    ensures
        ({
            let at = places_under(searches, rows, g, n);
            let cards = handlers::shown_under(searches, rows.take(n), today, g);
            &&& at.len() == cards.len()
            &&& forall|k: int| 0 <= k < at.len() ==> 0 <= #[trigger] at[k] < n
            &&& forall|k: int, l: int| 0 <= k < l < at.len() ==> #[trigger] at[k] < #[trigger] at[l]
            &&& forall|i: int|
                0 <= i < n ==> (#[trigger] at.contains(i) <==> handlers::is_first_search(
                    searches,
                    rows[i].tracked_search_id,
                    g,
                ))
            &&& forall|k: int|
                #![trigger cards[k]]
                0 <= k < cards.len() ==> cards[k] == handlers::shown(rows[at[k]], today)
        }),
    decreases n,
{
    if n > 0 {
        lemma_places_under(searches, rows, today, g, n - 1);
        assert(rows.take(n).drop_last() =~= rows.take(n - 1));
        assert(rows.take(n).last() == rows[n - 1]);
        let front = places_under(searches, rows, g, n - 1);
        let at = places_under(searches, rows, g, n);
        let here = handlers::is_first_search(searches, rows[n - 1].tracked_search_id, g);
        assert forall|i: int| 0 <= i < n implies (#[trigger] at.contains(i)
            <==> handlers::is_first_search(searches, rows[i].tracked_search_id, g)) by {
            if at.contains(i) {
                let k = at.index_of(i);
                assert(at[k] == i);
                if i < n - 1 || !here {
                    assert(front[k] == i);
                    assert(front.contains(i));
                }
            }
            if i < n - 1 && front.contains(i) {
                let k = front.index_of(i);
                assert(at[k] == i);
            }
            if i == n - 1 && here {
                assert(at[at.len() - 1] == i);
            }
        }
    } else {
        assert(rows.take(0).len() == 0);
    }
}

/// A search is shown with its id, its address, its name, and in place of a
/// missing name what it searches for. Under it stand its listings in the
/// order in which they were handed in, at the places `at`; where two searches
/// have one id, under the first.
pub proof fn law_search_is_shown_with_its_listings(
    marks: Seq<ReviewMarkView>,
    searches: Seq<TrackedSearchView>,
    rows: Seq<ListingRowView>,
    today: Date,
    g: int,
) -> (at: Seq<int>)
    requires
        0 <= g < searches.len(),
    ensures
        ({
            let group = handlers::group_of(marks, searches, rows, today, g);
            let search = searches[g];
            &&& group.tracked_search_id == search.id
            &&& group.search_url == search.search_url
            &&& search.name is Some ==> Some(group.label) == search.name
            &&& search.name is None ==> group.label == search.district + search.building_type
                + search.price_range
            &&& at.len() == group.listings.len()
            &&& forall|k: int| 0 <= k < at.len() ==> 0 <= #[trigger] at[k] < rows.len()
            &&& forall|k: int, l: int| 0 <= k < l < at.len() ==> #[trigger] at[k] < #[trigger] at[l]
            &&& forall|i: int|
                0 <= i < rows.len() ==> (#[trigger] at.contains(i) <==> rows[i].tracked_search_id
                    == search.id && forall|h: int|
                    0 <= h < g ==> (#[trigger] searches[h]).id != search.id)
            &&& forall|k: int|
                #![trigger group.listings[k]]
                0 <= k < at.len() ==> group.listings[k] == handlers::shown(rows[at[k]], today)
        }),
{
    let n = rows.len() as int;
    lemma_places_under(searches, rows, today, g, n);
    assert(rows.take(n) =~= rows);
    places_under(searches, rows, g, n)
}

/// The figures of a search, counted one by one. A listing of the search on the
/// market counts as such, and as new where it was first seen today; one off the
/// market counts as that. A review of the search with a decision counts as such, and
/// as wanted where the decision is the word for it. What is of another search
/// does not count.
pub proof fn law_figures_are_counted(
    rows: Seq<ListingRowView>,
    marks: Seq<ReviewMarkView>,
    today: Date,
    id: i64,
    row: ListingRowView,
    mark: ReviewMarkView,
)
    requires
        rows.len() < i64::MAX,
        marks.len() < i64::MAX,
    ensures
        ({
            let before = handlers::stats_of(rows, marks, today, id);
            let after = handlers::stats_of(rows.push(row), marks.push(mark), today, id);
            let one = |b: bool| if b { 1int } else { 0int };
            let own = row.tracked_search_id == id;
            let today_too = row.first_seen.year == today.year && row.first_seen.month
                == today.month && row.first_seen.day == today.day;
            let own_mark = mark.tracked_search_id == id;
            &&& after.tracked_count == before.tracked_count + one(own && !row.delisted)
            &&& after.new_today == before.new_today + one(own && !row.delisted && today_too)
            &&& after.delisted_count == before.delisted_count + one(own && row.delisted)
            &&& after.reviewed_count == before.reviewed_count + one(
                own_mark && mark.decision is Some,
            )
            &&& after.want_count == before.want_count + one(
                own_mark && mark.decision == Some(seq!['w', 'a', 'n', 't']),
            )
        }),
        ({
            let none = handlers::stats_of(Seq::empty(), Seq::empty(), today, id);
            &&& none.tracked_count == 0
            &&& none.new_today == 0
            &&& none.delisted_count == 0
            &&& none.reviewed_count == 0
            &&& none.want_count == 0
        }),
{
    reveal(Seq::filter);
    assert(rows.push(row).drop_last() =~= rows);
    assert(marks.push(mark).drop_last() =~= marks);
    reveal_strlit("want");
    assert("want"@ =~= seq!['w', 'a', 'n', 't']);
    lemma_fewer_rows(rows, handlers::on_market(id));
    lemma_fewer_rows(rows, handlers::new_on_market(id, today));
    lemma_fewer_rows(rows, handlers::off_market(id));
    lemma_fewer_marks(marks, handlers::decided(id));
    lemma_fewer_marks(marks, handlers::decided_as(id, ReviewDecision::Want));
}

proof fn lemma_fewer_rows(rows: Seq<ListingRowView>, keep: spec_fn(ListingRowView) -> bool)
    ensures
        rows.filter(keep).len() <= rows.len(),
    decreases rows.len(),
{
    reveal(Seq::filter);
    if rows.len() > 0 {
        lemma_fewer_rows(rows.drop_last(), keep);
    }
}

proof fn lemma_fewer_marks(marks: Seq<ReviewMarkView>, keep: spec_fn(ReviewMarkView) -> bool)
    ensures
        marks.filter(keep).len() <= marks.len(),
    decreases marks.len(),
{
    reveal(Seq::filter);
    if marks.len() > 0 {
        lemma_fewer_marks(marks.drop_last(), keep);
    }
}

/// The page of a search is told by its id in decimal.
pub proof fn law_page_is_told_by_the_id(id: i64)
    ensures
        handlers::group_page(id) == seq!['/', '?', 'g', 'r', 'o', 'u', 'p', '=']
            + text::decimal_int(id as int),
{
    reveal_strlit("/?group=");
    assert("/?group="@ =~= seq!['/', '?', 'g', 'r', 'o', 'u', 'p', '=']);
}

// ---------------------------------------------------------------------------
// Reviews
// ---------------------------------------------------------------------------

/// What a form for a review comes to. The reason is kept without the white
/// space around it, and is none where nothing is left. Without a decision the reason
/// alone is saved; with one of the two words it is saved with that decision; any
/// other word is answered as wrong.
pub proof fn law_review_forms(
    form: ReviewForm,
    front: Seq<char>,
    reason: Seq<char>,
    back: Seq<char>,
)
    requires
        form.reason@ == front + reason + back,
        forall|i: int| 0 <= i < front.len() ==> text::is_space(#[trigger] front[i]),
        forall|i: int| 0 <= i < back.len() ==> text::is_space(#[trigger] back[i]),
        reason.len() > 0 ==> !text::is_space(reason[0]) && !text::is_space(
            reason[reason.len() - 1],
        ),
    ensures
        ({
            let kept = if reason.len() > 0 { Some(reason) } else { None };
            let listing_id = form.listing_id@;
            handlers::review_write(form) == (match form.decision {
                None => Ok::<WriteView, ReplyView>(
                    WriteView::SaveReason { listing_id, reason: kept },
                ),
                Some(word) => if word@ == seq!['w', 'a', 'n', 't'] {
                    Ok(
                        WriteView::SaveReview {
                            listing_id,
                            decision: Some(ReviewDecision::Want),
                            reason: kept,
                        },
                    )
                } else if word@ == seq!['p', 'a', 's', 's'] {
                    Ok(
                        WriteView::SaveReview {
                            listing_id,
                            decision: Some(ReviewDecision::Pass),
                            reason: kept,
                        },
                    )
                } else {
                    Err(ReplyView::BadRequest { message: "decision 必須是 want 或 pass"@ })
                },
            })
        }),
{
    text::law_trimming(front, reason, back);
    reveal_strlit("want");
    reveal_strlit("pass");
    assert("want"@ =~= seq!['w', 'a', 'n', 't']);
    assert("pass"@ =~= seq!['p', 'a', 's', 's']);
    assert("want"@[0] != "pass"@[0]);
}

// ---------------------------------------------------------------------------
// New searches
// ---------------------------------------------------------------------------

/// What is read off an address: the district that the section stands for, the
/// type of building that the shape stands for, and the price; all of them, or
/// nothing.
pub proof fn law_what_is_read_off_an_address(
    url: Seq<char>,
    section: Seq<char>,
    shape: Seq<char>,
    price: Seq<char>,
)
    requires
        query::param(url, seq!['s', 'e', 'c', 't', 'i', 'o', 'n']) == Some(section),
        query::param(url, seq!['s', 'h', 'a', 'p', 'e']) == Some(shape),
        query::param(url, seq!['p', 'r', 'i', 'c', 'e']) == Some(price),
    ensures
        handlers::known_pattern(url) == (match (
            query::district_of(section),
            query::building_type_of(shape),
        ) {
            (Some(district), Some(building_type)) => Some((district, building_type, price)),
            _ => None,
        }),
{
    lemma_names();
}

proof fn lemma_names()
    ensures
        "section"@ == seq!['s', 'e', 'c', 't', 'i', 'o', 'n'],
        "shape"@ == seq!['s', 'h', 'a', 'p', 'e'],
        "price"@ == seq!['p', 'r', 'i', 'c', 'e'],
{
    reveal_strlit("section");
    reveal_strlit("shape");
    reveal_strlit("price");
    assert("section"@ =~= seq!['s', 'e', 'c', 't', 'i', 'o', 'n']);
    assert("shape"@ =~= seq!['s', 'h', 'a', 'p', 'e']);
    assert("price"@ =~= seq!['p', 'r', 'i', 'c', 'e']);
}

/// An address that lacks one of the three tells nothing.
pub proof fn law_address_tells_all_or_nothing(url: Seq<char>)
    requires
        query::param(url, seq!['s', 'e', 'c', 't', 'i', 'o', 'n']) is None || query::param(
            url,
            seq!['s', 'h', 'a', 'p', 'e'],
        ) is None || query::param(url, seq!['p', 'r', 'i', 'c', 'e']) is None,
    ensures
        handlers::known_pattern(url) is None,
{
    lemma_names();
}

proof fn lemma_web_address(url: Seq<char>)
    ensures
        handlers::is_web_address(url) <==> {
            ||| url.len() >= 7 && url.take(7) == seq!['h', 't', 't', 'p', ':', '/', '/']
            ||| url.len() >= 8 && url.take(8) == seq!['h', 't', 't', 'p', 's', ':', '/', '/']
        },
{
    reveal_strlit("http://");
    reveal_strlit("https://");
    assert("http://"@ =~= seq!['h', 't', 't', 'p', ':', '/', '/']);
    assert("https://"@ =~= seq!['h', 't', 't', 'p', 's', ':', '/', '/']);
}

/// What a form for a new search comes to. White space around the name and the
/// address does not count. Both have to be given, and the address has to start
/// as that of a page does. The search then has the name and the address, and district,
/// type of building and price as far as the address tells them.
pub proof fn law_search_forms(
    form: AddTrackedSearchForm,
    around: (Seq<char>, Seq<char>, Seq<char>, Seq<char>),
    name: Seq<char>,
    url: Seq<char>,
)
    requires
        form.name@ == around.0 + name + around.1,
        form.search_url@ == around.2 + url + around.3,
        forall|i: int| 0 <= i < around.0.len() ==> text::is_space(#[trigger] around.0[i]),
        forall|i: int| 0 <= i < around.1.len() ==> text::is_space(#[trigger] around.1[i]),
        forall|i: int| 0 <= i < around.2.len() ==> text::is_space(#[trigger] around.2[i]),
        forall|i: int| 0 <= i < around.3.len() ==> text::is_space(#[trigger] around.3[i]),
        name.len() > 0 ==> !text::is_space(name[0]) && !text::is_space(name[name.len() - 1]),
        url.len() > 0 ==> !text::is_space(url[0]) && !text::is_space(url[url.len() - 1]),
    ensures
        ({
            let write = handlers::search_write(form);
            let is_page = {
                ||| url.len() >= 7 && url.take(7) == seq!['h', 't', 't', 'p', ':', '/', '/']
                ||| url.len() >= 8 && url.take(8) == seq!['h', 't', 't', 'p', 's', ':', '/', '/']
            };
            if name.len() == 0 || url.len() == 0 {
                write == Err::<SearchWriteView, ReplyView>(
                    ReplyView::BadRequest { message: "名稱和搜尋網址都要填"@ },
                )
            } else if !is_page {
                write == Err::<SearchWriteView, ReplyView>(
                    ReplyView::BadRequest { message: "搜尋網址看起來不是有效的網址"@ },
                )
            } else {
                let (district, building_type, price_range) = match handlers::known_pattern(url) {
                    Some(parts) => parts,
                    None => (Seq::empty(), Seq::empty(), Seq::empty()),
                };
                write == Ok::<SearchWriteView, ReplyView>(
                    SearchWriteView::AddSearch {
                        search: NewSearchView {
                            district,
                            building_type,
                            price_range,
                            search_url: url,
                            criteria_json: json::json_string(name),
                            name,
                        },
                    },
                )
            }
        }),
{
    text::law_trimming(around.0, name, around.1);
    text::law_trimming(around.2, url, around.3);
    lemma_web_address(url);
    reveal_strlit("");
    assert(""@ =~= Seq::<char>::empty());
}

} // verus!

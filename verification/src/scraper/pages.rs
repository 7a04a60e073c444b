//! Walking through the pages of a result list.

use crate::scraper;
use crate::scraper::{dedup_by_id, CardView, ScrapedCard};
use crate::text;
use crate::text::{chars_of, decimal_text, parse_i64, same_text, starts_with, trim};
use vstd::prelude::*;

verus! {

/// The most pages that a list is believed to have.
pub const MOST_PAGES: u32 = 50;

/// Reads how many results a list declares.
pub fn parse_declared_total(declared: &str) -> (r: Option<i64>)
    ensures
        r == text::parsed_i64(declared@),
{
    parse_i64(&chars_of(declared))
}

/// The link says that it leads to the page.
pub open spec fn leads_to(link: Option<Seq<char>>, page: nat) -> bool {
    link matches Some(t) && text::trimmed(t) == text::decimal(page)
}

/// The first of the links that leads to the page after the current one. A link
/// whose text could not be read leads nowhere.
pub fn next_page_link(links: &Vec<Option<String>>, current_page: u32) -> (r: Option<usize>)
    requires
        current_page < u32::MAX,
    ensures
        match r {
            Some(i) => {
                &&& i < links.len()
                &&& leads_to(links.deep_view()[i as int], (current_page + 1) as nat)
                &&& forall|j: int|
                    0 <= j < i ==> !leads_to(
                        #[trigger] links.deep_view()[j],
                        (current_page + 1) as nat,
                    )
            },
            None => forall|j: int|
                0 <= j < links.len() ==> !leads_to(
                    #[trigger] links.deep_view()[j],
                    (current_page + 1) as nat,
                ),
        },
{
    let target = decimal_text((current_page + 1) as u64);
    for i in 0..links.len()
        invariant
            target@ == text::decimal((current_page + 1) as nat),
            forall|j: int|
                0 <= j < i ==> !leads_to(
                    #[trigger] links.deep_view()[j],
                    (current_page + 1) as nat,
                ),
    {
        let found = match &links[i] {
            Some(t) => same_text(trim(t.as_str()), target.as_str()),
            None => false,
        };
        assert(links.deep_view()[i as int] == links[i as int].deep_view());
        if found {
            return Some(i);
        }
    }
    None
}

/// Turning to a page beyond the most that are believed: the walk goes in
/// circles.
#[derive(Debug)]
pub struct TooManyPages;

/// A walk through the pages of a list.
#[derive(Debug)]
pub struct PageWalk {
    /// The page that the walk is on, counted from one.
    pub page: u32,
    /// The cards of the pages so far.
    pub cards: Vec<ScrapedCard>,
}

impl PageWalk {
    pub open spec fn is_valid(&self) -> bool {
        1 <= self.page <= MOST_PAGES
    }

    /// Starts on the first page.
    pub fn start() -> (r: PageWalk)
        ensures
            r.is_valid(),
            r.page == 1,
            r.cards.deep_view() == Seq::<CardView>::empty(),
    {
        let r = PageWalk { page: 1, cards: Vec::new() };
        assert(r.cards.deep_view() =~= Seq::<CardView>::empty());
        r
    }

    /// Adds the cards of the current page.
    pub fn collect(&mut self, page_cards: Vec<ScrapedCard>)
        ensures
            final(self).page == old(self).page,
            final(self).cards.deep_view() == old(self).cards.deep_view() + page_cards.deep_view(),
    {
        let ghost before = self.cards.deep_view();
        let ghost more = page_cards.deep_view();
        let mut page_cards = page_cards;
        self.cards.append(&mut page_cards);
        assert(self.cards.deep_view() =~= before + more);
    }

    /// The link to the next page; without one the walk is over.
    pub fn next_link(&self, links: &Vec<Option<String>>) -> (r: Option<usize>)
        requires
            self.is_valid(),
        ensures
            match r {
                Some(i) => {
                    &&& i < links.len()
                    &&& leads_to(links.deep_view()[i as int], (self.page + 1) as nat)
                    &&& forall|j: int|
                        0 <= j < i ==> !leads_to(
                            #[trigger] links.deep_view()[j],
                            (self.page + 1) as nat,
                        )
                },
                None => forall|j: int|
                    0 <= j < links.len() ==> !leads_to(
                        #[trigger] links.deep_view()[j],
                        (self.page + 1) as nat,
                    ),
            },
    {
        next_page_link(links, self.page)
    }

    /// Goes on to the next page, unless there are too many.
    pub fn turn(&mut self) -> (r: Result<(), TooManyPages>)
        requires
            old(self).is_valid(),
        ensures
            final(self).is_valid(),
            final(self).cards == old(self).cards,
            r is Ok <==> old(self).page < MOST_PAGES,
            r is Ok <==> old(self).page < 50,
            r is Ok ==> final(self).page == old(self).page + 1,
            r is Err ==> final(self).page == old(self).page,
    {
        if self.page >= MOST_PAGES {
            return Err(TooManyPages);
        }
        self.page = self.page + 1;
        Ok(())
    }

    /// Ends the walk with the first card of each id.
    pub fn finish(self) -> (r: Vec<ScrapedCard>)
        ensures
            r.deep_view() == scraper::first_by_id(self.cards.deep_view()),
    {
        dedup_by_id(self.cards)
    }
}

// ---------------------------------------------------------------------------
// Cards that only count clicks
// ---------------------------------------------------------------------------

/// An id of the kind that changes every time the list is read.
pub open spec fn is_tracking_id(id: Seq<char>) -> bool {
    text::has_prefix(id, "24"@)
}

/// Two cards say the same: title, price, and area as it is written out.
pub open spec fn is_same_offer(
    cards: Seq<CardView>,
    areas: Seq<Seq<char>>,
    i: int,
    j: int,
) -> bool {
    &&& cards[i].title == cards[j].title
    &&& cards[i].price == cards[j].price
    &&& areas[i] == areas[j]
}

/// The card at `i` is the shadow of another: its id changes every time, and a
/// card with a lasting id says the same.
pub open spec fn is_redirect(cards: Seq<CardView>, areas: Seq<Seq<char>>, i: int) -> bool {
    &&& is_tracking_id(cards[i].id)
    &&& exists|j: int|
        0 <= j < cards.len() && !is_tracking_id((#[trigger] cards[j]).id) && is_same_offer(
            cards,
            areas,
            i,
            j,
        )
}

/// Of the first `n` cards those that are no shadow, in their order.
pub open spec fn real_upto(cards: Seq<CardView>, areas: Seq<Seq<char>>, n: int) -> Seq<CardView>
    decreases n,
{
    if n <= 0 {
        seq![]
    } else if is_redirect(cards, areas, n - 1) {
        real_upto(cards, areas, n - 1)
    } else {
        real_upto(cards, areas, n - 1).push(cards[n - 1])
    }
}

/// The cards without shadows.
pub open spec fn real_cards(cards: Seq<CardView>, areas: Seq<Seq<char>>) -> Seq<CardView> {
    real_upto(cards, areas, cards.len() as int)
}

fn is_tracking_redirect(cards: &Vec<ScrapedCard>, areas: &Vec<String>, i: usize) -> (r: bool)
    requires
        i < cards.len(),
        areas.len() == cards.len(),
    ensures
        r == is_redirect(cards.deep_view(), areas.deep_view(), i as int),
{
    if !starts_with(cards[i].id.as_str(), "24") {
        return false;
    }
    let ghost views = cards.deep_view();
    let ghost labels = areas.deep_view();
    for j in 0..cards.len()
        invariant
            i < cards.len(),
            areas.len() == cards.len(),
            views == cards.deep_view(),
            labels == areas.deep_view(),
            is_tracking_id(views[i as int].id),
            forall|k: int|
                0 <= k < j ==> is_tracking_id((#[trigger] views[k]).id) || !is_same_offer(
                    views,
                    labels,
                    i as int,
                    k,
                ),
    {
        proof {
            assert(views[i as int] == cards[i as int]@ && views[j as int] == cards[j as int]@);
            assert(labels[i as int] == areas[i as int]@ && labels[j as int] == areas[j as int]@);
        }
        if !starts_with(cards[j].id.as_str(), "24") && cards[i].title == cards[j].title
            && cards[i].price == cards[j].price && areas[i] == areas[j] {
            return true;
        }
    }
    false
}

/// Drops cards that the site puts into a list a second time, under an id that
/// begins with "24" and changes every time. These are not a second
/// advertisement of the household but the same one. `areas` holds the area of
/// each card with two decimals.
pub fn drop_tracking_redirects(cards: Vec<ScrapedCard>, areas: &Vec<String>) -> (r: Vec<
    ScrapedCard,
>)
    requires
        areas.len() == cards.len(),
    ensures
        r.deep_view() == real_cards(cards.deep_view(), areas.deep_view()),
{
    let mut r: Vec<ScrapedCard> = Vec::new();
    let ghost views = cards.deep_view();
    let ghost labels = areas.deep_view();
    assert(r.deep_view() =~= real_upto(views, labels, 0));
    for i in 0..cards.len()
        invariant
            areas.len() == cards.len(),
            views == cards.deep_view(),
            labels == areas.deep_view(),
            r.deep_view() == real_upto(views, labels, i as int),
    {
        if !is_tracking_redirect(&cards, areas, i) {
            let ghost before = r.deep_view();
            r.push(cards[i].clone());
            assert(r.deep_view() =~= before.push(views[i as int]));
        }
    }
    r
}

// ---------------------------------------------------------------------------
// Laws
// ---------------------------------------------------------------------------

proof fn lemma_real_has(cards: Seq<CardView>, areas: Seq<Seq<char>>, n: int, i: int)
    requires
        0 <= i < n <= cards.len(),
        !is_redirect(cards, areas, i),
    ensures
        real_upto(cards, areas, n).contains(cards[i]),
    decreases n,
{
    let kept = real_upto(cards, areas, n - 1);
    if i == n - 1 {
        assert(kept.push(cards[i])[kept.len() as int] == cards[i]);
    } else {
        lemma_real_has(cards, areas, n - 1, i);
        let k = kept.index_of(cards[i]);
        assert(kept.push(cards[n - 1])[k] == cards[i]);
    }
}

/// Nothing that is offered gets lost: a card with a lasting id stays, and for
/// each that is dropped one stays that says the same.
pub proof fn law_no_offer_is_lost(cards: Seq<CardView>, areas: Seq<Seq<char>>, i: int)
    requires
        0 <= i < cards.len(),
        areas.len() == cards.len(),
    ensures
        !is_tracking_id(cards[i].id) ==> real_cards(cards, areas).contains(cards[i]),
        exists|j: int|
            0 <= j < cards.len() && is_same_offer(cards, areas, i, j) && real_cards(
                cards,
                areas,
            ).contains(#[trigger] cards[j]),
{
    if is_redirect(cards, areas, i) {
        let j = choose|j: int|
            0 <= j < cards.len() && !is_tracking_id((#[trigger] cards[j]).id) && is_same_offer(
                cards,
                areas,
                i,
                j,
            );
        lemma_real_has(cards, areas, cards.len() as int, j);
    } else {
        lemma_real_has(cards, areas, cards.len() as int, i);
    }
}

/// Nothing that only counts clicks stays: of the cards left, none with an id
/// that changes says the same as one with a lasting id.
pub proof fn law_no_shadow_stays(cards: Seq<CardView>, areas: Seq<Seq<char>>, c: CardView)
    requires
        areas.len() == cards.len(),
        real_cards(cards, areas).contains(c),
    ensures
        exists|i: int| 0 <= i < cards.len() && #[trigger] cards[i] == c && !is_redirect(cards, areas, i),
{
    lemma_real_is(cards, areas, cards.len() as int, c);
}

proof fn lemma_real_is(cards: Seq<CardView>, areas: Seq<Seq<char>>, n: int, c: CardView)
    requires
        0 <= n <= cards.len(),
        real_upto(cards, areas, n).contains(c),
    ensures
        exists|i: int| 0 <= i < n && #[trigger] cards[i] == c && !is_redirect(cards, areas, i),
    decreases n,
{
    if n > 0 {
        let kept = real_upto(cards, areas, n - 1);
        if kept.contains(c) {
            lemma_real_is(cards, areas, n - 1, c);
        } else {
            let all = real_upto(cards, areas, n);
            let k = all.index_of(c);
            if k < kept.len() {
                assert(kept[k] == c);
            }
            assert(cards[n - 1] == c);
        }
    }
}

/// Reading the same list twice yields each id once, with the card that came
/// first.
pub proof fn law_each_id_once(cards: Seq<CardView>)
    ensures
        forall|i: int, j: int|
            #![trigger scraper::first_by_id(cards)[i], scraper::first_by_id(cards)[j]]
            0 <= i < j < scraper::first_by_id(cards).len() ==> scraper::first_by_id(cards)[i].id
                != scraper::first_by_id(cards)[j].id,
        forall|id: Seq<char>| #[trigger]
            scraper::has_card(scraper::first_by_id(cards), id) == scraper::has_card(cards, id),
        forall|k: int|
            0 <= k < scraper::first_by_id(cards).len() ==> {
                let c = #[trigger] scraper::first_by_id(cards)[k];
                exists|m: int|
                    0 <= m < cards.len() && cards[m] == c && forall|l: int|
                        0 <= l < m ==> (#[trigger] cards[l]).id != c.id
            },
    decreases cards.len(),
{
    let all = scraper::first_by_id(cards);
    assert forall|id: Seq<char>| #[trigger] scraper::has_card(all, id) == scraper::has_card(
        cards,
        id,
    ) by {
        scraper::lemma_first_by_id_has(cards, id);
    }
    if cards.len() > 0 {
        let front = cards.drop_last();
        let kept = scraper::first_by_id(front);
        law_each_id_once(front);
        assert forall|i: int, j: int|
            #![trigger all[i], all[j]]
            0 <= i < j < all.len() implies all[i].id != all[j].id by {
            assert(all[i] == kept[i]);
            if j < kept.len() {
                assert(all[j] == kept[j]);
            } else {
                assert(all[j] == cards.last());
                if kept[i].id == cards.last().id {
                    assert(scraper::has_card(kept, cards.last().id));
                    assert(scraper::has_card(front, cards.last().id));
                }
            }
        }
        assert forall|k: int| 0 <= k < all.len() implies ({
            let c = #[trigger] all[k];
            exists|m: int|
                0 <= m < cards.len() && cards[m] == c && forall|l: int|
                    0 <= l < m ==> (#[trigger] cards[l]).id != c.id
        }) by {
            let c = all[k];
            if k < kept.len() {
                assert(all[k] == kept[k]);
                let m = choose|m: int|
                    0 <= m < front.len() && front[m] == c && forall|l: int|
                        0 <= l < m ==> (#[trigger] front[l]).id != c.id;
                assert(cards[m] == c);
                assert forall|l: int| 0 <= l < m implies (#[trigger] cards[l]).id != c.id by {
                    assert(front[l].id != c.id);
                }
            } else {
                let m = cards.len() - 1;
                assert(cards[m] == c);
                assert forall|l: int| 0 <= l < m implies (#[trigger] cards[l]).id != c.id by {
                    if cards[l].id == c.id {
                        assert(front[l].id == c.id);
                        assert(scraper::has_card(front, c.id));
                    }
                }
            }
        }
    }
}

/// The places of the first `n` cards that stay.
spec fn kept_places(cards: Seq<CardView>, areas: Seq<Seq<char>>, n: int) -> Seq<int>
    decreases n,
{
    if n <= 0 {
        seq![]
    } else if is_redirect(cards, areas, n - 1) {
        kept_places(cards, areas, n - 1)
    } else {
        kept_places(cards, areas, n - 1).push(n - 1)
    }
}

proof fn lemma_tracking_id(id: Seq<char>)
    ensures
        is_tracking_id(id) <==> id.len() >= 2 && id[0] == '2' && id[1] == '4',
{
    reveal_strlit("24");
    assert("24"@.len() == 2);
    if id.len() >= 2 {
        assert(id.take(2)[0] == id[0] && id.take(2)[1] == id[1]);
        if id[0] == '2' && id[1] == '4' {
            assert(id.take(2) =~= "24"@);
        }
    }
}

proof fn lemma_kept_places(cards: Seq<CardView>, areas: Seq<Seq<char>>, n: int)
    requires
        0 <= n <= cards.len(),
    ensures
        ({
            let at = kept_places(cards, areas, n);
            &&& real_upto(cards, areas, n).len() == at.len()
            &&& forall|k: int|
                0 <= k < at.len() ==> {
                    &&& 0 <= #[trigger] at[k] < n
                    &&& real_upto(cards, areas, n)[k] == cards[at[k]]
                    &&& !is_redirect(cards, areas, at[k])
                }
            &&& forall|k: int, l: int| 0 <= k < l < at.len() ==> at[k] < at[l]
            &&& forall|i: int|
                0 <= i < n && !(#[trigger] is_redirect(cards, areas, i)) ==> at.contains(i)
        }),
    decreases n,
{
    if n > 0 {
        lemma_kept_places(cards, areas, n - 1);
        let before = kept_places(cards, areas, n - 1);
        let at = kept_places(cards, areas, n);
        assert forall|i: int|
            0 <= i < n && !(#[trigger] is_redirect(cards, areas, i)) implies at.contains(i) by {
            if i < n - 1 {
                let k = before.index_of(i);
                assert(at[k] == i);
            } else {
                assert(at[before.len() as int] == i);
            }
        }
    }
}

/// Which cards are dropped: those whose id begins with a two and a four, where
/// a card whose id does not begin so has the same title, price and written
/// area. All others stay, each once and in their order.
pub proof fn law_which_cards_are_dropped(cards: Seq<CardView>, areas: Seq<Seq<char>>) -> (at: Seq<
    int,
>)
    requires
        areas.len() == cards.len(),
    ensures
        real_cards(cards, areas).len() == at.len(),
        forall|k: int|
            0 <= k < at.len() ==> 0 <= #[trigger] at[k] < cards.len() && real_cards(cards, areas)[k]
                == cards[at[k]],
        forall|k: int, l: int| 0 <= k < l < at.len() ==> at[k] < at[l],
        forall|i: int|
            0 <= i < cards.len() ==> (at.contains(i) <==> !({
                let id = (#[trigger] cards[i]).id;
                &&& id.len() >= 2
                &&& id[0] == '2'
                &&& id[1] == '4'
                &&& exists|j: int|
                    0 <= j < cards.len() && !((#[trigger] cards[j]).id.len() >= 2 && cards[j].id[0]
                        == '2' && cards[j].id[1] == '4') && cards[j].title == cards[i].title
                        && cards[j].price == cards[i].price && areas[j] == areas[i]
            })),
{
    let n = cards.len() as int;
    let at = kept_places(cards, areas, n);
    lemma_kept_places(cards, areas, n);
    assert forall|i: int| 0 <= i < cards.len() implies (at.contains(i) <==> !({
        let id = (#[trigger] cards[i]).id;
        &&& id.len() >= 2
        &&& id[0] == '2'
        &&& id[1] == '4'
        &&& exists|j: int|
            0 <= j < cards.len() && !((#[trigger] cards[j]).id.len() >= 2 && cards[j].id[0] == '2'
                && cards[j].id[1] == '4') && cards[j].title == cards[i].title && cards[j].price
                == cards[i].price && areas[j] == areas[i]
    })) by {
        lemma_tracking_id(cards[i].id);
        assert(at.contains(i) <==> !is_redirect(cards, areas, i)) by {
            if at.contains(i) {
                let k = at.index_of(i);
                assert(!is_redirect(cards, areas, at[k]));
            }
        }
        if is_redirect(cards, areas, i) {
            let j = choose|j: int|
                0 <= j < cards.len() && !is_tracking_id((#[trigger] cards[j]).id) && is_same_offer(
                    cards,
                    areas,
                    i,
                    j,
                );
            lemma_tracking_id(cards[j].id);
        }
        assert forall|j: int|
            0 <= j < cards.len() && !((#[trigger] cards[j]).id.len() >= 2 && cards[j].id[0] == '2'
                && cards[j].id[1] == '4') && cards[j].title == cards[i].title && cards[j].price
                == cards[i].price && areas[j] == areas[i] implies !is_tracking_id(cards[j].id)
            && is_same_offer(cards, areas, i, j) by {
            lemma_tracking_id(cards[j].id);
        }
    }
    at
}

/// The cards that a walk ends with are those that had no card with the same id
/// before them, in their order.
pub proof fn law_first_cards_stay_in_order(cards: Seq<CardView>) -> (at: Seq<int>)
    ensures
        scraper::first_by_id(cards).len() == at.len(),
        forall|k: int|
            0 <= k < at.len() ==> 0 <= #[trigger] at[k] < cards.len() && scraper::first_by_id(
                cards,
            )[k] == cards[at[k]],
        forall|k: int, l: int| 0 <= k < l < at.len() ==> at[k] < at[l],
        forall|i: int|
            0 <= i < cards.len() ==> (at.contains(i) <==> forall|j: int|
                0 <= j < i ==> (#[trigger] cards[j]).id != (#[trigger] cards[i]).id),
    decreases cards.len(),
{
    if cards.len() == 0 {
        seq![]
    } else {
        let n = cards.len() - 1;
        let front = cards.drop_last();
        let before = law_first_cards_stay_in_order(front);
        let fresh = !scraper::has_card(front, cards[n].id);
        let at = if fresh {
            before.push(n)
        } else {
            before
        };
        assert forall|i: int| 0 <= i < cards.len() implies (at.contains(i) <==> forall|j: int|
            0 <= j < i ==> (#[trigger] cards[j]).id != (#[trigger] cards[i]).id) by {
            assert(fresh <==> forall|j: int| 0 <= j < n ==> (#[trigger] cards[j]).id != cards[n].id)
                by {
                if !fresh {
                    let j = choose|j: int|
                        0 <= j < front.len() && (#[trigger] front[j]).id == cards[n].id;
                    assert(cards[j].id == cards[n].id);
                } else {
                    assert forall|j: int| 0 <= j < n implies (#[trigger] cards[j]).id
                        != cards[n].id by {
                        assert(front[j].id != cards[n].id);
                    }
                }
            }
            if i < n {
                assert(front[i] == cards[i]);
                assert(before.contains(i) <==> forall|j: int|
                    0 <= j < i ==> (#[trigger] front[j]).id != front[i].id);
                assert((forall|j: int| 0 <= j < i ==> (#[trigger] front[j]).id != front[i].id)
                    <==> (forall|j: int| 0 <= j < i ==> (#[trigger] cards[j]).id != cards[i].id)) by {
                    if forall|j: int| 0 <= j < i ==> (#[trigger] front[j]).id != front[i].id {
                        assert forall|j: int| 0 <= j < i implies (#[trigger] cards[j]).id
                            != cards[i].id by {
                            assert(front[j].id != front[i].id);
                        }
                    }
                    if forall|j: int| 0 <= j < i ==> (#[trigger] cards[j]).id != cards[i].id {
                        assert forall|j: int| 0 <= j < i implies (#[trigger] front[j]).id
                            != front[i].id by {
                            assert(cards[j].id != cards[i].id);
                        }
                    }
                }
                if before.contains(i) {
                    let k = before.index_of(i);
                    assert(at[k] == i);
                }
                if at.contains(i) {
                    let k = at.index_of(i);
                    assert(k < before.len());
                    assert(before[k] == i);
                }
            } else {
                if fresh {
                    assert(at[before.len() as int] == n);
                }
                if at.contains(n) {
                    let k = at.index_of(n);
                    if k < before.len() {
                        assert(before[k] < n);
                    }
                }
            }
        }
        at
    }
}

/// A link leads to the page whose number it shows, whatever white space stands
/// around it, and to no other. A link without a text leads nowhere.
pub proof fn law_links_lead_to_their_number(
    front: Seq<char>,
    page: nat,
    back: Seq<char>,
    other: nat,
)
    requires
        forall|i: int| 0 <= i < front.len() ==> text::is_space(#[trigger] front[i]),
        forall|i: int| 0 <= i < back.len() ==> text::is_space(#[trigger] back[i]),
        page <= u64::MAX,
        other <= u64::MAX,
    ensures
        leads_to(Some(front + text::decimal(page) + back), page),
        leads_to(Some(front + text::decimal(page) + back), other) ==> other == page,
        !leads_to(None, page),
{
    let n = text::decimal(page);
    text::law_numbers_read_back(page as u64, 0);
    text::law_numbers_read_back(other as u64, 0);
    text::law_only_digits_are_read(n);
    assert('0' as u32 <= n[0] as u32 <= '9' as u32 || n[0] == '+');
    text::law_trimming(front, n, back);
}

} // verus!

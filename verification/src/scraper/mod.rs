//! From the cards on a result page to listings.

use crate::double::Double;
use crate::text::copy_text;
use vstd::prelude::*;

pub mod pages;
pub mod parse;
pub mod reading;

verus! {

/// A card as it was read from a page.
#[derive(Debug)]
pub struct ScrapedCard {
    pub id: String,
    pub title: String,
    pub price: i64,
    pub unit_price: Double,
    pub rooms: String,
    pub area: Double,
    pub main_area: Option<Double>,
    pub age: Option<i64>,
    pub floor: String,
    pub community: Option<String>,
    pub address: String,
    pub agent: Option<String>,
}

#[verifier::ext_equal]
pub struct CardView {
    pub id: Seq<char>,
    pub title: Seq<char>,
    pub price: i64,
    pub unit_price: Double,
    pub rooms: Seq<char>,
    pub area: Double,
    pub main_area: Option<Double>,
    pub age: Option<i64>,
    pub floor: Seq<char>,
    pub community: Option<Seq<char>>,
    pub address: Seq<char>,
    pub agent: Option<Seq<char>>,
}

impl View for ScrapedCard {
    type V = CardView;

    open spec fn view(&self) -> CardView {
        CardView {
            id: self.id@,
            title: self.title@,
            price: self.price,
            unit_price: self.unit_price,
            rooms: self.rooms@,
            area: self.area,
            main_area: self.main_area,
            age: self.age,
            floor: self.floor@,
            community: self.community.deep_view(),
            address: self.address@,
            agent: self.agent.deep_view(),
        }
    }
}

impl DeepView for ScrapedCard {
    type V = CardView;

    open spec fn deep_view(&self) -> CardView {
        self@
    }
}

impl Clone for ScrapedCard {
    fn clone(&self) -> (r: ScrapedCard)
        ensures
            r == *self,
    {
        ScrapedCard {
            id: self.id.clone(),
            title: self.title.clone(),
            price: self.price,
            unit_price: self.unit_price,
            rooms: self.rooms.clone(),
            area: self.area,
            main_area: self.main_area,
            age: self.age,
            floor: self.floor.clone(),
            community: copy_text(&self.community),
            address: self.address.clone(),
            agent: copy_text(&self.agent),
        }
    }
}

pub open spec fn has_card(cards: Seq<CardView>, id: Seq<char>) -> bool {
    exists|i: int| 0 <= i < cards.len() && (#[trigger] cards[i]).id == id
}

/// Whether one of the cards has the id.
pub fn contains_card(cards: &Vec<ScrapedCard>, id: &String) -> (r: bool)
    ensures
        r == has_card(cards.deep_view(), id@),
{
    for i in 0..cards.len()
        invariant
            forall|j: int| 0 <= j < i ==> (#[trigger] cards.deep_view()[j]).id != id@,
    {
        if cards[i].id == *id {
            assert(cards.deep_view()[i as int].id == id@);
            return true;
        }
    }
    false
}

/// The cards in their order, without those whose id an earlier one has.
pub open spec fn first_by_id(cards: Seq<CardView>) -> Seq<CardView>
    decreases cards.len(),
{
    if cards.len() == 0 {
        seq![]
    } else if has_card(cards.drop_last(), cards.last().id) {
        first_by_id(cards.drop_last())
    } else {
        first_by_id(cards.drop_last()).push(cards.last())
    }
}

pub proof fn lemma_first_by_id_has(cards: Seq<CardView>, id: Seq<char>)
    ensures
        has_card(first_by_id(cards), id) == has_card(cards, id),
    decreases cards.len(),
{
    if cards.len() > 0 {
        let front = cards.drop_last();
        let kept = first_by_id(front);
        lemma_first_by_id_has(front, id);
        if has_card(cards, id) {
            let i = choose|i: int| 0 <= i < cards.len() && (#[trigger] cards[i]).id == id;
            if i < front.len() {
                assert(front[i].id == id);
            }
        }
        if has_card(front, id) {
            let i = choose|i: int| 0 <= i < front.len() && (#[trigger] front[i]).id == id;
            assert(cards[i].id == id);
            let k = choose|k: int| 0 <= k < kept.len() && (#[trigger] kept[k]).id == id;
            assert(kept.push(cards.last())[k].id == id);
        } else if !has_card(front, cards.last().id) {
            let all = kept.push(cards.last());
            assert(all[kept.len() as int] == cards.last());
            assert(cards[cards.len() - 1] == cards.last());
            if has_card(all, id) {
                let k = choose|k: int| 0 <= k < all.len() && (#[trigger] all[k]).id == id;
                if k < kept.len() {
                    assert(kept[k].id == id);
                }
            }
        }
    }
}

/// Keeps the first card of each id. The result list is sorted anew all the
/// time, so that one advertisement often stands on two or three of the pages.
pub fn dedup_by_id(cards: Vec<ScrapedCard>) -> (r: Vec<ScrapedCard>)
    ensures
        r.deep_view() == first_by_id(cards.deep_view()),
{
    let mut r: Vec<ScrapedCard> = Vec::new();
    let ghost all = cards.deep_view();
    assert(r.deep_view() =~= first_by_id(all.take(0)));
    for i in 0..cards.len()
        invariant
            all == cards.deep_view(),
            r.deep_view() == first_by_id(all.take(i as int)),
    {
        proof {
            assert(all.take(i + 1).drop_last() =~= all.take(i as int));
            lemma_first_by_id_has(all.take(i as int), cards[i as int].id@);
        }
        if !contains_card(&r, &cards[i].id) {
            let ghost before = r.deep_view();
            r.push(cards[i].clone());
            assert(r.deep_view() =~= before.push(all[i as int]));
        }
    }
    assert(all.take(all.len() as int) =~= all);
    r
}

} // verus!

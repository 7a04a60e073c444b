//! What a card and a page say, stated of their texts.

use crate::double::Double;
use crate::scraper::parse;
use crate::scraper::parse::{AttributeKind, CardErrorView, NumbersView, RawCardView};
use crate::scraper::CardView;
use crate::text;
use vstd::prelude::*;

verus! {

// ---------------------------------------------------------------------------
// Attributes
// ---------------------------------------------------------------------------

/// The text starts with these two characters.
pub open spec fn starts(s: Seq<char>, first: char, second: char) -> bool {
    s.len() >= 2 && s[0] == first && s[1] == second
}

/// The text starts with the word for the area, or with that for the main area.
pub open spec fn measures(s: Seq<char>) -> bool {
    starts(s, '權', '狀') || starts(s, '主', '建')
}

/// The text is a number of years: digits, at least one, and the word for year.
pub open spec fn tells_years(s: Seq<char>) -> bool {
    &&& s.len() >= 2
    &&& s[s.len() - 1] == '年'
    &&& forall|i: int| 0 <= i < s.len() - 1 ==> '0' as u32 <= (#[trigger] s[i]) as u32 <= '9' as u32
}

/// `j` is the last place whose text has the property.
pub open spec fn is_last_place(
    attrs: Seq<Seq<char>>,
    fits: spec_fn(Seq<char>) -> bool,
    j: int,
) -> bool {
    &&& 0 <= j < attrs.len()
    &&& fits(attrs[j])
    &&& forall|k: int| j < k < attrs.len() ==> !fits(#[trigger] attrs[k])
}

/// The first `n` texts hold none with the property.
spec fn none_fits(attrs: Seq<Seq<char>>, fits: spec_fn(Seq<char>) -> bool, n: int) -> bool {
    forall|k: int| 0 <= k < n ==> !fits(#[trigger] attrs[k])
}

spec fn is_area() -> spec_fn(Seq<char>) -> bool {
    |s: Seq<char>| starts(s, '權', '狀')
}

spec fn is_main_area() -> spec_fn(Seq<char>) -> bool {
    |s: Seq<char>| starts(s, '主', '建')
}

spec fn is_rooms() -> spec_fn(Seq<char>) -> bool {
    |s: Seq<char>| !measures(s) && s.contains('房')
}

spec fn is_floor() -> spec_fn(Seq<char>) -> bool {
    |s: Seq<char>| !measures(s) && !s.contains('房') && s.contains('F')
}

spec fn is_age() -> spec_fn(Seq<char>) -> bool {
    |s: Seq<char>| tells_years(s)
}

proof fn lemma_starts(s: Seq<char>)
    ensures
        text::has_prefix(s, "權狀"@) == starts(s, '權', '狀'),
        text::has_prefix(s, "主建"@) == starts(s, '主', '建'),
{
    reveal_strlit("權狀");
    reveal_strlit("主建");
    if s.len() >= 2 {
        assert(s.take(2) =~= seq![s[0], s[1]]);
        assert("權狀"@ =~= seq!['權', '狀']);
        assert("主建"@ =~= seq!['主', '建']);
        assert(s.take(2)[0] == s[0] && s.take(2)[1] == s[1]);
    }
}

/// What an attribute is about.
proof fn lemma_kind(s: Seq<char>)
    ensures
        parse::kind_of(s) == AttributeKind::Area <==> is_area()(s),
        parse::kind_of(s) == AttributeKind::MainArea <==> is_main_area()(s),
        parse::kind_of(s) == AttributeKind::Rooms <==> is_rooms()(s),
        parse::kind_of(s) == AttributeKind::Floor <==> is_floor()(s),
        parse::kind_of(s) == AttributeKind::Age <==> is_age()(s),
{
    lemma_starts(s);
    if s.len() > 0 {
        let d = parse::age_digits(s);
        assert forall|i: int| 0 <= i < d.len() implies #[trigger] d[i] == s[i] by {}
        if tells_years(s) {
            assert(text::is_number(d)) by {
                assert forall|i: int| 0 <= i < d.len() implies text::is_digit(#[trigger] d[i]) by {
                    assert(d[i] == s[i]);
                }
            }
            assert(s[0] as u32 <= '9' as u32);
            if s.contains('房') {
                let i = s.index_of('房');
                assert(s[i] == '房');
            }
            if s.contains('F') {
                let i = s.index_of('F');
                assert(s[i] == 'F');
            }
        }
        if s.last() == '年' && text::is_number(d) {
            assert forall|i: int| 0 <= i < s.len() - 1 implies '0' as u32 <= (
            #[trigger] s[i]) as u32 <= '9' as u32 by {
                assert(text::is_digit(d[i]));
            }
        }
    }
}

/// Where the last attribute of each kind stands among the first `n`.
spec fn is_read(
    attrs: Seq<Seq<char>>,
    numbers: Seq<Option<Double>>,
    n: int,
    a: parse::AttributesView,
) -> bool {
    let first = attrs.take(n);
    &&& match a.rooms {
        Some(v) => exists|j: int| #[trigger]
            is_last_place(first, is_rooms(), j) && v == attrs[j],
        None => none_fits(attrs, is_rooms(), n),
    }
    &&& match a.floor {
        Some(v) => exists|j: int| #[trigger]
            is_last_place(first, is_floor(), j) && v == attrs[j],
        None => none_fits(attrs, is_floor(), n),
    }
    &&& match a.area {
        Some(v) => exists|j: int| #[trigger]
            is_last_place(first, is_area(), j) && numbers[j] == Some(v),
        None => none_fits(attrs, is_area(), n),
    }
    &&& match a.main_area {
        Some(v) => exists|j: int| #[trigger]
            is_last_place(first, is_main_area(), j) && numbers[j] == Some(v),
        None => none_fits(attrs, is_main_area(), n),
    }
    &&& match a.age {
        Some(v) => exists|j: int| #[trigger]
            is_last_place(first, is_age(), j) && text::parsed_i64(
                attrs[j].take(attrs[j].len() - 1),
            ) == Some(v),
        None => none_fits(attrs, is_age(), n),
    }
}

proof fn lemma_one_more(
    attrs: Seq<Seq<char>>,
    fits: spec_fn(Seq<char>) -> bool,
    n: int,
)
    requires
        0 < n <= attrs.len(),
    ensures
        fits(attrs[n - 1]) ==> is_last_place(attrs.take(n), fits, n - 1),
        forall|j: int|
            !fits(attrs[n - 1]) && #[trigger] is_last_place(attrs.take(n - 1), fits, j)
                ==> is_last_place(attrs.take(n), fits, j),
        !fits(attrs[n - 1]) && none_fits(attrs, fits, n - 1) ==> none_fits(attrs, fits, n),
{
    let s = attrs.take(n);
    let t = attrs.take(n - 1);
    assert forall|j: int| !fits(attrs[n - 1]) && #[trigger] is_last_place(t, fits, j) implies
        is_last_place(s, fits, j) by {
        assert(s[j] == t[j]);
        assert forall|k: int| j < k < s.len() implies !fits(#[trigger] s[k]) by {
            if k < n - 1 {
                assert(s[k] == t[k]);
            }
        }
    }
}

proof fn lemma_read(
    attrs: Seq<Seq<char>>,
    numbers: Seq<Option<Double>>,
    id: Seq<char>,
    n: int,
)
    requires
        0 <= n <= attrs.len(),
        parse::attributes_upto(attrs, numbers, id, n) matches Some(Ok(_)),
    ensures
        is_read(attrs, numbers, n, (parse::attributes_upto(attrs, numbers, id, n)->0)->Ok_0),
    decreases n,
{
    if n > 0 {
        lemma_read(attrs, numbers, id, n - 1);
        lemma_kind(attrs[n - 1]);
        lemma_one_more(attrs, is_rooms(), n);
        lemma_one_more(attrs, is_floor(), n);
        lemma_one_more(attrs, is_area(), n);
        lemma_one_more(attrs, is_main_area(), n);
        lemma_one_more(attrs, is_age(), n);
        let b = (parse::attributes_upto(attrs, numbers, id, n - 1)->0)->Ok_0;
        let a = (parse::attributes_upto(attrs, numbers, id, n)->0)->Ok_0;
        let t = attrs.take(n - 1);
        if b.rooms is Some {
            let j = choose|j: int| #[trigger]
                is_last_place(t, is_rooms(), j) && b.rooms->0 == attrs[j];
            assert(!is_rooms()(attrs[n - 1]) ==> is_last_place(attrs.take(n), is_rooms(), j));
        }
        if b.floor is Some {
            let j = choose|j: int| #[trigger]
                is_last_place(t, is_floor(), j) && b.floor->0 == attrs[j];
            assert(!is_floor()(attrs[n - 1]) ==> is_last_place(attrs.take(n), is_floor(), j));
        }
        if b.area is Some {
            let j = choose|j: int| #[trigger]
                is_last_place(t, is_area(), j) && numbers[j] == b.area;
            assert(!is_area()(attrs[n - 1]) ==> is_last_place(attrs.take(n), is_area(), j));
        }
        if b.main_area is Some {
            let j = choose|j: int| #[trigger]
                is_last_place(t, is_main_area(), j) && numbers[j] == b.main_area;
            assert(!is_main_area()(attrs[n - 1]) ==> is_last_place(
                attrs.take(n),
                is_main_area(),
                j,
            ));
        }
        if b.age is Some {
            let j = choose|j: int| #[trigger]
                is_last_place(t, is_age(), j) && text::parsed_i64(
                    attrs[j].take(attrs[j].len() - 1),
                ) == b.age;
            assert(!is_age()(attrs[n - 1]) ==> is_last_place(attrs.take(n), is_age(), j));
        }
    }
}

/// A card that is read says what its texts say. The id and the title are
/// taken as they are, and the address is the section with the address behind
/// it. A community or an agent is told only where the text says something;
/// a community called the placeholder is none. The price is the number
/// that the text without commas writes. Of several attributes of a kind the last
/// counts.
pub proof fn law_card_says_what_its_texts_say(
    raw: RawCardView,
    numbers: NumbersView,
    card: CardView,
)
    requires
        numbers.attrs.len() == raw.attrs.len(),
        parse::parsed_card(raw, numbers) == Some(Ok::<CardView, CardErrorView>(card)),
    ensures
        raw.id == Some(card.id),
        raw.title == Some(card.title),
        card.address == raw.section + raw.address,
        card.community == (match raw.community {
            Some(t) if t.len() > 0 && t != seq!['依', '現', '場', '名', '稱'] => Some(t),
            _ => None,
        }),
        card.agent == (match raw.agent {
            Some(t) if t.len() > 0 => Some(t),
            _ => None,
        }),
        text::parsed_i64(text::without(raw.price_value, ',')) == Some(card.price),
        numbers.unit_price == Some(card.unit_price),
        ({
            let rooms = |s: Seq<char>| !measures(s) && s.contains('房');
            let floor = |s: Seq<char>| !measures(s) && !s.contains('房') && s.contains('F');
            let area = |s: Seq<char>| starts(s, '權', '狀');
            let main_area = |s: Seq<char>| starts(s, '主', '建');
            let years = |s: Seq<char>| tells_years(s);
            &&& exists|j: int| #[trigger]
                is_last_place(raw.attrs, rooms, j) && card.rooms == raw.attrs[j]
            &&& exists|j: int| #[trigger]
                is_last_place(raw.attrs, floor, j) && card.floor == raw.attrs[j]
            &&& exists|j: int| #[trigger]
                is_last_place(raw.attrs, area, j) && Some(card.area) == numbers.attrs[j]
            &&& card.main_area is Some ==> exists|j: int| #[trigger]
                is_last_place(raw.attrs, main_area, j) && card.main_area == numbers.attrs[j]
            &&& card.main_area is None ==> forall|j: int|
                0 <= j < raw.attrs.len() ==> !main_area(#[trigger] raw.attrs[j])
            &&& card.age is Some ==> exists|j: int| #[trigger]
                is_last_place(raw.attrs, years, j) && card.age == text::parsed_i64(
                    raw.attrs[j].take(raw.attrs[j].len() - 1),
                )
            &&& card.age is None ==> forall|j: int|
                0 <= j < raw.attrs.len() ==> !years(#[trigger] raw.attrs[j])
        }),
{
    let n = raw.attrs.len() as int;
    reveal_strlit("依現場名稱");
    reveal_strlit("");
    assert(parse::COMMUNITY_PLACEHOLDER@ =~= seq!['依', '現', '場', '名', '稱']);
    lemma_read(raw.attrs, numbers.attrs, raw.id->0, n);
    assert(raw.attrs.take(n) =~= raw.attrs);
}

/// An attribute that can be used: an area has a number, and years are not too
/// many to be held.
spec fn is_good(attr: Seq<char>, number: Option<Double>) -> bool {
    &&& measures(attr) ==> number is Some
    &&& tells_years(attr) ==> text::parsed_i64(attr.take(attr.len() - 1)) is Some
}

proof fn lemma_good_attributes(
    attrs: Seq<Seq<char>>,
    numbers: Seq<Option<Double>>,
    id: Seq<char>,
    n: int,
)
    requires
        0 <= n <= attrs.len(),
        forall|k: int| 0 <= k < n ==> is_good(#[trigger] attrs[k], numbers[k]),
    ensures
        parse::attributes_upto(attrs, numbers, id, n) matches Some(Ok(_)),
    decreases n,
{
    if n > 0 {
        lemma_good_attributes(attrs, numbers, id, n - 1);
        lemma_kind(attrs[n - 1]);
        assert(is_good(attrs[n - 1], numbers[n - 1]));
    }
}

/// Every card is read that has an id and a title, a number for each area, ages
/// that can be held, rooms, an area and a floor, a price in digits, and a word
/// for the price per unit with a number in it.
pub proof fn law_complete_card_is_read(
    raw: RawCardView,
    numbers: NumbersView,
    rooms: int,
    area: int,
    floor: int,
)
    requires
        numbers.attrs.len() == raw.attrs.len(),
        raw.id is Some,
        raw.title is Some,
        forall|j: int|
            #![trigger raw.attrs[j]]
            0 <= j < raw.attrs.len() ==> {
                &&& measures(raw.attrs[j]) ==> numbers.attrs[j] is Some
                &&& tells_years(raw.attrs[j]) ==> text::parsed_i64(
                    raw.attrs[j].take(raw.attrs[j].len() - 1),
                ) is Some
            },
        0 <= rooms < raw.attrs.len(),
        !measures(raw.attrs[rooms]) && raw.attrs[rooms].contains('房'),
        0 <= area < raw.attrs.len(),
        starts(raw.attrs[area], '權', '狀'),
        0 <= floor < raw.attrs.len(),
        !measures(raw.attrs[floor]) && !raw.attrs[floor].contains('房')
            && raw.attrs[floor].contains('F'),
        text::parsed_i64(text::without(raw.price_value, ',')) is Some,
        parse::unit_price_text(raw.price_section_text) is Some,
        numbers.unit_price is Some,
    ensures
        parse::parsed_card(raw, numbers) matches Some(Ok(_)),
{
    let n = raw.attrs.len() as int;
    assert forall|k: int| 0 <= k < n implies is_good(
        #[trigger] raw.attrs[k],
        numbers.attrs[k],
    ) by {}
    lemma_good_attributes(raw.attrs, numbers.attrs, raw.id->0, n);
    lemma_read(raw.attrs, numbers.attrs, raw.id->0, n);
    assert(is_rooms()(raw.attrs[rooms]));
    assert(is_area()(raw.attrs[area]));
    assert(is_floor()(raw.attrs[floor]));
}

/// What is wrong with a card is told of the first thing that is: the id, the
/// title, the first area without a number, then rooms, area and floor that no
/// attribute tells, then the price and the price per unit.
pub proof fn law_first_fault_is_told(raw: RawCardView, numbers: NumbersView, j: int)
    requires
        numbers.attrs.len() == raw.attrs.len(),
        0 <= j <= raw.attrs.len(),
        forall|k: int|
            #![trigger raw.attrs[k]]
            0 <= k < j ==> {
                &&& measures(raw.attrs[k]) ==> numbers.attrs[k] is Some
                &&& tells_years(raw.attrs[k]) ==> text::parsed_i64(
                    raw.attrs[k].take(raw.attrs[k].len() - 1),
                ) is Some
            },
        j < raw.attrs.len() ==> measures(raw.attrs[j]) && numbers.attrs[j] is None,
    ensures
        ({
            let told = parse::parsed_card(raw, numbers);
            let id = raw.id->0;
            let none = |fits: spec_fn(Seq<char>) -> bool|
                forall|k: int| 0 <= k < raw.attrs.len() ==> !fits(#[trigger] raw.attrs[k]);
            let no_rooms = none(|s: Seq<char>| !measures(s) && s.contains('房'));
            let no_area = none(|s: Seq<char>| starts(s, '權', '狀'));
            let no_floor = none(
                |s: Seq<char>| !measures(s) && !s.contains('房') && s.contains('F'),
            );
            if raw.id is None {
                told == Some(Err::<CardView, CardErrorView>(CardErrorView::MissingId))
            } else if raw.title is None {
                told == Some(Err::<CardView, CardErrorView>(CardErrorView::MissingTitle { id }))
            } else if j < raw.attrs.len() {
                let attr = raw.attrs[j];
                told == Some(
                    Err::<CardView, CardErrorView>(
                        if attr[0] == '權' {
                            CardErrorView::BadArea { id, attr }
                        } else {
                            CardErrorView::BadMainArea { id, attr }
                        },
                    ),
                )
            } else if no_rooms {
                told == Some(
                    Err::<CardView, CardErrorView>(
                        CardErrorView::NoRooms { id, attrs: raw.attrs },
                    ),
                )
            } else if no_area {
                told == Some(
                    Err::<CardView, CardErrorView>(CardErrorView::NoArea { id, attrs: raw.attrs }),
                )
            } else if no_floor {
                told == Some(
                    Err::<CardView, CardErrorView>(
                        CardErrorView::NoFloor { id, attrs: raw.attrs },
                    ),
                )
            } else if text::parsed_i64(text::without(raw.price_value, ',')) is None {
                told == Some(
                    Err::<CardView, CardErrorView>(
                        CardErrorView::BadPrice { id, value: raw.price_value },
                    ),
                )
            } else if parse::unit_price_text(raw.price_section_text) is None {
                told == Some(
                    Err::<CardView, CardErrorView>(
                        CardErrorView::NoUnitPrice { id, text: raw.price_section_text },
                    ),
                )
            } else if numbers.unit_price is None {
                told == Some(
                    Err::<CardView, CardErrorView>(CardErrorView::BadUnitPrice { id }),
                )
            } else {
                told matches Some(Ok(_))
            }
        }),
{
    if raw.id is Some && raw.title is Some {
        let id = raw.id->0;
        let n = raw.attrs.len() as int;
        assert forall|k: int| 0 <= k < j implies is_good(
            #[trigger] raw.attrs[k],
            numbers.attrs[k],
        ) by {}
        lemma_good_attributes(raw.attrs, numbers.attrs, id, j);
        if j < n {
            lemma_kind(raw.attrs[j]);
            assert(!(parse::attributes_upto(raw.attrs, numbers.attrs, id, j + 1) matches Some(
                Ok(_),
            )));
            parse::lemma_attributes_end(raw.attrs, numbers.attrs, id, j + 1, n);
        } else {
            lemma_read(raw.attrs, numbers.attrs, id, n);
            assert(raw.attrs.take(n) =~= raw.attrs);
            let a = (parse::attributes_upto(raw.attrs, numbers.attrs, id, n)->0)->Ok_0;
            if a.rooms is Some {
                let k = choose|k: int| #[trigger]
                    is_last_place(raw.attrs, is_rooms(), k) && a.rooms->0 == raw.attrs[k];
                assert(is_rooms()(raw.attrs[k]));
            }
            if a.area is Some {
                let k = choose|k: int| #[trigger]
                    is_last_place(raw.attrs, is_area(), k) && numbers.attrs[k] == a.area;
                assert(is_area()(raw.attrs[k]));
            }
            if a.floor is Some {
                let k = choose|k: int| #[trigger]
                    is_last_place(raw.attrs, is_floor(), k) && a.floor->0 == raw.attrs[k];
                assert(is_floor()(raw.attrs[k]));
            }
        }
    }
}

// ---------------------------------------------------------------------------
// Numbers
// ---------------------------------------------------------------------------

/// An area is read from what stands between the two characters that name it
/// and the units behind it. No other attribute is read as a number.
pub proof fn law_areas_are_read_without_their_units(attr: Seq<char>, body: Seq<char>)
    ensures
        parse::number_text(attr) is Some <==> measures(attr),
        measures(attr) ==> parse::number_text(attr.push('坪')) == parse::number_text(attr),
        body.len() == 0 || body[body.len() - 1] != '坪' ==> {
            &&& parse::number_text(seq!['權', '狀'] + body) == Some(body)
            &&& parse::number_text(seq!['主', '建'] + body) == Some(body)
        },
{
    lemma_kind(attr);
    lemma_kind(attr.push('坪'));
    lemma_kind(seq!['權', '狀'] + body);
    lemma_kind(seq!['主', '建'] + body);
    assert((seq!['權', '狀'] + body).skip(2) =~= body);
    assert((seq!['主', '建'] + body).skip(2) =~= body);
    if measures(attr) {
        assert(attr.push('坪')[0] == attr[0] && attr.push('坪')[1] == attr[1]);
        assert(attr.push('坪').skip(2) =~= attr.skip(2).push('坪'));
        text::law_taking_away(attr.skip(2), '坪', body);
    }
    text::law_taking_away(body, '坪', body);
    if body.len() == 0 {
        assert(body =~= Seq::<char>::empty());
    }
}

proof fn lemma_unit_price_in(words: Seq<Seq<char>>) -> (at: int)
    ensures
        match parse::unit_price_in(words) {
            Some(t) => {
                &&& 0 <= at < words.len()
                &&& words[at] == t + "萬/坪"@
                &&& forall|k: int|
                    0 <= k < at ==> !text::has_suffix(#[trigger] words[k], "萬/坪"@)
            },
            None => forall|k: int|
                0 <= k < words.len() ==> !text::has_suffix(#[trigger] words[k], "萬/坪"@),
        },
    decreases words.len(),
{
    reveal_strlit("萬/坪");
    if words.len() == 0 {
        0
    } else if text::has_suffix(words[0], "萬/坪"@) {
        text::law_prefixes_and_suffixes(words[0], "萬/坪"@, words[0]);
        0
    } else {
        let rest = words.skip(1);
        let at = lemma_unit_price_in(rest);
        assert forall|k: int| 0 < k < words.len() implies #[trigger] words[k] == rest[k - 1] by {}
        at + 1
    }
}

/// The price per unit is what stands in front of the unit, in the first word
/// of the text that ends with it.
pub proof fn law_unit_price_is_in_front_of_its_unit(price_section_text: Seq<char>) -> (at: int)
    ensures
        ({
            let words = text::words(price_section_text);
            let ends = |w: Seq<char>|
                w.len() >= 3 && w[w.len() - 3] == '萬' && w[w.len() - 2] == '/' && w[w.len() - 1]
                    == '坪';
            match parse::unit_price_text(price_section_text) {
                Some(t) => {
                    &&& 0 <= at < words.len()
                    &&& words[at] == t + seq!['萬', '/', '坪']
                    &&& forall|k: int| 0 <= k < at ==> !ends(#[trigger] words[k])
                },
                None => forall|k: int| 0 <= k < words.len() ==> !ends(#[trigger] words[k]),
            }
        }),
{
    let words = text::words(price_section_text);
    reveal_strlit("萬/坪");
    let unit = "萬/坪"@;
    assert(unit =~= seq!['萬', '/', '坪']);
    let at = lemma_unit_price_in(words);
    assert forall|k: int| 0 <= k < words.len() && !text::has_suffix(#[trigger] words[k], unit)
        implies !(words[k].len() >= 3 && words[k][words[k].len() - 3] == '萬' && words[k][
        words[k].len() - 2] == '/' && words[k][words[k].len() - 1] == '坪') by {
        let w = words[k];
        if w.len() >= 3 && w[w.len() - 3] == '萬' && w[w.len() - 2] == '/' && w[w.len() - 1] == '坪' {
            assert(w.skip(w.len() - 3) =~= unit);
        }
    }
    at
}

// ---------------------------------------------------------------------------
// Pages
// ---------------------------------------------------------------------------

spec fn places_with_id(raws: Seq<RawCardView>, n: int) -> Seq<int>
    decreases n,
{
    if n <= 0 {
        seq![]
    } else if raws[n - 1].id is Some {
        places_with_id(raws, n - 1).push(n - 1)
    } else {
        places_with_id(raws, n - 1)
    }
}

proof fn lemma_places_with_id(raws: Seq<RawCardView>, n: int)
    requires
        0 <= n <= raws.len(),
    ensures
        ({
            let at = places_with_id(raws, n);
            &&& forall|k: int| 0 <= k < at.len() ==> 0 <= #[trigger] at[k] < n
            &&& forall|k: int, l: int| 0 <= k < l < at.len() ==> #[trigger] at[k] < #[trigger] at[l]
            &&& forall|i: int| 0 <= i < n ==> (#[trigger] at.contains(i) <==> raws[i].id is Some)
        }),
    decreases n,
{
    if n > 0 {
        lemma_places_with_id(raws, n - 1);
        let front = places_with_id(raws, n - 1);
        let at = places_with_id(raws, n);
        assert forall|i: int| 0 <= i < n implies (#[trigger] at.contains(i) <==> raws[i].id
            is Some) by {
            if front.contains(i) {
                let k = front.index_of(i);
                assert(at[k] == i);
            }
            if at.contains(i) && i < n - 1 {
                let k = at.index_of(i);
                assert(at[k] == i);
                assert(front[k] == i);
            }
            if i == n - 1 && raws[i].id is Some {
                assert(at[at.len() - 1] == i);
            }
            if i == n - 1 && raws[i].id is None && at.contains(i) {
                let k = at.index_of(i);
                assert(front[k] == i);
            }
        }
    }
}

proof fn lemma_cards_upto(raws: Seq<RawCardView>, numbers: Seq<NumbersView>, n: int)
    requires
        0 <= n <= raws.len(),
        parse::cards_upto(raws, numbers, n) matches Some(Ok(_)),
    ensures
        ({
            let cards = (parse::cards_upto(raws, numbers, n)->0)->Ok_0;
            let at = places_with_id(raws, n);
            &&& cards.len() == at.len()
            &&& forall|k: int|
                #![trigger cards[k]]
                0 <= k < at.len() ==> parse::parsed_card(raws[at[k]], numbers[at[k]]) == Some(
                    Ok::<CardView, CardErrorView>(cards[k]),
                )
        }),
    decreases n,
{
    if n > 0 {
        lemma_cards_upto(raws, numbers, n - 1);
    }
}

/// A page that is read gives one card for each that has an id, in the order of
/// the page. At the places `at` stand the ones with an id.
pub proof fn law_page_gives_each_card_with_an_id(
    raws: Seq<RawCardView>,
    numbers: Seq<NumbersView>,
    cards: Seq<CardView>,
) -> (at: Seq<int>)
    requires
        parse::parsed_page(raws, numbers) == Some(Ok::<Seq<CardView>, CardErrorView>(cards)),
    ensures
        at.len() == cards.len(),
        forall|k: int| 0 <= k < at.len() ==> 0 <= #[trigger] at[k] < raws.len(),
        forall|k: int, l: int| 0 <= k < l < at.len() ==> #[trigger] at[k] < #[trigger] at[l],
        forall|i: int|
            0 <= i < raws.len() ==> (#[trigger] at.contains(i) <==> raws[i].id is Some),
        forall|k: int|
            #![trigger cards[k]]
            0 <= k < cards.len() ==> parse::parsed_card(raws[at[k]], numbers[at[k]]) == Some(
                Ok::<CardView, CardErrorView>(cards[k]),
            ) && raws[at[k]].id == Some(cards[k].id),
{
    let n = raws.len() as int;
    lemma_places_with_id(raws, n);
    lemma_cards_upto(raws, numbers, n);
    places_with_id(raws, n)
}

proof fn lemma_readable_cards(raws: Seq<RawCardView>, numbers: Seq<NumbersView>, n: int)
    requires
        0 <= n <= raws.len(),
        forall|i: int|
            #![trigger raws[i]]
            0 <= i < n && raws[i].id is Some ==> (parse::parsed_card(raws[i], numbers[i]) matches
            Some(Ok(_))),
    ensures
        parse::cards_upto(raws, numbers, n) matches Some(Ok(_)),
    decreases n,
{
    if n > 0 {
        lemma_readable_cards(raws, numbers, n - 1);
        assert(raws[n - 1].id is Some ==> (parse::parsed_card(raws[n - 1], numbers[n - 1]) matches
        Some(Ok(_))));
    }
}

/// A page is read where every card with an id is; otherwise what is wrong with
/// the first that is not is what is told of the page.
pub proof fn law_first_fault_on_a_page_is_told(
    raws: Seq<RawCardView>,
    numbers: Seq<NumbersView>,
    j: int,
)
    requires
        0 <= j <= raws.len(),
        forall|i: int|
            #![trigger raws[i]]
            0 <= i < j && raws[i].id is Some ==> (parse::parsed_card(raws[i], numbers[i]) matches
            Some(Ok(_))),
        j < raws.len() ==> raws[j].id is Some && (parse::parsed_card(raws[j], numbers[j]) matches
        Some(Err(_))),
    ensures
        j == raws.len() ==> (parse::parsed_page(raws, numbers) matches Some(Ok(_))),
        j < raws.len() ==> parse::parsed_page(raws, numbers) == Some(
            Err::<Seq<CardView>, CardErrorView>(
                (parse::parsed_card(raws[j], numbers[j])->0)->Err_0,
            ),
        ),
{
    lemma_readable_cards(raws, numbers, j);
    if j < raws.len() {
        assert(!(parse::cards_upto(raws, numbers, j + 1) matches Some(Ok(_))));
        parse::lemma_cards_end(raws, numbers, j + 1, raws.len() as int);
    }
}

} // verus!

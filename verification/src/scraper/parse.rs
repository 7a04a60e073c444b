//! Reading a card.
//!
//! A page hands over the texts of its cards. The numbers among them that are
//! not whole are read by the caller: [`number_texts`] tells which texts these
//! are, and [`CardNumbers`] holds what was read from them.

use crate::double::Double;
use crate::scraper::{CardView, ScrapedCard};
use crate::text;
use crate::text::{
    chars_of, contains_char, copy_texts, is_number_text, parse_i64, remove_char, same_text,
    split_whitespace, strip_prefix, strip_suffix, trim_end_char,
};
use vstd::prelude::*;

verus! {

/// What stands for the community where a listing names none.
pub const COMMUNITY_PLACEHOLDER: &'static str = "依現場名稱";

/// The texts of a card.
#[derive(Debug)]
pub struct RawCardJs {
    pub id: Option<String>,
    pub title: Option<String>,
    pub attrs: Vec<String>,
    pub community: Option<String>,
    pub section: String,
    pub address: String,
    pub agent: Option<String>,
    pub price_value: String,
    pub price_section_text: String,
}

#[verifier::ext_equal]
pub struct RawCardView {
    pub id: Option<Seq<char>>,
    pub title: Option<Seq<char>>,
    pub attrs: Seq<Seq<char>>,
    pub community: Option<Seq<char>>,
    pub section: Seq<char>,
    pub address: Seq<char>,
    pub agent: Option<Seq<char>>,
    pub price_value: Seq<char>,
    pub price_section_text: Seq<char>,
}

impl View for RawCardJs {
    type V = RawCardView;

    open spec fn view(&self) -> RawCardView {
        RawCardView {
            id: self.id.deep_view(),
            title: self.title.deep_view(),
            attrs: self.attrs.deep_view(),
            community: self.community.deep_view(),
            section: self.section@,
            address: self.address@,
            agent: self.agent.deep_view(),
            price_value: self.price_value@,
            price_section_text: self.price_section_text@,
        }
    }
}

impl DeepView for RawCardJs {
    type V = RawCardView;

    open spec fn deep_view(&self) -> RawCardView {
        self@
    }
}

/// The numbers of a card that are not whole, as far as they could be read: one
/// place for each attribute, and the price per unit of area.
#[derive(Debug)]
pub struct CardNumbers {
    pub attrs: Vec<Option<Double>>,
    pub unit_price: Option<Double>,
}

#[verifier::ext_equal]
pub struct NumbersView {
    pub attrs: Seq<Option<Double>>,
    pub unit_price: Option<Double>,
}

impl View for CardNumbers {
    type V = NumbersView;

    open spec fn view(&self) -> NumbersView {
        NumbersView { attrs: self.attrs@, unit_price: self.unit_price }
    }
}

impl DeepView for CardNumbers {
    type V = NumbersView;

    open spec fn deep_view(&self) -> NumbersView {
        self@
    }
}

/// What keeps a card from being read. Each but the first names the card.
#[derive(Debug)]
pub enum CardError {
    MissingId,
    MissingTitle { id: String },
    BadArea { id: String, attr: String },
    BadMainArea { id: String, attr: String },
    NoRooms { id: String, attrs: Vec<String> },
    NoArea { id: String, attrs: Vec<String> },
    NoFloor { id: String, attrs: Vec<String> },
    BadPrice { id: String, value: String },
    NoUnitPrice { id: String, text: String },
    BadUnitPrice { id: String },
}

pub enum CardErrorView {
    MissingId,
    MissingTitle { id: Seq<char> },
    BadArea { id: Seq<char>, attr: Seq<char> },
    BadMainArea { id: Seq<char>, attr: Seq<char> },
    NoRooms { id: Seq<char>, attrs: Seq<Seq<char>> },
    NoArea { id: Seq<char>, attrs: Seq<Seq<char>> },
    NoFloor { id: Seq<char>, attrs: Seq<Seq<char>> },
    BadPrice { id: Seq<char>, value: Seq<char> },
    NoUnitPrice { id: Seq<char>, text: Seq<char> },
    BadUnitPrice { id: Seq<char> },
}

impl View for CardError {
    type V = CardErrorView;

    open spec fn view(&self) -> CardErrorView {
        match self {
            CardError::MissingId => CardErrorView::MissingId,
            CardError::MissingTitle { id } => CardErrorView::MissingTitle { id: id@ },
            CardError::BadArea { id, attr } => CardErrorView::BadArea { id: id@, attr: attr@ },
            CardError::BadMainArea { id, attr } => CardErrorView::BadMainArea {
                id: id@,
                attr: attr@,
            },
            CardError::NoRooms { id, attrs } => CardErrorView::NoRooms {
                id: id@,
                attrs: attrs.deep_view(),
            },
            CardError::NoArea { id, attrs } => CardErrorView::NoArea {
                id: id@,
                attrs: attrs.deep_view(),
            },
            CardError::NoFloor { id, attrs } => CardErrorView::NoFloor {
                id: id@,
                attrs: attrs.deep_view(),
            },
            CardError::BadPrice { id, value } => CardErrorView::BadPrice { id: id@, value: value@ },
            CardError::NoUnitPrice { id, text } => CardErrorView::NoUnitPrice {
                id: id@,
                text: text@,
            },
            CardError::BadUnitPrice { id } => CardErrorView::BadUnitPrice { id: id@ },
        }
    }
}

impl CardErrorView {
    /// What a user is told. `quoted` is the text, or the list of attributes,
    /// that could not be read, in quotation marks.
    pub open spec fn message(self, quoted: Seq<char>) -> Seq<char> {
        match self {
            CardErrorView::MissingId => "卡片缺少 data-id"@,
            CardErrorView::MissingTitle { id } => "卡片缺少 title（id="@ + id + "）"@,
            CardErrorView::BadArea { id, attr: _ } => "area 格式錯誤 "@ + quoted + "（"@ + id + "）"@,
            CardErrorView::BadMainArea { id, attr: _ } => "mainArea 格式錯誤 "@ + quoted + "（"@ + id + "）"@,
            CardErrorView::NoRooms { id, attrs: _ } => "attrs 找不到 rooms（"@ + id + "）: "@ + quoted,
            CardErrorView::NoArea { id, attrs: _ } => "attrs 找不到 area（"@ + id + "）: "@ + quoted,
            CardErrorView::NoFloor { id, attrs: _ } => "attrs 找不到 floor（"@ + id + "）: "@ + quoted,
            CardErrorView::BadPrice { id, value: _ } => "price 格式錯誤 "@ + quoted + "（"@ + id + "）"@,
            CardErrorView::NoUnitPrice { id, text: _ } => "unitPrice 解析失敗 "@ + quoted + "（"@ + id + "）"@,
            CardErrorView::BadUnitPrice { id } => "unitPrice 數字格式錯誤（"@ + id + "）"@,
        }
    }
}

impl CardError {
    /// What a user is told. The caller puts the text, or the list of attributes,
    /// that could not be read in quotation marks.
    pub fn message(&self, quoted: &str) -> (r: String)
        ensures
            r@ == self@.message(quoted@),
    {
        match self {
            CardError::MissingId => "卡片缺少 data-id".to_owned(),
            CardError::MissingTitle { id } => {
                let mut r = "卡片缺少 title（id=".to_owned();
                r.append(id.as_str());
                r.append("）");
                r
            },
            CardError::BadArea { id, attr: _ } => {
                let mut r = "area 格式錯誤 ".to_owned();
                r.append(quoted);
                r.append("（");
                r.append(id.as_str());
                r.append("）");
                r
            },
            CardError::BadMainArea { id, attr: _ } => {
                let mut r = "mainArea 格式錯誤 ".to_owned();
                r.append(quoted);
                r.append("（");
                r.append(id.as_str());
                r.append("）");
                r
            },
            CardError::NoRooms { id, attrs: _ } => {
                let mut r = "attrs 找不到 rooms（".to_owned();
                r.append(id.as_str());
                r.append("）: ");
                r.append(quoted);
                r
            },
            CardError::NoArea { id, attrs: _ } => {
                let mut r = "attrs 找不到 area（".to_owned();
                r.append(id.as_str());
                r.append("）: ");
                r.append(quoted);
                r
            },
            CardError::NoFloor { id, attrs: _ } => {
                let mut r = "attrs 找不到 floor（".to_owned();
                r.append(id.as_str());
                r.append("）: ");
                r.append(quoted);
                r
            },
            CardError::BadPrice { id, value: _ } => {
                let mut r = "price 格式錯誤 ".to_owned();
                r.append(quoted);
                r.append("（");
                r.append(id.as_str());
                r.append("）");
                r
            },
            CardError::NoUnitPrice { id, text: _ } => {
                let mut r = "unitPrice 解析失敗 ".to_owned();
                r.append(quoted);
                r.append("（");
                r.append(id.as_str());
                r.append("）");
                r
            },
            CardError::BadUnitPrice { id } => {
                let mut r = "unitPrice 數字格式錯誤（".to_owned();
                r.append(id.as_str());
                r.append("）");
                r
            },
        }
    }
}

// ---------------------------------------------------------------------------
// Attributes
// ---------------------------------------------------------------------------

/// What an attribute of a card is about. The rest, such as the type of the
/// building, is known from the search.
#[derive(Clone, Copy, Debug, PartialEq, Eq, Structural)]
pub enum AttributeKind {
    Area,
    MainArea,
    Rooms,
    Floor,
    Age,
    Other,
}

/// What is left of an age once the word for years is gone.
pub open spec fn age_digits(attr: Seq<char>) -> Seq<char> {
    attr.take(attr.len() - 1)
}

pub open spec fn kind_of(attr: Seq<char>) -> AttributeKind {
    if text::has_prefix(attr, "權狀"@) {
        AttributeKind::Area
    } else if text::has_prefix(attr, "主建"@) {
        AttributeKind::MainArea
    } else if attr.contains('房') {
        AttributeKind::Rooms
    } else if attr.contains('F') {
        AttributeKind::Floor
    } else if attr.len() > 0 && attr.last() == '年' && text::is_number(age_digits(attr)) {
        AttributeKind::Age
    } else {
        AttributeKind::Other
    }
}

/// The part of an attribute that is to be read as a number: what stands behind
/// the two characters that name it, without the unit.
pub open spec fn number_text(attr: Seq<char>) -> Option<Seq<char>> {
    match kind_of(attr) {
        AttributeKind::Area | AttributeKind::MainArea => Some(
            text::without_trailing(attr.skip(2), '坪'),
        ),
        _ => None,
    }
}

/// What has been read of the attributes.
#[derive(Debug)]
pub struct Attributes {
    pub rooms: Option<String>,
    pub area: Option<Double>,
    pub main_area: Option<Double>,
    pub age: Option<i64>,
    pub floor: Option<String>,
}

#[verifier::ext_equal]
pub struct AttributesView {
    pub rooms: Option<Seq<char>>,
    pub area: Option<Double>,
    pub main_area: Option<Double>,
    pub age: Option<i64>,
    pub floor: Option<Seq<char>>,
}

impl View for Attributes {
    type V = AttributesView;

    open spec fn view(&self) -> AttributesView {
        AttributesView {
            rooms: self.rooms.deep_view(),
            area: self.area,
            main_area: self.main_area,
            age: self.age,
            floor: self.floor.deep_view(),
        }
    }
}

pub open spec fn no_attributes() -> AttributesView {
    AttributesView { rooms: None, area: None, main_area: None, age: None, floor: None }
}

/// What one more attribute adds. Nothing is said of an age that is too large
/// to be held.
pub open spec fn with_attribute(
    a: AttributesView,
    attr: Seq<char>,
    number: Option<Double>,
    id: Seq<char>,
) -> Option<Result<AttributesView, CardErrorView>> {
    match kind_of(attr) {
        AttributeKind::Area => match number {
            Some(n) => Some(Ok(AttributesView { area: Some(n), ..a })),
            None => Some(Err(CardErrorView::BadArea { id, attr })),
        },
        AttributeKind::MainArea => match number {
            Some(n) => Some(Ok(AttributesView { main_area: Some(n), ..a })),
            None => Some(Err(CardErrorView::BadMainArea { id, attr })),
        },
        AttributeKind::Rooms => Some(Ok(AttributesView { rooms: Some(attr), ..a })),
        AttributeKind::Floor => Some(Ok(AttributesView { floor: Some(attr), ..a })),
        AttributeKind::Age => match text::parsed_i64(age_digits(attr)) {
            Some(n) => Some(Ok(AttributesView { age: Some(n), ..a })),
            None => None,
        },
        AttributeKind::Other => Some(Ok(a)),
    }
}

/// What the first `n` attributes say.
pub open spec fn attributes_upto(
    attrs: Seq<Seq<char>>,
    numbers: Seq<Option<Double>>,
    id: Seq<char>,
    n: int,
) -> Option<Result<AttributesView, CardErrorView>>
    decreases n,
{
    if n <= 0 {
        Some(Ok(no_attributes()))
    } else {
        match attributes_upto(attrs, numbers, id, n - 1) {
            Some(Ok(a)) => with_attribute(a, attrs[n - 1], numbers[n - 1], id),
            other => other,
        }
    }
}

/// Rooms, area, main area, age and floor, or what is wrong with them.
pub open spec fn parsed_attrs(
    attrs: Seq<Seq<char>>,
    numbers: Seq<Option<Double>>,
    id: Seq<char>,
) -> Option<Result<AttributesView, CardErrorView>> {
    match attributes_upto(attrs, numbers, id, attrs.len() as int) {
        Some(Ok(a)) => if a.rooms is None {
            Some(Err(CardErrorView::NoRooms { id, attrs }))
        } else if a.area is None {
            Some(Err(CardErrorView::NoArea { id, attrs }))
        } else if a.floor is None {
            Some(Err(CardErrorView::NoFloor { id, attrs }))
        } else {
            Some(Ok(a))
        },
        other => other,
    }
}

/// The view of a result.
pub open spec fn attributes_result(r: Result<Attributes, CardError>) -> Result<
    AttributesView,
    CardErrorView,
> {
    match r {
        Ok(a) => Ok(a@),
        Err(e) => Err(e@),
    }
}

pub open spec fn attributes_outcome(r: Option<Result<Attributes, CardError>>) -> Option<
    Result<AttributesView, CardErrorView>,
> {
    match r {
        Some(v) => Some(attributes_result(v)),
        None => None,
    }
}

fn classify(attr: &str) -> (r: AttributeKind)
    ensures
        r == kind_of(attr@),
{
    if strip_prefix(attr, "權狀").is_some() {
        return AttributeKind::Area;
    }
    if strip_prefix(attr, "主建").is_some() {
        return AttributeKind::MainArea;
    }
    if contains_char(attr, '房') {
        return AttributeKind::Rooms;
    }
    if contains_char(attr, 'F') {
        return AttributeKind::Floor;
    }
    match age_of(attr) {
        Some(_) => AttributeKind::Age,
        None => AttributeKind::Other,
    }
}

/// The digits of an age.
fn age_of<'a>(attr: &'a str) -> (r: Option<&'a str>)
    ensures
        r is Some <==> attr@.len() > 0 && attr@.last() == '年' && text::is_number(
            age_digits(attr@),
        ),
        r matches Some(d) ==> d@ == age_digits(attr@),
{
    proof {
        reveal_strlit("年");
        assert("年"@ =~= seq!['年']);
    }
    match strip_suffix(attr, "年") {
        Some(rest) => {
            proof {
                assert(attr@.skip(attr@.len() - 1)[0] == attr@.last());
                assert("年"@[0] == '年');
                assert(attr@.take(attr@.len() - 1) =~= rest@);
            }
            if is_number_text(rest) {
                Some(rest)
            } else {
                None
            }
        },
        None => {
            proof {
                if attr@.len() > 0 && attr@.last() == '年' {
                    assert(attr@.skip(attr@.len() - 1) =~= "年"@);
                }
            }
            None
        },
    }
}

fn add_attribute(
    a: Attributes,
    attr: &String,
    number: Option<Double>,
    id: &String,
) -> (r: Option<Result<Attributes, CardError>>)
    ensures
        attributes_outcome(r) == with_attribute(a@, attr@, number, id@),
{
    let mut a = a;
    match classify(attr.as_str()) {
        AttributeKind::Area => match number {
            Some(n) => {
                a.area = Some(n);
            },
            None => {
                return Some(Err(CardError::BadArea { id: id.clone(), attr: attr.clone() }));
            },
        },
        AttributeKind::MainArea => match number {
            Some(n) => {
                a.main_area = Some(n);
            },
            None => {
                return Some(Err(CardError::BadMainArea { id: id.clone(), attr: attr.clone() }));
            },
        },
        AttributeKind::Rooms => {
            a.rooms = Some(attr.clone());
        },
        AttributeKind::Floor => {
            a.floor = Some(attr.clone());
        },
        AttributeKind::Age => {
            let digits = match age_of(attr.as_str()) {
                Some(d) => d,
                None => {
                    return None;
                },
            };
            match parse_i64(&chars_of(digits)) {
                Some(n) => {
                    a.age = Some(n);
                },
                None => {
                    return None;
                },
            }
        },
        AttributeKind::Other => {},
    }
    Some(Ok(a))
}

/// Reads the attributes of a card; nothing comes back where an age is too
/// large to be held.
fn parse_attrs(attrs: &Vec<String>, numbers: &Vec<Option<Double>>, card_id: &String) -> (r: Option<
    Result<Attributes, CardError>,
>)
    requires
        numbers.len() == attrs.len(),
    ensures
        attributes_outcome(r) == parsed_attrs(attrs.deep_view(), numbers@, card_id@),
{
    let mut a = Attributes { rooms: None, area: None, main_area: None, age: None, floor: None };
    let ghost texts = attrs.deep_view();
    for i in 0..attrs.len()
        invariant
            texts == attrs.deep_view(),
            numbers.len() == attrs.len(),
            attributes_upto(texts, numbers@, card_id@, i as int) == Some(
                Ok::<AttributesView, CardErrorView>(a@),
            ),
    {
        let r = add_attribute(a, &attrs[i], numbers[i], card_id);
        assert(attributes_upto(texts, numbers@, card_id@, i + 1) == attributes_outcome(r));
        match r {
            Some(Ok(next)) => {
                a = next;
            },
            Some(Err(e)) => {
                proof {
                    lemma_attributes_end(texts, numbers@, card_id@, i + 1, texts.len() as int);
                }
                return Some(Err(e));
            },
            None => {
                proof {
                    lemma_attributes_end(texts, numbers@, card_id@, i + 1, texts.len() as int);
                }
                return None;
            },
        }
    }
    if a.rooms.is_none() {
        return Some(
            Err(CardError::NoRooms { id: card_id.clone(), attrs: copy_texts(attrs) }),
        );
    }
    if a.area.is_none() {
        return Some(
            Err(CardError::NoArea { id: card_id.clone(), attrs: copy_texts(attrs) }),
        );
    }
    if a.floor.is_none() {
        return Some(
            Err(CardError::NoFloor { id: card_id.clone(), attrs: copy_texts(attrs) }),
        );
    }
    Some(Ok(a))
}

/// What stopped the reading stays.
pub(crate) proof fn lemma_attributes_end(
    attrs: Seq<Seq<char>>,
    numbers: Seq<Option<Double>>,
    id: Seq<char>,
    m: int,
    n: int,
)
    requires
        0 <= m <= n,
        !(attributes_upto(attrs, numbers, id, m) matches Some(Ok(_))),
    ensures
        attributes_upto(attrs, numbers, id, n) == attributes_upto(attrs, numbers, id, m),
    decreases n,
{
    if m < n {
        lemma_attributes_end(attrs, numbers, id, m, n - 1);
    }
}

// ---------------------------------------------------------------------------
// Prices
// ---------------------------------------------------------------------------

/// What stands before the unit in the first word that ends with it.
pub open spec fn unit_price_in(words: Seq<Seq<char>>) -> Option<Seq<char>>
    decreases words.len(),
{
    if words.len() == 0 {
        None
    } else if text::has_suffix(words[0], "萬/坪"@) {
        Some(words[0].take(words[0].len() - 3))
    } else {
        unit_price_in(words.skip(1))
    }
}

/// The part of a price that is to be read as the price per unit of area.
pub open spec fn unit_price_text(price_section_text: Seq<char>) -> Option<Seq<char>> {
    unit_price_in(text::words(price_section_text))
}

pub open spec fn parsed_price(
    price_value: Seq<char>,
    price_section_text: Seq<char>,
    unit_price: Option<Double>,
    id: Seq<char>,
) -> Result<(i64, Double), CardErrorView> {
    match text::parsed_i64(text::without(price_value, ',')) {
        None => Err(CardErrorView::BadPrice { id, value: price_value }),
        Some(price) => if unit_price_text(price_section_text) is None {
            Err(CardErrorView::NoUnitPrice { id, text: price_section_text })
        } else {
            match unit_price {
                None => Err(CardErrorView::BadUnitPrice { id }),
                Some(u) => Ok((price, u)),
            }
        },
    }
}

pub open spec fn price_result(r: Result<(i64, Double), CardError>) -> Result<
    (i64, Double),
    CardErrorView,
> {
    match r {
        Ok(v) => Ok(v),
        Err(e) => Err(e@),
    }
}

fn find_unit_price(price_section_text: &str) -> (r: Option<String>)
    ensures
        r.deep_view() == unit_price_text(price_section_text@),
{
    let found = split_whitespace(price_section_text);
    let ghost all = text::words(price_section_text@);
    proof {
        reveal_strlit("萬/坪");
        assert(all.skip(0) =~= all);
    }
    for i in 0..found.len()
        invariant
            all == text::words(price_section_text@),
            text::views(found@) == all,
            "萬/坪"@.len() == 3,
            unit_price_in(all) == unit_price_in(all.skip(i as int)),
    {
        proof {
            assert(all[i as int] == found[i as int]@);
            assert(all.skip(i as int)[0] == all[i as int]);
            assert(all.skip(i as int).skip(1) =~= all.skip(i + 1));
        }
        match strip_suffix(found[i], "萬/坪") {
            Some(number) => {
                return Some(number.to_owned());
            },
            None => {},
        }
    }
    None
}

/// Reads the price and the price per unit of area, in a text such as
/// "2,688萬 87.33萬/坪".
pub fn parse_price(
    price_value: &String,
    price_section_text: &String,
    unit_price: Option<Double>,
    card_id: &String,
) -> (r: Result<(i64, Double), CardError>)
    ensures
        price_result(r) == parsed_price(price_value@, price_section_text@, unit_price, card_id@),
{
    let price = match parse_i64(&remove_char(price_value.as_str(), ',')) {
        Some(p) => p,
        None => {
            return Err(CardError::BadPrice { id: card_id.clone(), value: price_value.clone() });
        },
    };
    if find_unit_price(price_section_text.as_str()).is_none() {
        return Err(
            CardError::NoUnitPrice { id: card_id.clone(), text: price_section_text.clone() },
        );
    }
    match unit_price {
        Some(u) => Ok((price, u)),
        None => Err(CardError::BadUnitPrice { id: card_id.clone() }),
    }
}

// ---------------------------------------------------------------------------
// Cards
// ---------------------------------------------------------------------------

/// The texts of a card that are to be read as numbers.
#[derive(Debug)]
pub struct NumberTexts {
    /// One place for each attribute.
    pub attrs: Vec<Option<String>>,
    pub unit_price: Option<String>,
}

/// Tells which texts of a card are to be read as numbers.
pub fn number_texts(raw: &RawCardJs) -> (r: NumberTexts)
    ensures
        r.attrs.deep_view() == raw@.attrs.map_values(|attr: Seq<char>| number_text(attr)),
        r.unit_price.deep_view() == unit_price_text(raw@.price_section_text),
{
    let mut attrs: Vec<Option<String>> = Vec::new();
    let ghost wanted = raw@.attrs.map_values(|attr: Seq<char>| number_text(attr));
    for i in 0..raw.attrs.len()
        invariant
            wanted == raw@.attrs.map_values(|attr: Seq<char>| number_text(attr)),
            attrs.deep_view() == wanted.take(i as int),
    {
        let ghost before = attrs.deep_view();
        attrs.push(find_number(raw.attrs[i].as_str()));
        proof {
            assert(raw@.attrs[i as int] == raw.attrs[i as int]@);
            assert(attrs.deep_view() =~= before.push(wanted[i as int]));
            assert(attrs.deep_view() =~= wanted.take(i + 1));
        }
    }
    assert(attrs.deep_view() =~= wanted);
    NumberTexts { attrs, unit_price: find_unit_price(raw.price_section_text.as_str()) }
}

fn find_number(attr: &str) -> (r: Option<String>)
    ensures
        r.deep_view() == number_text(attr@),
{
    proof {
        reveal_strlit("權狀");
        reveal_strlit("主建");
    }
    match strip_prefix(attr, "權狀") {
        Some(rest) => Some(trim_end_char(rest, '坪').to_owned()),
        None => match strip_prefix(attr, "主建") {
            Some(rest) => Some(trim_end_char(rest, '坪').to_owned()),
            None => None,
        },
    }
}

/// A text, where there is one and it says something.
pub open spec fn said(s: Option<Seq<char>>, unless: Seq<char>) -> Option<Seq<char>> {
    match s {
        Some(t) => if t.len() == 0 || t == unless {
            None
        } else {
            Some(t)
        },
        None => None,
    }
}

fn what_is_said(s: &Option<String>, unless: &str) -> (r: Option<String>)
    ensures
        r.deep_view() == said(s.deep_view(), unless@),
{
    match s {
        Some(t) => if t.as_str().unicode_len() == 0 || same_text(t.as_str(), unless) {
            None
        } else {
            Some(t.clone())
        },
        None => None,
    }
}

/// What a card says, or what is wrong with it. Nothing is said of a card with
/// an age that is too large to be held.
pub open spec fn parsed_card(raw: RawCardView, numbers: NumbersView) -> Option<
    Result<CardView, CardErrorView>,
> {
    if raw.id is None {
        Some(Err(CardErrorView::MissingId))
    } else if raw.title is None {
        Some(Err(CardErrorView::MissingTitle { id: raw.id->0 }))
    } else {
        let id = raw.id->0;
        match parsed_attrs(raw.attrs, numbers.attrs, id) {
            None => None,
            Some(Err(e)) => Some(Err(e)),
            Some(Ok(a)) => match parsed_price(
                raw.price_value,
                raw.price_section_text,
                numbers.unit_price,
                id,
            ) {
                Err(e) => Some(Err(e)),
                Ok((price, unit_price)) => Some(
                    Ok(
                        CardView {
                            id,
                            title: raw.title->0,
                            price,
                            unit_price,
                            rooms: a.rooms->0,
                            area: a.area->0,
                            main_area: a.main_area,
                            age: a.age,
                            floor: a.floor->0,
                            community: said(raw.community, COMMUNITY_PLACEHOLDER@),
                            address: raw.section + raw.address,
                            agent: said(raw.agent, ""@),
                        },
                    ),
                ),
            },
        }
    }
}

pub open spec fn card_result(r: Result<ScrapedCard, CardError>) -> Result<
    CardView,
    CardErrorView,
> {
    match r {
        Ok(c) => Ok(c@),
        Err(e) => Err(e@),
    }
}

pub open spec fn card_outcome(r: Option<Result<ScrapedCard, CardError>>) -> Option<
    Result<CardView, CardErrorView>,
> {
    match r {
        Some(v) => Some(card_result(v)),
        None => None,
    }
}

fn try_card(raw: &RawCardJs, numbers: &CardNumbers) -> (r: Option<Result<ScrapedCard, CardError>>)
    requires
        numbers.attrs.len() == raw.attrs.len(),
    ensures
        card_outcome(r) == parsed_card(raw@, numbers@),
{
    let id = match &raw.id {
        Some(id) => id.clone(),
        None => {
            return Some(Err(CardError::MissingId));
        },
    };
    let title = match &raw.title {
        Some(title) => title.clone(),
        None => {
            return Some(Err(CardError::MissingTitle { id }));
        },
    };
    let a = match parse_attrs(&raw.attrs, &numbers.attrs, &id) {
        Some(Ok(a)) => a,
        Some(Err(e)) => {
            return Some(Err(e));
        },
        None => {
            return None;
        },
    };
    let (price, unit_price) = match parse_price(
        &raw.price_value,
        &raw.price_section_text,
        numbers.unit_price,
        &id,
    ) {
        Ok(v) => v,
        Err(e) => {
            return Some(Err(e));
        },
    };
    match (a.rooms, a.area, a.floor) {
        (Some(rooms), Some(area), Some(floor)) => {
            let mut address = raw.section.clone();
            address.append(raw.address.as_str());
            proof {
                reveal_strlit("");
            }
            Some(
                Ok(
                    ScrapedCard {
                        id,
                        title,
                        price,
                        unit_price,
                        rooms,
                        area,
                        main_area: a.main_area,
                        age: a.age,
                        floor,
                        community: what_is_said(&raw.community, COMMUNITY_PLACEHOLDER),
                        address,
                        agent: what_is_said(&raw.agent, ""),
                    },
                ),
            )
        },
        _ => None,
    }
}

/// Whether the card's ages can be held, as far as they are looked at.
pub fn is_readable(raw: &RawCardJs, numbers: &CardNumbers) -> (r: bool)
    requires
        numbers.attrs.len() == raw.attrs.len(),
    ensures
        r == parsed_card(raw@, numbers@) is Some,
{
    try_card(raw, numbers).is_some()
}

/// Reads a card.
pub fn parse_card(raw: RawCardJs, numbers: &CardNumbers) -> (r: Result<ScrapedCard, CardError>)
    requires
        numbers.attrs.len() == raw.attrs.len(),
        parsed_card(raw@, numbers@) is Some,
    ensures
        Some(card_result(r)) == parsed_card(raw@, numbers@),
{
    match try_card(&raw, numbers) {
        Some(r) => r,
        None => vstd::pervasive::unreached(),
    }
}

// ---------------------------------------------------------------------------
// Pages
// ---------------------------------------------------------------------------

/// What the first `n` cards of a page say. Cards without an id are passed
/// over, and the first that cannot be read ends it.
pub open spec fn cards_upto(raws: Seq<RawCardView>, numbers: Seq<NumbersView>, n: int) -> Option<
    Result<Seq<CardView>, CardErrorView>,
>
    decreases n,
{
    if n <= 0 {
        Some(Ok(seq![]))
    } else {
        match cards_upto(raws, numbers, n - 1) {
            Some(Ok(cards)) => if raws[n - 1].id is None {
                Some(Ok(cards))
            } else {
                match parsed_card(raws[n - 1], numbers[n - 1]) {
                    Some(Ok(c)) => Some(Ok(cards.push(c))),
                    Some(Err(e)) => Some(Err(e)),
                    None => None,
                }
            },
            other => other,
        }
    }
}

pub open spec fn parsed_page(raws: Seq<RawCardView>, numbers: Seq<NumbersView>) -> Option<
    Result<Seq<CardView>, CardErrorView>,
> {
    cards_upto(raws, numbers, raws.len() as int)
}

pub open spec fn page_result(r: Result<Vec<ScrapedCard>, CardError>) -> Result<
    Seq<CardView>,
    CardErrorView,
> {
    match r {
        Ok(cards) => Ok(cards.deep_view()),
        Err(e) => Err(e@),
    }
}

pub open spec fn page_outcome(r: Option<Result<Vec<ScrapedCard>, CardError>>) -> Option<
    Result<Seq<CardView>, CardErrorView>,
> {
    match r {
        Some(v) => Some(page_result(v)),
        None => None,
    }
}

/// One place for each attribute of each card.
pub open spec fn numbers_fit(raws: Seq<RawCardView>, numbers: Seq<NumbersView>) -> bool {
    &&& numbers.len() == raws.len()
    &&& forall|i: int|
        0 <= i < raws.len() ==> (#[trigger] numbers[i]).attrs.len() == raws[i].attrs.len()
}

/// What stopped the reading stays.
pub(crate) proof fn lemma_cards_end(raws: Seq<RawCardView>, numbers: Seq<NumbersView>, m: int, n: int)
    requires
        0 <= m <= n,
        !(cards_upto(raws, numbers, m) matches Some(Ok(_))),
    ensures
        cards_upto(raws, numbers, n) == cards_upto(raws, numbers, m),
    decreases n,
{
    if m < n {
        lemma_cards_end(raws, numbers, m, n - 1);
    }
}

fn try_page(raws: &Vec<RawCardJs>, numbers: &Vec<CardNumbers>) -> (r: Option<
    Result<Vec<ScrapedCard>, CardError>,
>)
    requires
        numbers_fit(raws.deep_view(), numbers.deep_view()),
    ensures
        page_outcome(r) == parsed_page(raws.deep_view(), numbers.deep_view()),
{
    let mut cards: Vec<ScrapedCard> = Vec::new();
    let ghost texts = raws.deep_view();
    let ghost read = numbers.deep_view();
    assert(cards.deep_view() =~= Seq::<CardView>::empty());
    for i in 0..raws.len()
        invariant
            texts == raws.deep_view(),
            read == numbers.deep_view(),
            numbers_fit(texts, read),
            cards_upto(texts, read, i as int) == Some(
                Ok::<Seq<CardView>, CardErrorView>(cards.deep_view()),
            ),
    {
        let raw = &raws[i];
        proof {
            assert(texts[i as int] == raw@);
            assert(read[i as int] == numbers[i as int]@);
        }
        if raw.id.is_some() {
            let ghost before = cards.deep_view();
            match try_card(raw, &numbers[i]) {
                Some(Ok(card)) => {
                    let ghost c = card@;
                    cards.push(card);
                    assert(cards.deep_view() =~= before.push(c));
                },
                Some(Err(e)) => {
                    proof {
                        lemma_cards_end(texts, read, i + 1, texts.len() as int);
                    }
                    return Some(Err(e));
                },
                None => {
                    proof {
                        lemma_cards_end(texts, read, i + 1, texts.len() as int);
                    }
                    return None;
                },
            }
        }
    }
    Some(Ok(cards))
}

/// Whether the page's ages can be held, as far as they are looked at.
pub fn is_page_readable(raws: &Vec<RawCardJs>, numbers: &Vec<CardNumbers>) -> (r: bool)
    requires
        numbers_fit(raws.deep_view(), numbers.deep_view()),
    ensures
        r == parsed_page(raws.deep_view(), numbers.deep_view()) is Some,
{
    try_page(raws, numbers).is_some()
}

/// Reads the cards of a page.
pub fn parse_page(raws: Vec<RawCardJs>, numbers: &Vec<CardNumbers>) -> (r: Result<
    Vec<ScrapedCard>,
    CardError,
>)
    requires
        numbers_fit(raws.deep_view(), numbers.deep_view()),
        parsed_page(raws.deep_view(), numbers.deep_view()) is Some,
    ensures
        Some(page_result(r)) == parsed_page(raws.deep_view(), numbers.deep_view()),
{
    match try_page(&raws, numbers) {
        Some(r) => r,
        None => vstd::pervasive::unreached(),
    }
}

pub open spec fn without_id() -> spec_fn(RawCardView) -> bool {
    |raw: RawCardView| raw.id is None
}

/// How many cards have no id.
pub fn count_without_id(raws: &Vec<RawCardJs>) -> (r: usize)
    ensures
        r == raws.deep_view().filter(without_id()).len(),
{
    let mut r: usize = 0;
    let ghost all = raws.deep_view();
    proof {
        reveal(Seq::filter);
        assert(all.take(0).filter(without_id()).len() == 0);
    }
    for i in 0..raws.len()
        invariant
            all == raws.deep_view(),
            r == all.take(i as int).filter(without_id()).len(),
            r <= i,
    {
        proof {
            reveal(Seq::filter);
            assert(all.take(i + 1).drop_last() =~= all.take(i as int));
            assert(all.take(i + 1).last() == raws[i as int]@);
        }
        if raws[i].id.is_none() {
            r = r + 1;
        }
    }
    assert(all.take(all.len() as int) =~= all);
    r
}

/// How often a page is read again that has a card without an id.
pub const MOST_RETRIES: u32 = 2;

/// Whether a page is to be read again: it has a card without an id, and has
/// not been read again twice.
pub fn needs_retry(retries: u32, raws: &Vec<RawCardJs>) -> (r: bool)
    ensures
        r <==> retries < MOST_RETRIES && exists|i: int|
            0 <= i < raws.len() && (#[trigger] raws.deep_view()[i]).id is None,
        r ==> retries < 2,
        retries < 2 && (exists|i: int|
            0 <= i < raws.len() && (#[trigger] raws.deep_view()[i]).id is None) ==> r,
{
    if retries >= MOST_RETRIES {
        return false;
    }
    for i in 0..raws.len()
        invariant
            retries < MOST_RETRIES,
            forall|j: int| 0 <= j < i ==> (#[trigger] raws.deep_view()[j]).id is Some,
    {
        if raws[i].id.is_none() {
            assert(raws.deep_view()[i as int].id is None);
            return true;
        }
    }
    false
}

} // verus!

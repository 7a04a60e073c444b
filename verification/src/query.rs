//! The parameters of a search address, and what they stand for.

use crate::text;
use crate::text::{same_text, split, split_once};
use vstd::prelude::*;

verus! {

/// What stands behind the first question mark, or the whole address where
/// there is none.
pub open spec fn query_of(url: Seq<char>) -> Seq<char> {
    match text::cut(url, '?') {
        Some((_, query)) => query,
        None => url,
    }
}

/// The value of the last pair with the name. What has no equals sign is no
/// pair.
pub open spec fn last_value(pairs: Seq<Seq<char>>, name: Seq<char>) -> Option<Seq<char>>
    decreases pairs.len(),
{
    if pairs.len() == 0 {
        None
    } else {
        match text::cut(pairs.last(), '=') {
            Some((key, value)) => if key == name {
                Some(value)
            } else {
                last_value(pairs.drop_last(), name)
            },
            None => last_value(pairs.drop_last(), name),
        }
    }
}

/// The value of a parameter.
pub open spec fn param(url: Seq<char>, name: Seq<char>) -> Option<Seq<char>> {
    last_value(text::pieces(query_of(url), '&'), name)
}

/// The value of a parameter.
pub fn find_param<'a>(url: &'a str, name: &str) -> (r: Option<&'a str>)
    ensures
        r.deep_view() == param(url@, name@),
{
    let query = match split_once(url, '?') {
        Some((_, q)) => q,
        None => url,
    };
    let pairs = split(query, '&');
    let ghost all = text::pieces(query_of(url@), '&');
    let mut n = pairs.len();
    assert(all.take(all.len() as int) =~= all);
    while n > 0
        invariant
            n <= pairs.len(),
            all == text::pieces(query_of(url@), '&'),
            text::views(pairs@) == all,
            last_value(all.take(n as int), name@) == param(url@, name@),
        decreases n,
    {
        n = n - 1;
        proof {
            assert(all.take(n + 1).drop_last() =~= all.take(n as int));
            assert(all.take(n + 1).last() == pairs[n as int]@);
        }
        match split_once(pairs[n], '=') {
            Some((key, value)) => {
                if same_text(key, name) {
                    return Some(value);
                }
            },
            None => {},
        }
    }
    None
}

/// The district that a section stands for.
pub open spec fn district_of(section: Seq<char>) -> Option<Seq<char>> {
    if section == "3"@ {
        Some("中山區"@)
    } else if section == "4"@ {
        Some("松山區"@)
    } else {
        None
    }
}

/// The type of building that a shape stands for.
pub open spec fn building_type_of(shape: Seq<char>) -> Option<Seq<char>> {
    if shape == "5"@ {
        Some("華廈"@)
    } else if shape == "2"@ {
        Some("電梯大樓"@)
    } else {
        None
    }
}

/// The district that a section stands for.
pub fn district_name(section: &str) -> (r: Option<String>)
    ensures
        r.deep_view() == district_of(section@),
{
    if same_text(section, "3") {
        Some("中山區".to_owned())
    } else if same_text(section, "4") {
        Some("松山區".to_owned())
    } else {
        None
    }
}

/// The type of building that a shape stands for.
pub fn building_type_name(shape: &str) -> (r: Option<String>)
    ensures
        r.deep_view() == building_type_of(shape@),
{
    if same_text(shape, "5") {
        Some("華廈".to_owned())
    } else if same_text(shape, "2") {
        Some("電梯大樓".to_owned())
    } else {
        None
    }
}

// ---------------------------------------------------------------------------
// Laws
// ---------------------------------------------------------------------------

proof fn lemma_one_more_piece(s: Seq<char>, c: char, t: Seq<char>)
    requires
        !t.contains(c),
    ensures
        text::pieces(s + seq![c] + t, c) == text::pieces(s, c).push(t),
    decreases s.len(),
{
    text::lemma_before(s, c);
    let n = text::before(s, c) as int;
    let whole = s + seq![c] + t;
    if n < s.len() {
        let a = s.take(n);
        let b = s.skip(n + 1);
        let rest = b + seq![c] + t;
        assert(whole =~= a + seq![c] + rest);
        text::law_cutting(a, c, rest);
        lemma_one_more_piece(b, c, t);
        assert(seq![a] + text::pieces(b, c).push(t) =~= (seq![a] + text::pieces(b, c)).push(t));
    } else {
        text::law_cutting(s, c, t);
        assert forall|i: int| 0 <= i < t.len() implies #[trigger] t[i] != c by {
            assert(t.contains(t[i]));
        }
        text::law_cutting(t, c, t);
        assert(seq![s] + seq![t] =~= seq![s].push(t));
    }
}

proof fn lemma_query_goes_on(front: Seq<char>, t: Seq<char>)
    requires
        front.contains('?'),
    ensures
        query_of(front + seq!['&'] + t) == query_of(front) + seq!['&'] + t,
{
    text::lemma_before(front, '?');
    let n = text::before(front, '?') as int;
    let a = front.take(n);
    let b = front.skip(n + 1);
    assert(front =~= a + seq!['?'] + b);
    assert(front + seq!['&'] + t =~= a + seq!['?'] + (b + seq!['&'] + t));
    text::law_cutting(a, '?', b);
    text::law_cutting(a, '?', b + seq!['&'] + t);
}

proof fn lemma_pair_is_cut(name: Seq<char>, value: Seq<char>)
    requires
        !name.contains('='),
    ensures
        text::cut(name + seq!['='] + value, '=') == Some((name, value)),
{
    assert forall|i: int| 0 <= i < name.len() implies #[trigger] name[i] != '=' by {
        assert(name.contains(name[i]));
    }
    text::law_cutting(name, '=', value);
}

/// The pair at the end of an address counts for its name, whatever stands in
/// front of it, and for no other name. What has no equals sign counts for none.
pub proof fn law_last_pair_counts(
    front: Seq<char>,
    name: Seq<char>,
    value: Seq<char>,
    other: Seq<char>,
)
    requires
        front.contains('?'),
        !name.contains('=') && !name.contains('&'),
        !value.contains('&'),
    ensures
        param(front + seq!['&'] + name + seq!['='] + value, name) == Some(value),
        other != name ==> param(front + seq!['&'] + name + seq!['='] + value, other) == param(
            front,
            other,
        ),
        param(front + seq!['&'] + name, other) == param(front, other),
{
    let t = name + seq!['='] + value;
    let all = front + seq!['&'] + name + seq!['='] + value;
    assert(all =~= front + seq!['&'] + t);
    assert(!t.contains('&')) by {
        if t.contains('&') {
            let i = t.index_of('&');
            if i < name.len() {
                assert(name[i] == '&');
            } else if i > name.len() {
                assert(value[i - name.len() - 1] == '&');
            }
        }
    }
    lemma_query_goes_on(front, t);
    lemma_query_goes_on(front, name);
    let q = query_of(front);
    lemma_one_more_piece(q, '&', t);
    lemma_one_more_piece(q, '&', name);
    lemma_pair_is_cut(name, value);
    let ps = text::pieces(q, '&');
    assert(ps.push(t).drop_last() =~= ps);
    assert(ps.push(name).drop_last() =~= ps);
    assert forall|i: int| 0 <= i < name.len() implies #[trigger] name[i] != '=' by {
        assert(name.contains(name[i]));
    }
    text::law_cutting(name, '=', value);
}

/// The first pair of an address stands behind its first question mark. An
/// address without one is all pairs.
pub proof fn law_pairs_start_behind_the_question_mark(
    front: Seq<char>,
    name: Seq<char>,
    value: Seq<char>,
    other: Seq<char>,
)
    requires
        !front.contains('?'),
        !name.contains('=') && !name.contains('&') && !name.contains('?'),
        !value.contains('&') && !value.contains('?'),
    ensures
        param(front + seq!['?'] + name + seq!['='] + value, name) == Some(value),
        other != name ==> param(front + seq!['?'] + name + seq!['='] + value, other) is None,
        param(name + seq!['='] + value, name) == Some(value),
        other != name ==> param(name + seq!['='] + value, other) is None,
{
    let t = name + seq!['='] + value;
    assert(front + seq!['?'] + name + seq!['='] + value =~= front + seq!['?'] + t);
    assert forall|i: int| 0 <= i < front.len() implies #[trigger] front[i] != '?' by {
        assert(front.contains(front[i]));
    }
    text::law_cutting(front, '?', t);
    assert forall|i: int| 0 <= i < t.len() implies #[trigger] t[i] != '&' && t[i] != '?' by {
        if i < name.len() {
            assert(name.contains(name[i]));
            assert(t[i] == name[i]);
        } else if i > name.len() {
            assert(value.contains(value[i - name.len() - 1]));
            assert(t[i] == value[i - name.len() - 1]);
        }
    }
    text::law_cutting(t, '&', t);
    text::law_cutting(t, '?', t);
    lemma_pair_is_cut(name, value);
    let one = seq![t];
    assert(one.last() == t);
    assert(last_value(one.drop_last(), other) is None);
}

/// Two sections have a district and two shapes a type of building. Nothing is
/// known of the others.
pub proof fn law_known_sections_and_shapes(s: Seq<char>)
    ensures
        district_of(s) == (if s.len() == 1 && s[0] == '3' {
            Some(seq!['中', '山', '區'])
        } else if s.len() == 1 && s[0] == '4' {
            Some(seq!['松', '山', '區'])
        } else {
            None
        }),
        building_type_of(s) == (if s.len() == 1 && s[0] == '5' {
            Some(seq!['華', '廈'])
        } else if s.len() == 1 && s[0] == '2' {
            Some(seq!['電', '梯', '大', '樓'])
        } else {
            None
        }),
{
    reveal_strlit("2");
    reveal_strlit("3");
    reveal_strlit("4");
    reveal_strlit("5");
    reveal_strlit("中山區");
    reveal_strlit("松山區");
    reveal_strlit("華廈");
    reveal_strlit("電梯大樓");
    assert("2"@ =~= seq!['2']);
    assert("3"@ =~= seq!['3']);
    assert("4"@ =~= seq!['4']);
    assert("5"@ =~= seq!['5']);
    if s.len() == 1 {
        assert(s =~= seq![s[0]]);
    }
    assert("中山區"@ =~= seq!['中', '山', '區']);
    assert("松山區"@ =~= seq!['松', '山', '區']);
    assert("華廈"@ =~= seq!['華', '廈']);
    assert("電梯大樓"@ =~= seq!['電', '梯', '大', '樓']);
}

} // verus!

//! Reading and building text, character by character.

use vstd::prelude::*;

verus! {

broadcast use vstd::string::group_string_axioms;

/// The characters with the Unicode property `White_Space`.
pub open spec fn is_space(c: char) -> bool {
    ||| 0x09 <= c as u32 <= 0x0d
    ||| c as u32 == 0x20
    ||| c as u32 == 0x85
    ||| c as u32 == 0xa0
    ||| c as u32 == 0x1680
    ||| 0x2000 <= c as u32 <= 0x200a
    ||| c as u32 == 0x2028
    ||| c as u32 == 0x2029
    ||| c as u32 == 0x202f
    ||| c as u32 == 0x205f
    ||| c as u32 == 0x3000
}

/// Whether the character is white space.
pub fn is_whitespace(c: char) -> (r: bool)
    ensures
        r == is_space(c),
{
    let n: u32 = c as u32;
    (0x09 <= n && n <= 0x0d) || n == 0x20 || n == 0x85 || n == 0xa0 || n == 0x1680 || (0x2000 <= n
        && n <= 0x200a) || n == 0x2028 || n == 0x2029 || n == 0x202f || n == 0x205f || n == 0x3000
}

/// The characters of a text.
pub fn chars_of(s: &str) -> (r: Vec<char>)
    ensures
        r@ == s@,
{
    let mut r: Vec<char> = Vec::new();
    for c in it: s.chars()
        invariant
            r@ == s@.take(it.index()),
            it.seq() == s@,
    {
        r.push(c);
        proof {
            assert(s@.take(it.index() + 1) =~= s@.take(it.index()).push(s@[it.index()]));
        }
    }
    assert(s@.take(s@.len() as int) =~= s@);
    r
}

/// Whether two texts are equal.
pub fn same_text(a: &str, b: &str) -> (r: bool)
    ensures
        r == (a@ == b@),
{
    let x = a.to_owned();
    let y = b.to_owned();
    x == y
}

/// A copy of a text, where there is one.
pub fn copy_text(s: &Option<String>) -> (r: Option<String>)
    ensures
        r == *s,
{
    match s {
        Some(t) => Some(t.clone()),
        None => None,
    }
}

/// A copy of each text.
pub fn copy_texts(texts: &Vec<String>) -> (r: Vec<String>)
    ensures
        r.deep_view() == texts.deep_view(),
{
    let mut r: Vec<String> = Vec::new();
    for i in 0..texts.len()
        invariant
            r.deep_view() == texts.deep_view().take(i as int),
    {
        let ghost before = r.deep_view();
        r.push(texts[i].clone());
        proof {
            assert(r.deep_view() =~= before.push(texts[i as int]@));
            assert(r.deep_view() =~= texts.deep_view().take(i + 1));
        }
    }
    assert(r.deep_view() =~= texts.deep_view());
    r
}

// ---------------------------------------------------------------------------
// Trimming
// ---------------------------------------------------------------------------

pub open spec fn trim_start_spec(s: Seq<char>) -> Seq<char>
    decreases s.len(),
{
    if s.len() > 0 && is_space(s[0]) {
        trim_start_spec(s.skip(1))
    } else {
        s
    }
}

pub open spec fn trim_end_spec(s: Seq<char>) -> Seq<char>
    decreases s.len(),
{
    if s.len() > 0 && is_space(s.last()) {
        trim_end_spec(s.drop_last())
    } else {
        s
    }
}

/// The text without the white space in front and behind.
pub open spec fn trimmed(s: Seq<char>) -> Seq<char> {
    trim_end_spec(trim_start_spec(s))
}

/// The first place at or after `from` that holds no white space.
fn skip_spaces(chars: &Vec<char>, from: usize) -> (r: usize)
    requires
        from <= chars.len(),
    ensures
        from <= r <= chars.len(),
        trim_start_spec(chars@.skip(from as int)) == chars@.skip(r as int),
        r < chars.len() ==> !is_space(chars@[r as int]),
{
    let mut i: usize = from;
    while i < chars.len() && is_whitespace(chars[i])
        invariant
            from <= i <= chars.len(),
            trim_start_spec(chars@.skip(from as int)) == trim_start_spec(chars@.skip(i as int)),
        decreases chars.len() - i,
    {
        proof {
            assert(chars@.skip(i as int).skip(1) =~= chars@.skip(i + 1));
            assert(chars@.skip(i as int)[0] == chars@[i as int]);
        }
        i = i + 1;
    }
    proof {
        if i < chars.len() {
            assert(chars@.skip(i as int)[0] == chars@[i as int]);
        }
    }
    i
}

/// The text without white space at either end.
pub fn trim<'a>(s: &'a str) -> (r: &'a str)
    ensures
        r@ == trimmed(s@),
{
    let chars = chars_of(s);
    let start = skip_spaces(&chars, 0);
    proof {
        assert(chars@.skip(0) =~= chars@);
    }
    let mut end: usize = chars.len();
    proof {
        assert(chars@.subrange(start as int, end as int) =~= chars@.skip(start as int));
    }
    while end > start && is_whitespace(chars[end - 1])
        invariant
            start <= end <= chars.len(),
            trimmed(s@) == trim_end_spec(chars@.subrange(start as int, end as int)),
        decreases end,
    {
        proof {
            let t = chars@.subrange(start as int, end as int);
            assert(t.last() == chars@[end - 1]);
            assert(t.drop_last() =~= chars@.subrange(start as int, end - 1));
        }
        end = end - 1;
    }
    proof {
        let t = chars@.subrange(start as int, end as int);
        if end > start {
            assert(t.last() == chars@[end - 1]);
        }
    }
    s.substring_char(start, end)
}

/// The text without the occurrences of `c` at its end.
pub open spec fn without_trailing(s: Seq<char>, c: char) -> Seq<char>
    decreases s.len(),
{
    if s.len() > 0 && s.last() == c {
        without_trailing(s.drop_last(), c)
    } else {
        s
    }
}

/// The text without any `c` at its end.
pub fn trim_end_char<'a>(s: &'a str, c: char) -> (r: &'a str)
    ensures
        r@ == without_trailing(s@, c),
{
    let chars = chars_of(s);
    let mut end: usize = chars.len();
    proof {
        assert(chars@.take(end as int) =~= chars@);
    }
    while end > 0 && chars[end - 1] == c
        invariant
            end <= chars.len(),
            without_trailing(s@, c) == without_trailing(chars@.take(end as int), c),
        decreases end,
    {
        proof {
            let t = chars@.take(end as int);
            assert(t.last() == chars@[end - 1]);
            assert(t.drop_last() =~= chars@.take(end - 1));
        }
        end = end - 1;
    }
    proof {
        if end > 0 {
            assert(chars@.take(end as int).last() == chars@[end - 1]);
        }
    }
    s.substring_char(0, end)
}

// ---------------------------------------------------------------------------
// Prefixes, suffixes, searching
// ---------------------------------------------------------------------------
pub open spec fn has_prefix(s: Seq<char>, prefix: Seq<char>) -> bool {
    prefix.len() <= s.len() && s.take(prefix.len() as int) == prefix
}

pub open spec fn has_suffix(s: Seq<char>, suffix: Seq<char>) -> bool {
    suffix.len() <= s.len() && s.skip(s.len() - suffix.len()) == suffix
}

/// What follows the prefix, where the text has it.
pub fn strip_prefix<'a>(s: &'a str, prefix: &str) -> (r: Option<&'a str>)
    ensures
        r is Some <==> has_prefix(s@, prefix@),
        r matches Some(rest) ==> rest@ == s@.skip(prefix@.len() as int),
{
    let n = s.unicode_len();
    let k = prefix.unicode_len();
    if k > n || !same_text(s.substring_char(0, k), prefix) {
        return None;
    }
    let rest = s.substring_char(k, n);
    assert(rest@ =~= s@.skip(k as int));
    Some(rest)
}

/// What comes before the suffix, where the text has it.
pub fn strip_suffix<'a>(s: &'a str, suffix: &str) -> (r: Option<&'a str>)
    ensures
        r is Some <==> has_suffix(s@, suffix@),
        r matches Some(rest) ==> rest@ == s@.take(s@.len() - suffix@.len()),
{
    let n = s.unicode_len();
    let k = suffix.unicode_len();
    if k > n {
        return None;
    }
    let tail = s.substring_char(n - k, n);
    assert(tail@ =~= s@.skip(n - k));
    if !same_text(tail, suffix) {
        return None;
    }
    Some(s.substring_char(0, n - k))
}

/// Whether the text has the prefix.
pub fn starts_with(s: &str, prefix: &str) -> (r: bool)
    ensures
        r == has_prefix(s@, prefix@),
{
    strip_prefix(s, prefix).is_some()
}

/// How many characters stand in front of the first `c`; all of them, where
/// there is none.
pub open spec fn before(s: Seq<char>, c: char) -> nat
    decreases s.len(),
{
    if s.len() == 0 || s[0] == c {
        0
    } else {
        1 + before(s.skip(1), c)
    }
}

pub proof fn lemma_before(s: Seq<char>, c: char)
    ensures
        before(s, c) <= s.len(),
        before(s, c) < s.len() ==> s[before(s, c) as int] == c,
        forall|i: int| 0 <= i < before(s, c) ==> s[i] != c,
        before(s, c) < s.len() <==> s.contains(c),
    decreases s.len(),
{
    if s.len() == 0 {
    } else if s[0] == c {
        assert(s.contains(c));
    } else {
        let t = s.skip(1);
        lemma_before(t, c);
        assert forall|i: int| 0 <= i < before(s, c) implies s[i] != c by {
            if i > 0 {
                assert(s[i] == t[i - 1]);
            }
        }
        if before(s, c) < s.len() {
            assert(s[before(s, c) as int] == t[before(t, c) as int]);
        }
        if s.contains(c) {
            let k = choose|k: int| 0 <= k < s.len() && s[k] == c;
            assert(t[k - 1] == c);
        }
    }
}

/// The first place at or after `from` that holds `c`, or the end.
fn find_char(chars: &Vec<char>, from: usize, c: char) -> (r: usize)
    requires
        from <= chars.len(),
    ensures
        r == from + before(chars@.skip(from as int), c),
        from <= r <= chars.len(),
        r < chars.len() ==> chars@[r as int] == c,
{
    let mut i: usize = from;
    while i < chars.len() && chars[i] != c
        invariant
            from <= i <= chars.len(),
            before(chars@.skip(from as int), c) == i - from + before(chars@.skip(i as int), c),
        decreases chars.len() - i,
    {
        proof {
            assert(chars@.skip(i as int).skip(1) =~= chars@.skip(i + 1));
            assert(chars@.skip(i as int)[0] == chars@[i as int]);
        }
        i = i + 1;
    }
    proof {
        if i < chars.len() {
            assert(chars@.skip(i as int)[0] == chars@[i as int]);
        }
    }
    i
}

/// Whether the character occurs.
pub fn contains_char(s: &str, c: char) -> (r: bool)
    ensures
        r == s@.contains(c),
{
    let chars = chars_of(s);
    let i = find_char(&chars, 0, c);
    proof {
        assert(chars@.skip(0) =~= chars@);
        lemma_before(chars@, c);
    }
    i < chars.len()
}

// ---------------------------------------------------------------------------
// Splitting
// ---------------------------------------------------------------------------
/// The parts in front of and behind the first `c`.
pub open spec fn cut(s: Seq<char>, c: char) -> Option<(Seq<char>, Seq<char>)> {
    let n = before(s, c) as int;
    if n < s.len() {
        Some((s.take(n), s.skip(n + 1)))
    } else {
        None
    }
}

/// What stands before and behind the first `c`, where there is one.
pub fn split_once<'a>(s: &'a str, c: char) -> (r: Option<(&'a str, &'a str)>)
    ensures
        r is Some <==> cut(s@, c) is Some,
        r matches Some(parts) ==> cut(s@, c) == Some((parts.0@, parts.1@)),
{
    let chars = chars_of(s);
    let n = chars.len();
    let i = find_char(&chars, 0, c);
    proof {
        assert(chars@.skip(0) =~= chars@);
    }
    if i < n {
        let head = s.substring_char(0, i);
        let tail = s.substring_char(i + 1, n);
        assert(tail@ =~= s@.skip(i + 1));
        Some((head, tail))
    } else {
        None
    }
}

/// The pieces between the occurrences of `c`.
pub open spec fn pieces(s: Seq<char>, c: char) -> Seq<Seq<char>>
    decreases s.len(),
{
    let n = before(s, c) as int;
    if n < s.len() {
        seq![s.take(n)] + pieces(s.skip(n + 1), c)
    } else {
        seq![s]
    }
}

pub open spec fn views(v: Seq<&str>) -> Seq<Seq<char>> {
    v.map_values(|x: &str| x@)
}

/// The pieces between the occurrences of `c`.
pub fn split<'a>(s: &'a str, c: char) -> (r: Vec<&'a str>)
    ensures
        views(r@) == pieces(s@, c),
{
    let chars = chars_of(s);
    let n = chars.len();
    let mut r: Vec<&'a str> = Vec::new();
    let mut from: usize = 0;
    proof {
        assert(chars@.skip(0) =~= chars@);
        assert(views(r@) + pieces(s@, c) =~= pieces(s@, c));
    }
    loop
        invariant
            from <= n,
            n == chars.len(),
            chars@ == s@,
            views(r@) + pieces(s@.skip(from as int), c) == pieces(s@, c),
        decreases n - from,
    {
        let i = find_char(&chars, from, c);
        let piece = s.substring_char(from, i);
        let ghost rest = s@.skip(from as int);
        let ghost k = before(rest, c) as int;
        let ghost done = views(r@);
        r.push(piece);
        proof {
            assert(piece@ =~= rest.take(k));
            assert(views(r@) =~= done.push(piece@));
        }
        if i < n {
            proof {
                assert(rest.skip(k + 1) =~= s@.skip(i + 1));
                assert(pieces(rest, c) == seq![rest.take(k)] + pieces(s@.skip(i + 1), c));
                assert(views(r@) + pieces(s@.skip(i + 1), c) =~= done + pieces(rest, c));
            }
            from = i + 1;
        } else {
            proof {
                assert(rest.take(k) =~= rest);
                assert(pieces(rest, c) =~= seq![rest]);
                assert(views(r@) =~= done + pieces(rest, c));
            }
            return r;
        }
    }
}

/// How many characters stand in front of the first white space.
pub open spec fn word_length(s: Seq<char>) -> nat
    decreases s.len(),
{
    if s.len() == 0 || is_space(s[0]) {
        0
    } else {
        1 + word_length(s.skip(1))
    }
}

pub proof fn lemma_word_length(s: Seq<char>)
    ensures
        word_length(s) <= s.len(),
    decreases s.len(),
{
    if s.len() > 0 && !is_space(s[0]) {
        lemma_word_length(s.skip(1));
    }
}

pub proof fn lemma_trim_start_len(s: Seq<char>)
    ensures
        trim_start_spec(s).len() <= s.len(),
        trim_start_spec(s).len() > 0 ==> !is_space(trim_start_spec(s)[0]),
    decreases s.len(),
{
    if s.len() > 0 && is_space(s[0]) {
        lemma_trim_start_len(s.skip(1));
    }
}

/// The runs of characters between white space.
pub open spec fn words(s: Seq<char>) -> Seq<Seq<char>>
    decreases s.len(),
{
    let t = trim_start_spec(s);
    if t.len() == 0 {
        seq![]
    } else {
        proof {
            lemma_trim_start_len(s);
            lemma_word_length(t);
        }
        seq![t.take(word_length(t) as int)] + words(t.skip(word_length(t) as int))
    }
}

fn word_end(chars: &Vec<char>, from: usize) -> (r: usize)
    requires
        from <= chars.len(),
    ensures
        r == from + word_length(chars@.skip(from as int)),
        from <= r <= chars.len(),
{
    let mut i: usize = from;
    while i < chars.len() && !is_whitespace(chars[i])
        invariant
            from <= i <= chars.len(),
            word_length(chars@.skip(from as int)) == i - from + word_length(chars@.skip(i as int)),
        decreases chars.len() - i,
    {
        proof {
            assert(chars@.skip(i as int).skip(1) =~= chars@.skip(i + 1));
            assert(chars@.skip(i as int)[0] == chars@[i as int]);
        }
        i = i + 1;
    }
    proof {
        if i < chars.len() {
            assert(chars@.skip(i as int)[0] == chars@[i as int]);
        }
    }
    i
}

/// The words of a text.
pub fn split_whitespace<'a>(s: &'a str) -> (r: Vec<&'a str>)
    ensures
        views(r@) == words(s@),
{
    let chars = chars_of(s);
    let n = chars.len();
    let mut r: Vec<&'a str> = Vec::new();
    let mut from: usize = 0;
    proof {
        assert(chars@.skip(0) =~= chars@);
        assert(views(r@) + words(s@) =~= words(s@));
    }
    loop
        invariant
            from <= n,
            n == chars.len(),
            chars@ == s@,
            views(r@) + words(s@.skip(from as int)) == words(s@),
        decreases n - from,
    {
        let start = skip_spaces(&chars, from);
        let ghost rest = s@.skip(from as int);
        let ghost t = trim_start_spec(rest);
        let ghost done = views(r@);
        proof {
            lemma_trim_start_len(rest);
        }
        if start == n {
            proof {
                assert(t.len() == 0);
                assert(done + words(rest) =~= done);
            }
            return r;
        }
        let end = word_end(&chars, start);
        let word = s.substring_char(start, end);
        let ghost k = word_length(t) as int;
        r.push(word);
        proof {
            assert(word@ =~= t.take(k));
            assert(t.skip(k) =~= s@.skip(end as int));
            assert(words(rest) == seq![t.take(k)] + words(s@.skip(end as int)));
            assert(views(r@) =~= done.push(word@));
            assert(views(r@) + words(s@.skip(end as int)) =~= done + words(rest));
        }
        from = end;
    }
}

// ---------------------------------------------------------------------------
// Numbers
// ---------------------------------------------------------------------------
pub open spec fn is_digit(c: char) -> bool {
    '0' as u32 <= c as u32 <= '9' as u32
}

pub open spec fn all_digits(s: Seq<char>) -> bool {
    forall|i: int| 0 <= i < s.len() ==> is_digit(#[trigger] s[i])
}

/// The number that a run of decimal digits writes.
pub open spec fn digits_value(s: Seq<char>) -> int
    decreases s.len(),
{
    if s.len() == 0 {
        0
    } else {
        10 * digits_value(s.drop_last()) + (s.last() as u32 - '0' as u32)
    }
}

/// At least one digit and nothing else.
pub open spec fn is_number(s: Seq<char>) -> bool {
    s.len() > 0 && all_digits(s)
}

/// Whether the text is at least one digit and nothing else.
pub fn is_number_text(s: &str) -> (r: bool)
    ensures
        r == is_number(s@),
{
    let chars = chars_of(s);
    if chars.len() == 0 {
        return false;
    }
    for i in 0..chars.len()
        invariant
            chars@ == s@,
            forall|j: int| 0 <= j < i ==> is_digit(#[trigger] s@[j]),
    {
        let code: u32 = chars[i] as u32;
        if code < 48 || code > 57 {
            assert(!is_digit(s@[i as int]));
            return false;
        }
    }
    true
}

/// What an unsigned 64-bit integer is read from: digits, with a plus sign in
/// front or without, and a value in range.
pub open spec fn parsed_u64(s: Seq<char>) -> Option<u64> {
    let body = if s.len() > 0 && s[0] == '+' { s.skip(1) } else { s };
    if is_number(body) && digits_value(body) <= u64::MAX {
        Some(digits_value(body) as u64)
    } else {
        None
    }
}

/// What a signed 64-bit integer is read from: digits, with one sign in front
/// or without, and a value in range.
pub open spec fn parsed_i64(s: Seq<char>) -> Option<i64> {
    let signed = s.len() > 0 && (s[0] == '+' || s[0] == '-');
    let body = if signed { s.skip(1) } else { s };
    let value = if s.len() > 0 && s[0] == '-' { -digits_value(body) } else { digits_value(body) };
    if is_number(body) && i64::MIN <= value <= i64::MAX {
        Some(value as i64)
    } else {
        None
    }
}

pub proof fn lemma_digits_value_nonnegative(s: Seq<char>)
    requires
        all_digits(s),
    ensures
        digits_value(s) >= 0,
    decreases s.len(),
{
    if s.len() > 0 {
        assert(is_digit(s[s.len() - 1]));
        assert forall|i: int| 0 <= i < s.drop_last().len() implies is_digit(
            #[trigger] s.drop_last()[i],
        ) by {
            assert(is_digit(s[i]));
        }
        lemma_digits_value_nonnegative(s.drop_last());
    }
}

proof fn lemma_digits_value_prefix(s: Seq<char>, k: int)
    requires
        all_digits(s),
        0 <= k <= s.len(),
    ensures
        0 <= digits_value(s.take(k)) <= digits_value(s),
    decreases s.len() - k,
{
    assert(all_digits(s.take(k)));
    lemma_digits_value_nonnegative(s.take(k));
    if k == s.len() {
        assert(s.take(k) =~= s);
    } else {
        lemma_digits_value_prefix(s, k + 1);
        assert(s.take(k + 1).drop_last() =~= s.take(k));
        assert(is_digit(s[k]));
    }
}

/// The value of the digits from `from` on, or nothing where something else
/// stands there, nothing at all, or more than 128 bits hold.
fn digits_from(chars: &Vec<char>, from: usize) -> (r: Option<u128>)
    requires
        from <= chars.len(),
    ensures
        r matches Some(v) ==> is_number(chars@.skip(from as int)) && v == digits_value(
            chars@.skip(from as int),
        ),
        r is None ==> !is_number(chars@.skip(from as int)) || digits_value(chars@.skip(from as int))
            > u64::MAX,
{
    let ghost body = chars@.skip(from as int);
    let n = chars.len();
    if from == n {
        return None;
    }
    let mut value: u128 = 0;
    let mut i: usize = from;
    while i < n
        invariant
            from <= i <= n,
            n == chars.len(),
            body == chars@.skip(from as int),
            all_digits(body.take(i - from)),
            value == digits_value(body.take(i - from)),
            value <= u64::MAX,
        decreases n - i,
    {
        let c = chars[i];
        let code: u32 = c as u32;
        assert(body[i - from] == c);
        if code < 48 || code > 57 {
            assert(!is_digit(body[i - from]));
            return None;
        }
        let ghost k = i - from;
        proof {
            let t = body.take(k + 1);
            assert(t.drop_last() =~= body.take(k));
            assert(t.last() == c);
            assert forall|j: int| 0 <= j < t.len() implies is_digit(#[trigger] t[j]) by {
                if j < k {
                    assert(is_digit(body.take(k)[j]));
                }
            }
        }
        value = value * 10 + ((code - 48) as u128);
        i = i + 1;
        if value > u64::MAX as u128 {
            proof {
                if is_number(body) {
                    lemma_digits_value_prefix(body, k + 1);
                }
            }
            return None;
        }
    }
    assert(body.take(n - from) =~= body);
    Some(value)
}

/// Reads an unsigned integer.
pub fn parse_u64(s: &str) -> (r: Option<u64>)
    ensures
        r == parsed_u64(s@),
{
    let chars = chars_of(s);
    let start: usize = if chars.len() > 0 && chars[0] == '+' { 1 } else { 0 };
    proof {
        assert(chars@.skip(0) =~= chars@);
    }
    match digits_from(&chars, start) {
        Some(v) => if v <= u64::MAX as u128 {
            Some(v as u64)
        } else {
            None
        },
        None => None,
    }
}

/// Reads a signed integer.
pub fn parse_i64(chars: &Vec<char>) -> (r: Option<i64>)
    ensures
        r == parsed_i64(chars@),
{
    let negative = chars.len() > 0 && chars[0] == '-';
    let start: usize = if chars.len() > 0 && (chars[0] == '+' || chars[0] == '-') { 1 } else { 0 };
    proof {
        assert(chars@.skip(0) =~= chars@);
    }
    match digits_from(chars, start) {
        Some(v) => {
            if negative {
                if v <= 0x8000_0000_0000_0000u128 {
                    let w: i128 = -(v as i128);
                    Some(w as i64)
                } else {
                    None
                }
            } else if v <= i64::MAX as u128 {
                Some(v as i64)
            } else {
                None
            }
        },
        None => None,
    }
}

pub open spec fn other_than(c: char) -> spec_fn(char) -> bool {
    |x: char| x != c
}

/// The text without any `c`.
pub open spec fn without(s: Seq<char>, c: char) -> Seq<char> {
    s.filter(other_than(c))
}

/// The characters of the text other than `c`.
pub fn remove_char(s: &str, c: char) -> (r: Vec<char>)
    ensures
        r@ == without(s@, c),
{
    let chars = chars_of(s);
    let mut r: Vec<char> = Vec::new();
    let ghost keep = other_than(c);
    proof {
        reveal(Seq::filter);
        assert(chars@.take(0).filter(keep) =~= Seq::<char>::empty());
    }
    for i in 0..chars.len()
        invariant
            keep == other_than(c),
            r@ == chars@.take(i as int).filter(keep),
    {
        proof {
            reveal(Seq::filter);
            assert(chars@.take(i + 1).drop_last() =~= chars@.take(i as int));
        }
        if chars[i] != c {
            r.push(chars[i]);
        }
    }
    assert(chars@.take(chars@.len() as int) =~= chars@);
    r
}

pub open spec fn digit_char(d: int) -> char {
    (d + '0' as u32) as char
}

/// A natural number in decimal.
pub open spec fn decimal(n: nat) -> Seq<char>
    decreases n,
{
    if n < 10 {
        seq![digit_char(n as int)]
    } else {
        decimal(n / 10).push(digit_char((n % 10) as int))
    }
}

/// An integer in decimal, with a minus sign where it is negative.
pub open spec fn decimal_int(n: int) -> Seq<char> {
    if n < 0 {
        seq!['-'] + decimal((-n) as nat)
    } else {
        decimal(n as nat)
    }
}

fn digit_text(d: u64) -> (r: &'static str)
    requires
        d < 10,
    ensures
        r@ == seq![digit_char(d as int)],
{
    proof {
        reveal_strlit("0");
        reveal_strlit("1");
        reveal_strlit("2");
        reveal_strlit("3");
        reveal_strlit("4");
        reveal_strlit("5");
        reveal_strlit("6");
        reveal_strlit("7");
        reveal_strlit("8");
        reveal_strlit("9");
    }
    let r = match d {
        0 => "0",
        1 => "1",
        2 => "2",
        3 => "3",
        4 => "4",
        5 => "5",
        6 => "6",
        7 => "7",
        8 => "8",
        _ => "9",
    };
    assert(r@ =~= seq![digit_char(d as int)]);
    r
}

/// Writes a natural number in decimal.
pub fn decimal_text(n: u64) -> (r: String)
    ensures
        r@ == decimal(n as nat),
    decreases n,
{
    if n < 10 {
        digit_text(n).to_owned()
    } else {
        let mut head = decimal_text(n / 10);
        let ghost h = head@;
        head.append(digit_text(n % 10));
        assert(head@ =~= h.push(digit_char((n % 10) as int)));
        head
    }
}

/// Writes an integer in decimal.
pub fn decimal_int_text(n: i64) -> (r: String)
    ensures
        r@ == decimal_int(n as int),
{
    if n < 0 {
        proof {
            reveal_strlit("-");
        }
        let mut r = "-".to_owned();
        let m: u64 = (-(n as i128)) as u64;
        r.append(decimal_text(m).as_str());
        assert("-"@ =~= seq!['-']);
        r
    } else {
        decimal_text(n as u64)
    }
}

// ---------------------------------------------------------------------------
// Laws
// ---------------------------------------------------------------------------

/// Which characters are white space.
pub proof fn law_white_space(c: char)
    ensures
        is_space(c) <==> {
            ||| c == ' '
            ||| c == '\t'
            ||| c == '\n'
            ||| c == '\r'
            ||| c == '\u{b}'
            ||| c == '\u{c}'
            ||| c == '\u{85}'
            ||| c == '\u{a0}'
            ||| c == '\u{1680}'
            ||| '\u{2000}' as u32 <= c as u32 <= '\u{200a}' as u32
            ||| c == '\u{2028}'
            ||| c == '\u{2029}'
            ||| c == '\u{202f}'
            ||| c == '\u{205f}'
            ||| c == '\u{3000}'
        },
{
}

proof fn lemma_leading_spaces(front: Seq<char>, s: Seq<char>)
    requires
        forall|i: int| 0 <= i < front.len() ==> is_space(#[trigger] front[i]),
        s.len() > 0 ==> !is_space(s[0]),
    ensures
        trim_start_spec(front + s) == s,
    decreases front.len(),
{
    if front.len() > 0 {
        assert((front + s).skip(1) =~= front.skip(1) + s);
        assert((front + s)[0] == front[0]);
        lemma_leading_spaces(front.skip(1), s);
    } else {
        assert(front + s =~= s);
    }
}

proof fn lemma_trailing_spaces(s: Seq<char>, back: Seq<char>)
    requires
        forall|i: int| 0 <= i < back.len() ==> is_space(#[trigger] back[i]),
        s.len() > 0 ==> !is_space(s.last()),
    ensures
        trim_end_spec(s + back) == s,
    decreases back.len(),
{
    if back.len() > 0 {
        assert((s + back).drop_last() =~= s + back.drop_last());
        assert((s + back).last() == back.last());
        assert(back.last() == back[back.len() - 1]);
        lemma_trailing_spaces(s, back.drop_last());
    } else {
        assert(s + back =~= s);
    }
}

/// Trimming takes away the white space on both sides and nothing else.
pub proof fn law_trimming(front: Seq<char>, middle: Seq<char>, back: Seq<char>)
    requires
        forall|i: int| 0 <= i < front.len() ==> is_space(#[trigger] front[i]),
        forall|i: int| 0 <= i < back.len() ==> is_space(#[trigger] back[i]),
        middle.len() > 0 ==> !is_space(middle[0]) && !is_space(middle[middle.len() - 1]),
    ensures
        trimmed(front + middle + back) == middle,
{
    if middle.len() > 0 {
        assert(front + middle + back =~= front + (middle + back));
        assert((middle + back)[0] == middle[0]);
        lemma_leading_spaces(front, middle + back);
        lemma_trailing_spaces(middle, back);
    } else {
        let all = front + middle + back;
        assert forall|i: int| 0 <= i < all.len() implies is_space(#[trigger] all[i]) by {
            if i < front.len() {
                assert(all[i] == front[i]);
            } else {
                assert(all[i] == back[i - front.len()]);
            }
        }
        lemma_leading_spaces(all, Seq::empty());
        assert(all + Seq::<char>::empty() =~= all);
        assert(middle =~= Seq::<char>::empty());
    }
}

proof fn lemma_word_is(word: Seq<char>, rest: Seq<char>)
    requires
        forall|i: int| 0 <= i < word.len() ==> !is_space(#[trigger] word[i]),
        rest.len() > 0 ==> is_space(rest[0]),
    ensures
        word_length(word + rest) == word.len(),
    decreases word.len(),
{
    if word.len() > 0 {
        assert((word + rest).skip(1) =~= word.skip(1) + rest);
        assert((word + rest)[0] == word[0]);
        lemma_word_is(word.skip(1), rest);
    } else {
        assert(word + rest =~= rest);
    }
}

/// Words are what stands between white space, in order.
pub proof fn law_words(front: Seq<char>, word: Seq<char>, rest: Seq<char>)
    requires
        forall|i: int| 0 <= i < front.len() ==> is_space(#[trigger] front[i]),
        word.len() > 0,
        forall|i: int| 0 <= i < word.len() ==> !is_space(#[trigger] word[i]),
        rest.len() > 0 ==> is_space(rest[0]),
    ensures
        words(front) == Seq::<Seq<char>>::empty(),
        words(front + word + rest) == seq![word] + words(rest),
{
    assert(front + Seq::<char>::empty() =~= front);
    lemma_leading_spaces(front, Seq::empty());
    let t = word + rest;
    assert(front + word + rest =~= front + t);
    assert(t[0] == word[0]);
    lemma_leading_spaces(front, t);
    lemma_word_is(word, rest);
    assert(t.take(word.len() as int) =~= word);
    assert(t.skip(word.len() as int) =~= rest);
}

proof fn lemma_before_is(a: Seq<char>, c: char, b: Seq<char>)
    requires
        forall|i: int| 0 <= i < a.len() ==> #[trigger] a[i] != c,
    ensures
        before(a, c) == a.len(),
        before(a + seq![c] + b, c) == a.len(),
{
    lemma_before(a, c);
    if before(a, c) < a.len() {
        assert(a[before(a, c) as int] != c);
    }
    let s = a + seq![c] + b;
    lemma_before(s, c);
    let n = before(s, c) as int;
    assert(s[a.len() as int] == c);
    if n < a.len() {
        assert(s[n] == a[n]);
    }
}

/// A text is cut at the first occurrence of the character, and split at each.
pub proof fn law_cutting(a: Seq<char>, c: char, b: Seq<char>)
    requires
        forall|i: int| 0 <= i < a.len() ==> #[trigger] a[i] != c,
    ensures
        cut(a, c) is None,
        cut(a + seq![c] + b, c) == Some((a, b)),
        pieces(a, c) == seq![a],
        pieces(a + seq![c] + b, c) == seq![a] + pieces(b, c),
{
    lemma_before_is(a, c, b);
    let s = a + seq![c] + b;
    assert(s.take(a.len() as int) =~= a);
    assert(s.skip((a.len() + 1) as int) =~= b);
}

/// A prefix is what something can be put behind to make the text, a suffix
/// what something can be put in front of.
pub proof fn law_prefixes_and_suffixes(s: Seq<char>, part: Seq<char>, rest: Seq<char>)
    ensures
        has_prefix(part + rest, part),
        has_suffix(rest + part, part),
        has_prefix(s, part) ==> s == part + s.skip(part.len() as int),
        has_suffix(s, part) ==> s == s.take(s.len() - part.len()) + part,
{
    assert((part + rest).take(part.len() as int) =~= part);
    assert((rest + part).skip(rest.len() as int) =~= part);
    if has_prefix(s, part) {
        assert(s =~= s.take(part.len() as int) + s.skip(part.len() as int));
    }
    if has_suffix(s, part) {
        assert(s =~= s.take(s.len() - part.len()) + s.skip(s.len() - part.len()));
    }
}

/// Taking a character away takes each of its occurrences and keeps the rest,
/// or only those at the end.
pub proof fn law_taking_away(a: Seq<char>, c: char, b: Seq<char>)
    ensures
        without(a + seq![c] + b, c) == without(a + b, c),
        !a.contains(c) ==> without(a, c) == a,
        without_trailing(a.push(c), c) == without_trailing(a, c),
        a.len() > 0 && a[a.len() - 1] != c ==> without_trailing(a, c) == a,
        without_trailing(Seq::<char>::empty(), c) == Seq::<char>::empty(),
{
    let keep = other_than(c);
    Seq::filter_distributes_over_add(a + seq![c], b, keep);
    Seq::filter_distributes_over_add(a, seq![c], keep);
    Seq::filter_distributes_over_add(a, b, keep);
    reveal(Seq::filter);
    assert(seq![c].filter(keep) =~= Seq::<char>::empty()) by {
        let one = seq![c];
        assert(one.drop_last() =~= Seq::<char>::empty());
        assert(one.last() == c && !keep(c));
        assert(one.drop_last().filter(keep) =~= Seq::<char>::empty());
    }
    let x = a.filter(keep);
    let y = b.filter(keep);
    assert((a + seq![c] + b).filter(keep) == (a + seq![c]).filter(keep) + y);
    assert((a + seq![c]).filter(keep) == x + seq![c].filter(keep));
    assert((a + b).filter(keep) == x + y);
    assert(x + Seq::<char>::empty() + y =~= x + y);
    if !a.contains(c) {
        lemma_nothing_taken(a, c);
    }
    assert(a.push(c).drop_last() =~= a);
}

proof fn lemma_nothing_taken(a: Seq<char>, c: char)
    requires
        !a.contains(c),
    ensures
        without(a, c) == a,
    decreases a.len(),
{
    reveal(Seq::filter);
    if a.len() > 0 {
        let front = a.drop_last();
        assert(a[a.len() - 1] != c);
        assert forall|i: int| 0 <= i < front.len() implies front[i] != c by {
            assert(a[i] != c);
        }
        lemma_nothing_taken(front, c);
        assert(front.push(a.last()) =~= a);
    }
}

/// A number is written with the ten digits: one digit for a number below ten,
/// and one more digit for ten times a number and less than ten on top. A minus
/// sign stands in front of a negative one.
pub proof fn law_decimal_writing(n: nat, d: nat)
    requires
        d < 10,
    ensures
        decimal(d) == seq!["0123456789"@[d as int]],
        n > 0 ==> decimal(10 * n + d) == decimal(n).push("0123456789"@[d as int]),
        decimal_int(n as int) == decimal(n),
        n > 0 ==> decimal_int(-n) == seq!['-'] + decimal(n),
{
    reveal_strlit("0123456789");
    assert((10 * n + d) / 10 == n);
    assert((10 * n + d) % 10 == d);
    assert(digit_char(d as int) == "0123456789"@[d as int]);
}

proof fn lemma_decimal_reads_back(n: nat)
    ensures
        is_number(decimal(n)),
        digits_value(decimal(n)) == n,
    decreases n,
{
    let d = (n % 10) as int;
    assert(is_digit(digit_char(d)));
    assert(digit_char(d) as u32 - '0' as u32 == d);
    let s = decimal(n);
    if n < 10 {
        assert(s.drop_last() =~= Seq::<char>::empty());
        assert(digits_value(s.drop_last()) == 0);
    } else {
        lemma_decimal_reads_back(n / 10);
        let front = decimal(n / 10);
        assert(s.drop_last() =~= front);
        assert forall|i: int| 0 <= i < s.len() implies is_digit(#[trigger] s[i]) by {
            if i < front.len() {
                assert(s[i] == front[i]);
            }
        }
    }
}

/// What is written as a number is read as the same number, with a plus sign in
/// front too.
pub proof fn law_numbers_read_back(n: u64, m: i64)
    ensures
        parsed_u64(decimal(n as nat)) == Some(n),
        parsed_u64(seq!['+'] + decimal(n as nat)) == Some(n),
        parsed_i64(decimal_int(m as int)) == Some(m),
        m >= 0 ==> parsed_i64(seq!['+'] + decimal(m as nat)) == Some(m),
{
    let s = decimal(n as nat);
    lemma_decimal_reads_back(n as nat);
    assert(is_digit(s[0]));
    assert((seq!['+'] + s).skip(1) =~= s);
    let k = (if m < 0 { -m } else { m as int }) as nat;
    let t = decimal(k);
    lemma_decimal_reads_back(k);
    assert(is_digit(t[0]));
    assert((seq!['-'] + t).skip(1) =~= t);
    assert((seq!['+'] + t).skip(1) =~= t);
}

/// Only digits are read as a number: at least one, none but them, and in front
/// of them at most one sign, which is no minus for a number that has none.
pub proof fn law_only_digits_are_read(s: Seq<char>)
    ensures
        ({
            let digit = |c: char| '0' as u32 <= c as u32 <= '9' as u32;
            &&& parsed_u64(s) is Some ==> digit(s[s.len() - 1]) && s.len() > 0 && (forall|i: int|
                0 <= i < s.len() ==> digit(#[trigger] s[i]) || i == 0 && s[i] == '+')
            &&& parsed_i64(s) is Some ==> digit(s[s.len() - 1]) && s.len() > 0 && (forall|i: int|
                0 <= i < s.len() ==> digit(#[trigger] s[i]) || i == 0 && (s[i] == '+' || s[i]
                    == '-'))
        }),
{
    let b = s.skip(1);
    assert(s.len() > 1 ==> b[b.len() - 1] == s[s.len() - 1]);
    assert forall|i: int| 0 < i < s.len() implies #[trigger] s[i] == b[i - 1] by {}
}

/// A digit more at the end makes ten times the number and the digit on top, so
/// that zeros in front change nothing; and a number that is too large is not
/// read.
pub proof fn law_digits_have_places(s: Seq<char>, d: nat)
    requires
        s.len() > 0,
        d < 10,
    ensures
        parsed_u64(s.push("0123456789"@[d as int])) == (match parsed_u64(s) {
            Some(v) if 10 * v + d <= u64::MAX => Some((10 * v + d) as u64),
            _ if s == seq!['+'] => Some(d as u64),
            _ => None,
        }),
{
    reveal_strlit("0123456789");
    let c = "0123456789"@[d as int];
    assert(is_digit(c) && c as u32 - '0' as u32 == d);
    let t = s.push(c);
    let b = if s[0] == '+' { s.skip(1) } else { s };
    let q = if t[0] == '+' { t.skip(1) } else { t };
    assert(t[0] == s[0]);
    assert(q =~= b.push(c));
    assert(q.drop_last() =~= b);
    assert(q.last() == c);
    if s == seq!['+'] {
        assert(b =~= Seq::<char>::empty());
        assert(q =~= seq![c]);
        assert(digits_value(b) == 0);
        assert(all_digits(q));
    } else {
        if b.len() == 0 {
            assert(s =~= seq!['+']);
        }
        if all_digits(q) {
            assert forall|i: int| 0 <= i < b.len() implies is_digit(#[trigger] b[i]) by {
                assert(q[i] == b[i]);
            }
        }
        if all_digits(b) {
            lemma_digits_value_nonnegative(b);
            assert forall|i: int| 0 <= i < q.len() implies is_digit(#[trigger] q[i]) by {
                if i < b.len() {
                    assert(q[i] == b[i]);
                }
            }
        }
    }
}

/// A signed number is read as the unsigned one behind its sign is, as far as
/// it can be held.
pub proof fn law_signed_numbers(s: Seq<char>)
    requires
        s.len() > 0,
        s[0] != '+' && s[0] != '-',
    ensures
        parsed_i64(s) == (match parsed_u64(s) {
            Some(v) if v <= i64::MAX => Some(v as i64),
            _ => None,
        }),
        parsed_i64(seq!['+'] + s) == parsed_i64(s),
        parsed_u64(seq!['+'] + s) == parsed_u64(s),
        parsed_i64(seq!['-'] + s) == (match parsed_u64(s) {
            Some(v) if v <= 0x8000_0000_0000_0000 => Some((-v) as i64),
            _ => None,
        }),
        parsed_u64(seq!['-'] + s) is None,
{
    assert((seq!['+'] + s).skip(1) =~= s);
    assert((seq!['-'] + s).skip(1) =~= s);
    assert((seq!['-'] + s)[0] == '-');
    if is_number(s) {
        lemma_digits_value_nonnegative(s);
    }
    if is_number(seq!['-'] + s) {
        assert(is_digit((seq!['-'] + s)[0]));
    }
}

} // verus!

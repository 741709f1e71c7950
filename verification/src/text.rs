//! Character-level string operations, modelled on sequences of characters.
use vstd::prelude::*;

verus! {

/// `String::push` appends one character.
pub assume_specification[ std::string::String::push ](s: &mut std::string::String, c: char)
    ensures
        final(s)@ == old(s)@.push(c),
;

/// The first position at or after `from` that holds `c`.
pub open spec fn find_char_from(s: Seq<char>, c: char, from: int) -> Option<int>
    decreases s.len() - from,
{
    if from < 0 || from >= s.len() {
        None
    } else if s[from] == c {
        Some(from)
    } else {
        find_char_from(s, c, from + 1)
    }
}

/// The first position that holds `c`.
pub open spec fn find_char(s: Seq<char>, c: char) -> Option<int> {
    find_char_from(s, c, 0)
}

/// The last position before `end` that holds `c`.
pub open spec fn rfind_char_before(s: Seq<char>, c: char, end: int) -> Option<int>
    decreases end,
{
    if end <= 0 || end > s.len() {
        None
    } else if s[end - 1] == c {
        Some(end - 1)
    } else {
        rfind_char_before(s, c, end - 1)
    }
}

/// The last position that holds `c`.
pub open spec fn rfind_char(s: Seq<char>, c: char) -> Option<int> {
    rfind_char_before(s, c, s.len() as int)
}

/// Whether `p` occurs in `s` at position `i`.
pub open spec fn occurs_at(s: Seq<char>, p: Seq<char>, i: int) -> bool {
    0 <= i && i + p.len() <= s.len() && s.subrange(i, i + p.len()) == p
}

/// The first position at or after `from` where `p` occurs.
pub open spec fn find_from(s: Seq<char>, p: Seq<char>, from: int) -> Option<int>
    decreases s.len() + 1 - from,
{
    if from < 0 || from + p.len() > s.len() {
        None
    } else if occurs_at(s, p, from) {
        Some(from)
    } else {
        find_from(s, p, from + 1)
    }
}

/// The first position where `p` occurs.
pub open spec fn find(s: Seq<char>, p: Seq<char>) -> Option<int> {
    find_from(s, p, 0)
}

pub proof fn lemma_find_char_from(s: Seq<char>, c: char, from: int)
    requires
        0 <= from,
    ensures
        match find_char_from(s, c, from) {
            Some(k) => from <= k < s.len() && s[k] == c && forall|j: int|
                from <= j < k ==> s[j] != c,
            None => forall|j: int| from <= j < s.len() ==> s[j] != c,
        },
    decreases s.len() - from,
{
    if from < s.len() && s[from] != c {
        lemma_find_char_from(s, c, from + 1);
    }
}

pub proof fn lemma_find_char(s: Seq<char>, c: char)
    ensures
        match find_char(s, c) {
            Some(k) => 0 <= k < s.len() && s[k] == c && forall|j: int| 0 <= j < k ==> s[j] != c,
            None => forall|j: int| 0 <= j < s.len() ==> s[j] != c,
        },
{
    lemma_find_char_from(s, c, 0);
}

/// A first occurrence is what `find_char` finds.
pub proof fn lemma_find_char_at(s: Seq<char>, c: char, k: int)
    requires
        0 <= k < s.len(),
        s[k] == c,
        forall|j: int| 0 <= j < k ==> s[j] != c,
    ensures
        find_char(s, c) == Some(k),
{
    lemma_find_char(s, c);
}

pub proof fn lemma_find_char_none(s: Seq<char>, c: char)
    requires
        !s.contains(c),
    ensures
        find_char(s, c) is None,
{
    lemma_find_char(s, c);
    if find_char(s, c) is Some {
        assert(s.contains(s[find_char(s, c)->0]));
    }
}

/// Splitting at a separator that the first part does not hold.
pub proof fn lemma_split_once_at(a: Seq<char>, c: char, b: Seq<char>)
    requires
        !a.contains(c),
    ensures
        split_once(a + seq![c] + b, c) == Some((a, b)),
{
    let s = a + seq![c] + b;
    assert forall|j: int| 0 <= j < a.len() implies s[j] != c by {
        assert(a.contains(a[j]));
    }
    lemma_find_char_at(s, c, a.len() as int);
    assert(s.take(a.len() as int) == a);
    assert(s.skip(a.len() as int + 1) == b);
}

pub proof fn lemma_split_none(s: Seq<char>, c: char)
    requires
        !s.contains(c),
    ensures
        split(s, c) == seq![s],
{
    lemma_find_char_none(s, c);
}

pub proof fn lemma_split_cons(a: Seq<char>, c: char, b: Seq<char>)
    requires
        !a.contains(c),
    ensures
        split(a + seq![c] + b, c) == seq![a] + split(b, c),
{
    lemma_split_once_at(a, c, b);
}

pub proof fn lemma_rfind_char_before(s: Seq<char>, c: char, end: int)
    requires
        end <= s.len(),
    ensures
        match rfind_char_before(s, c, end) {
            Some(k) => 0 <= k < end && s[k] == c && forall|j: int| k < j < end ==> s[j] != c,
            None => forall|j: int| 0 <= j < end ==> s[j] != c,
        },
    decreases end,
{
    if end > 0 && s[end - 1] != c {
        lemma_rfind_char_before(s, c, end - 1);
    }
}

pub proof fn lemma_find_from(s: Seq<char>, p: Seq<char>, from: int)
    requires
        0 <= from,
    ensures
        match find_from(s, p, from) {
            Some(k) => from <= k && occurs_at(s, p, k) && forall|j: int|
                from <= j < k ==> !occurs_at(s, p, j),
            None => forall|j: int| from <= j ==> !occurs_at(s, p, j),
        },
    decreases s.len() + 1 - from,
{
    if from + p.len() <= s.len() && !occurs_at(s, p, from) {
        lemma_find_from(s, p, from + 1);
    }
}

/// The characters of a string.
pub fn chars(s: &str) -> (r: Vec<char>)
    ensures
        r@ == s@,
{
    let mut r: Vec<char> = Vec::new();
    for c in iter: s.chars()
        invariant
            iter.seq() == s@,
            r@ == s@.take(iter.index() as int),
    {
        r.push(c);
        proof {
            assert(s@.take(iter.index() as int + 1) == s@.take(iter.index() as int).push(c));
        }
    }
    proof {
        assert(s@.take(s@.len() as int) == s@);
    }
    r
}

/// The string with the given characters.
pub fn string(s: &[char]) -> (r: String)
    ensures
        r@ == s@,
{
    let mut r: String = String::new();
    let mut i: usize = 0;
    while i < s.len()
        invariant
            i <= s.len(),
            r@ == s@.take(i as int),
        decreases s.len() - i,
    {
        r.push(s[i]);
        i = i + 1;
        proof {
            assert(s@.take(i as int) == s@.take(i as int - 1).push(s@[i as int - 1]));
        }
    }
    proof {
        assert(s@.take(s@.len() as int) == s@);
    }
    r
}

/// The string with the characters `s[a..b]`.
pub fn substring(s: &[char], a: usize, b: usize) -> (r: String)
    requires
        a <= b <= s@.len(),
    ensures
        r@ == s@.subrange(a as int, b as int),
{
    string(vstd::slice::slice_subrange(s, a, b))
}

/// Whether two strings hold the same characters.
pub fn same(a: &str, b: &str) -> (r: bool)
    ensures
        r == (a@ == b@),
{
    a.to_owned() == b.to_owned()
}

/// Position of the first `c` at or after `from`.
pub fn position_from(s: &[char], c: char, from: usize) -> (r: Option<usize>)
    ensures
        match r {
            Some(k) => find_char_from(s@, c, from as int) == Some(k as int) && from <= k
                < s@.len(),
            None => find_char_from(s@, c, from as int) is None,
        },
{
    let mut i: usize = from;
    while i < s.len()
        invariant
            from <= i,
            find_char_from(s@, c, from as int) == find_char_from(s@, c, i as int),
        decreases s.len() - i,
    {
        if s[i] == c {
            return Some(i);
        }
        i = i + 1;
    }
    None
}

/// Position of the first `c`.
pub fn position(s: &[char], c: char) -> (r: Option<usize>)
    ensures
        match r {
            Some(k) => find_char(s@, c) == Some(k as int) && k < s@.len(),
            None => find_char(s@, c) is None,
        },
{
    position_from(s, c, 0)
}

/// Position of the last `c`.
pub fn rposition(s: &[char], c: char) -> (r: Option<usize>)
    ensures
        match r {
            Some(k) => rfind_char(s@, c) == Some(k as int) && k < s@.len(),
            None => rfind_char(s@, c) is None,
        },
{
    let mut i: usize = s.len();
    while i > 0
        invariant
            i <= s@.len(),
            rfind_char(s@, c) == rfind_char_before(s@, c, i as int),
        decreases i,
    {
        if s[i - 1] == c {
            return Some(i - 1);
        }
        i = i - 1;
    }
    None
}

/// Whether `p` occurs in `s` at position `i`.
pub fn matches_at(s: &[char], p: &[char], i: usize) -> (r: bool)
    ensures
        r == occurs_at(s@, p@, i as int),
{
    if p.len() > s.len() || i > s.len() - p.len() {
        return false;
    }
    let mut j: usize = 0;
    while j < p.len()
        invariant
            i + p@.len() <= s@.len() <= usize::MAX,
            j <= p@.len(),
            forall|k: int| 0 <= k < j ==> s@[i + k] == p@[k],
        decreases p.len() - j,
    {
        if s[i + j] != p[j] {
            proof {
                assert(s@.subrange(i as int, i + p@.len())[j as int] == s@[i + j]);
            }
            return false;
        }
        j = j + 1;
    }
    proof {
        assert(s@.subrange(i as int, i + p@.len()) == p@);
    }
    true
}

/// Position of the first occurrence of `p`.
pub fn find_text(s: &[char], p: &[char]) -> (r: Option<usize>)
    ensures
        match r {
            Some(k) => find(s@, p@) == Some(k as int) && occurs_at(s@, p@, k as int),
            None => find(s@, p@) is None,
        },
{
    if p.len() > s.len() {
        return None;
    }
    let last: usize = s.len() - p.len();
    let mut i: usize = 0;
    loop
        invariant
            i <= last,
            last == s@.len() - p@.len(),
            find(s@, p@) == find_from(s@, p@, i as int),
        decreases last - i,
    {
        if matches_at(s, p, i) {
            return Some(i);
        }
        if i == last {
            proof {
                assert(find_from(s@, p@, i as int + 1) is None);
            }
            return None;
        }
        i = i + 1;
    }
}

/// The rest of `s` behind the prefix `p`.
pub open spec fn strip_prefix(s: Seq<char>, p: Seq<char>) -> Option<Seq<char>> {
    if p.is_prefix_of(s) {
        Some(s.skip(p.len() as int))
    } else {
        None
    }
}

/// The part of `s` before the suffix `p`.
pub open spec fn strip_suffix(s: Seq<char>, p: Seq<char>) -> Option<Seq<char>> {
    if p.is_suffix_of(s) {
        Some(s.take(s.len() - p.len()))
    } else {
        None
    }
}

/// The parts of `s` around the first `c`.
pub open spec fn split_once(s: Seq<char>, c: char) -> Option<(Seq<char>, Seq<char>)> {
    match find_char(s, c) {
        Some(i) => Some((s.take(i), s.skip(i + 1))),
        None => None,
    }
}

/// `s` up to the first `c`, or all of it.
pub open spec fn until(s: Seq<char>, c: char) -> Seq<char> {
    match find_char(s, c) {
        Some(i) => s.take(i),
        None => s,
    }
}

/// The pieces of `s` between the occurrences of `c`.
pub open spec fn split(s: Seq<char>, c: char) -> Seq<Seq<char>>
    decreases s.len(),
    via split_decreases
{
    match find_char(s, c) {
        Some(i) => seq![s.take(i)] + split(s.skip(i + 1), c),
        None => seq![s],
    }
}

#[via_fn]
proof fn split_decreases(s: Seq<char>, c: char) {
    lemma_find_char(s, c);
}

/// `s` without the leading characters equal to `c`.
pub open spec fn trim_start_char(s: Seq<char>, c: char) -> Seq<char>
    decreases s.len(),
{
    if s.len() > 0 && s[0] == c {
        trim_start_char(s.drop_first(), c)
    } else {
        s
    }
}

/// `s` without the trailing characters equal to `c`.
pub open spec fn trim_end_char(s: Seq<char>, c: char) -> Seq<char>
    decreases s.len(),
{
    if s.len() > 0 && s.last() == c {
        trim_end_char(s.drop_last(), c)
    } else {
        s
    }
}

/// The characters with the Unicode property White_Space.
pub open spec fn is_white(c: char) -> bool {
    let n = c as int;
    ||| 0x9 <= n <= 0xd
    ||| n == 0x20
    ||| n == 0x85
    ||| n == 0xa0
    ||| n == 0x1680
    ||| 0x2000 <= n <= 0x200a
    ||| n == 0x2028
    ||| n == 0x2029
    ||| n == 0x202f
    ||| n == 0x205f
    ||| n == 0x3000
}

/// `s` without leading white space.
pub open spec fn trim_start(s: Seq<char>) -> Seq<char>
    decreases s.len(),
{
    if s.len() > 0 && is_white(s[0]) {
        trim_start(s.drop_first())
    } else {
        s
    }
}

/// `s` without trailing white space.
pub open spec fn trim_end(s: Seq<char>) -> Seq<char>
    decreases s.len(),
{
    if s.len() > 0 && is_white(s.last()) {
        trim_end(s.drop_last())
    } else {
        s
    }
}

/// `s` without white space at either end.
pub open spec fn trim(s: Seq<char>) -> Seq<char> {
    trim_start(trim_end(s))
}

pub open spec fn is_digit(c: char) -> bool {
    '0' <= c <= '9'
}

pub open spec fn is_hex_digit(c: char) -> bool {
    is_digit(c) || 'a' <= c <= 'f' || 'A' <= c <= 'F'
}

pub open spec fn is_letter(c: char) -> bool {
    'a' <= c <= 'z' || 'A' <= c <= 'Z'
}

/// An ASCII capital letter in its small form; any other character as it is.
pub open spec fn lower(c: char) -> char {
    if 'A' <= c <= 'Z' {
        (c as int + 32) as char
    } else {
        c
    }
}

/// `s` with ASCII capital letters in their small form.
pub open spec fn to_lower(s: Seq<char>) -> Seq<char> {
    Seq::new(s.len(), |i: int| lower(s[i]))
}

/// `s` with each `from` replaced by `to`.
pub open spec fn replace_char(s: Seq<char>, from: char, to: char) -> Seq<char> {
    Seq::new(
        s.len(),
        |i: int|
            if s[i] == from {
                to
            } else {
                s[i]
            },
    )
}

/// The texts of a list of character lists.
pub open spec fn texts(v: Seq<Vec<char>>) -> Seq<Seq<char>> {
    v.map_values(|x: Vec<char>| x@)
}

pub proof fn lemma_concat_assoc(a: Seq<char>, b: Seq<char>, c: Seq<char>)
    ensures
        (a + b) + c == a + (b + c),
{
}

/// The string made of `a` and then `b`.
pub fn concat(a: &str, b: &str) -> (r: String)
    ensures
        r@ == a@ + b@,
{
    let mut r = a.to_owned();
    r.append(b);
    r
}

/// The string made of three parts.
pub fn concat3(a: &str, b: &str, c: &str) -> (r: String)
    ensures
        r@ == a@ + b@ + c@,
{
    let mut r = a.to_owned();
    r.append(b);
    r.append(c);
    r
}

/// Whether `s` begins with `p`.
pub fn starts_with(s: &[char], p: &str) -> (r: bool)
    ensures
        r == p@.is_prefix_of(s@),
{
    let p = chars(p);
    let r = matches_at(s, &p, 0);
    proof {
        if p@.len() <= s@.len() {
            assert(s@.subrange(0, p@.len() as int) == s@.take(p@.len() as int));
        }
        if p@.is_prefix_of(s@) {
            assert(s@.subrange(0, p@.len() as int) == p@);
        }
    }
    r
}

/// Whether `s` ends with `p`.
pub fn ends_with(s: &[char], p: &str) -> (r: bool)
    ensures
        r == p@.is_suffix_of(s@),
{
    let p = chars(p);
    if p.len() > s.len() {
        return false;
    }
    let r = matches_at(s, &p, s.len() - p.len());
    proof {
        if p@.is_suffix_of(s@) {
            assert(s@.subrange(s@.len() - p@.len(), s@.len() as int) == p@);
        }
    }
    r
}

/// The rest of `s` behind the prefix `p`.
pub fn after_prefix<'a>(s: &'a [char], p: &str) -> (r: Option<&'a [char]>)
    ensures
        match r {
            Some(t) => strip_prefix(s@, p@) == Some(t@),
            None => strip_prefix(s@, p@) is None,
        },
{
    if starts_with(s, p) {
        let n: usize = chars(p).len();
        Some(vstd::slice::slice_subrange(s, n, s.len()))
    } else {
        None
    }
}

/// The part of `s` before the suffix `p`.
pub fn before_suffix<'a>(s: &'a [char], p: &str) -> (r: Option<&'a [char]>)
    ensures
        match r {
            Some(t) => strip_suffix(s@, p@) == Some(t@),
            None => strip_suffix(s@, p@) is None,
        },
{
    if ends_with(s, p) {
        let n: usize = chars(p).len();
        let r = vstd::slice::slice_subrange(s, 0, s.len() - n);
        proof {
            assert(r@ == s@.take(s@.len() - p@.len()));
        }
        Some(r)
    } else {
        None
    }
}

/// The parts of `s` around the first `c`.
pub fn split_at_char<'a>(s: &'a [char], c: char) -> (r: Option<(&'a [char], &'a [char])>)
    ensures
        match r {
            Some((a, b)) => split_once(s@, c) == Some((a@, b@)),
            None => split_once(s@, c) is None,
        },
{
    let n: usize = s.len();
    match position(s, c) {
        Some(i) => {
            let a = vstd::slice::slice_subrange(s, 0, i);
            let b = vstd::slice::slice_subrange(s, i + 1, n);
            proof {
                assert(a@ == s@.take(i as int));
                assert(b@ == s@.skip(i + 1));
            }
            Some((a, b))
        },
        None => None,
    }
}

/// `s` up to the first `c`, or all of it.
pub fn up_to<'a>(s: &'a [char], c: char) -> (r: &'a [char])
    ensures
        r@ == until(s@, c),
{
    match position(s, c) {
        Some(i) => {
            let a = vstd::slice::slice_subrange(s, 0, i);
            proof {
                assert(a@ == s@.take(i as int));
            }
            a
        },
        None => s,
    }
}

/// The pieces of `s` between the occurrences of `c`.
pub fn pieces(s: &[char], c: char) -> (r: Vec<Vec<char>>)
    ensures
        texts(r@) == split(s@, c),
{
    let mut r: Vec<Vec<char>> = Vec::new();
    let mut cur: Vec<char> = Vec::new();
    let mut i: usize = 0;
    let ghost mut start: int = 0;
    proof {
        assert(s@.skip(0) == s@);
    }
    while i < s.len()
        invariant
            0 <= start <= i <= s@.len(),
            cur@ == s@.subrange(start, i as int),
            forall|j: int| start <= j < i ==> s@[j] != c,
            texts(r@) + split(s@.skip(start), c) == split(s@, c),
        decreases s.len() - i,
    {
        if s[i] == c {
            let ghost before = r@;
            r.push(cur);
            cur = Vec::new();
            proof {
                let t = s@.skip(start);
                lemma_find_char(t, c);
                assert(t[i - start] == c);
                let k = find_char(t, c)->0;
                assert(k == i - start) by {
                    if k < i - start {
                        assert(t[k] == s@[start + k]);
                    }
                }
                assert(t.take(k) == s@.subrange(start, i as int));
                assert(t.skip(k + 1) == s@.skip(i + 1));
                assert(texts(r@) == texts(before).push(s@.subrange(start, i as int)));
                assert(split(t, c) == seq![t.take(k)] + split(t.skip(k + 1), c));
                assert(texts(before) + split(t, c) == texts(r@) + split(s@.skip(i + 1), c));
                start = i + 1;
            }
        } else {
            cur.push(s[i]);
        }
        i = i + 1;
    }
    proof {
        let t = s@.skip(start);
        lemma_find_char(t, c);
        if find_char(t, c) is Some {
            let k = find_char(t, c)->0;
            assert(t[k] == s@[start + k]);
        }
        assert(split(t, c) == seq![t]);
        assert(cur@ == t);
        assert(texts(r@.push(cur)) == texts(r@).push(t));
        assert(texts(r@) + seq![t] == texts(r@).push(t));
    }
    r.push(cur);
    r
}

/// `s` without the leading characters equal to `c`.
pub fn without_leading<'a>(s: &'a [char], c: char) -> (r: &'a [char])
    ensures
        r@ == trim_start_char(s@, c),
{
    let mut i: usize = 0;
    proof {
        assert(s@.skip(0) == s@);
    }
    while i < s.len() && s[i] == c
        invariant
            i <= s@.len(),
            trim_start_char(s@, c) == trim_start_char(s@.skip(i as int), c),
        decreases s.len() - i,
    {
        proof {
            assert(s@.skip(i as int).drop_first() == s@.skip(i + 1));
        }
        i = i + 1;
    }
    vstd::slice::slice_subrange(s, i, s.len())
}

/// `s` without the trailing characters equal to `c`.
pub fn without_trailing<'a>(s: &'a [char], c: char) -> (r: &'a [char])
    ensures
        r@ == trim_end_char(s@, c),
{
    let mut i: usize = s.len();
    proof {
        assert(s@.take(s@.len() as int) == s@);
    }
    while i > 0 && s[i - 1] == c
        invariant
            i <= s@.len(),
            trim_end_char(s@, c) == trim_end_char(s@.take(i as int), c),
        decreases i,
    {
        proof {
            assert(s@.take(i as int).drop_last() == s@.take(i - 1));
        }
        i = i - 1;
    }
    let r = vstd::slice::slice_subrange(s, 0, i);
    proof {
        assert(r@ == s@.take(i as int));
    }
    r
}

/// Whether a character is white space.
pub fn white(c: char) -> (r: bool)
    ensures
        r == is_white(c),
{
    let n: u32 = c as u32;
    (0x9 <= n && n <= 0xd) || n == 0x20 || n == 0x85 || n == 0xa0 || n == 0x1680 || (0x2000 <= n
        && n <= 0x200a) || n == 0x2028 || n == 0x2029 || n == 0x202f || n == 0x205f || n == 0x3000
}

/// `s` without leading white space.
pub fn trimmed_start<'a>(s: &'a [char]) -> (r: &'a [char])
    ensures
        r@ == trim_start(s@),
{
    let mut i: usize = 0;
    proof {
        assert(s@.skip(0) == s@);
    }
    while i < s.len() && white(s[i])
        invariant
            i <= s@.len(),
            trim_start(s@) == trim_start(s@.skip(i as int)),
        decreases s.len() - i,
    {
        proof {
            assert(s@.skip(i as int).drop_first() == s@.skip(i + 1));
        }
        i = i + 1;
    }
    vstd::slice::slice_subrange(s, i, s.len())
}

/// `s` without trailing white space.
pub fn trimmed_end<'a>(s: &'a [char]) -> (r: &'a [char])
    ensures
        r@ == trim_end(s@),
{
    let mut i: usize = s.len();
    proof {
        assert(s@.take(s@.len() as int) == s@);
    }
    while i > 0 && white(s[i - 1])
        invariant
            i <= s@.len(),
            trim_end(s@) == trim_end(s@.take(i as int)),
        decreases i,
    {
        proof {
            assert(s@.take(i as int).drop_last() == s@.take(i - 1));
        }
        i = i - 1;
    }
    let r = vstd::slice::slice_subrange(s, 0, i);
    proof {
        assert(r@ == s@.take(i as int));
    }
    r
}

/// `s` without white space at either end.
pub fn trimmed<'a>(s: &'a [char]) -> (r: &'a [char])
    ensures
        r@ == trim(s@),
{
    trimmed_start(trimmed_end(s))
}

/// Whether a character is a hexadecimal digit.
pub fn hex_digit(c: char) -> (r: bool)
    ensures
        r == is_hex_digit(c),
{
    ('0' <= c && c <= '9') || ('a' <= c && c <= 'f') || ('A' <= c && c <= 'F')
}

/// `s` with ASCII capital letters in their small form.
pub fn lowered(s: &[char]) -> (r: Vec<char>)
    ensures
        r@ == to_lower(s@),
{
    let mut r: Vec<char> = Vec::new();
    let mut i: usize = 0;
    while i < s.len()
        invariant
            i <= s@.len(),
            r@ == to_lower(s@.take(i as int)),
        decreases s.len() - i,
    {
        let c = s[i];
        if 'A' <= c && c <= 'Z' {
            r.push((c as u8 + 32) as char);
        } else {
            r.push(c);
        }
        i = i + 1;
        proof {
            assert(to_lower(s@.take(i as int)) == to_lower(s@.take(i - 1)).push(lower(s@[i - 1])));
        }
    }
    proof {
        assert(s@.take(s@.len() as int) == s@);
    }
    r
}

/// `s` with each `from` replaced by `to`.
pub fn replaced(s: &[char], from: char, to: char) -> (r: Vec<char>)
    ensures
        r@ == replace_char(s@, from, to),
{
    let mut r: Vec<char> = Vec::new();
    let mut i: usize = 0;
    while i < s.len()
        invariant
            i <= s@.len(),
            r@ == replace_char(s@.take(i as int), from, to),
        decreases s.len() - i,
    {
        let c = s[i];
        if c == from {
            r.push(to);
        } else {
            r.push(c);
        }
        i = i + 1;
        proof {
            assert(replace_char(s@.take(i as int), from, to) == replace_char(
                s@.take(i - 1),
                from,
                to,
            ).push(
                if s@[i - 1] == from {
                    to
                } else {
                    s@[i - 1]
                },
            ));
        }
    }
    proof {
        assert(s@.take(s@.len() as int) == s@);
    }
    r
}

/// `s` without the carriage return at its end.
pub open spec fn without_cr(s: Seq<char>) -> Seq<char> {
    if s.len() > 0 && s.last() == '\r' {
        s.drop_last()
    } else {
        s
    }
}

/// The lines of a text. A line ends in a line feed, which a carriage return
/// may precede; the last line may end without.
pub open spec fn lines(s: Seq<char>) -> Seq<Seq<char>>
    decreases s.len(),
    via lines_decreases
{
    match find_char(s, '\n') {
        Some(i) => seq![without_cr(s.take(i))] + lines(s.skip(i + 1)),
        None => if s.len() == 0 {
            Seq::empty()
        } else {
            seq![s]
        },
    }
}

#[via_fn]
proof fn lines_decreases(s: Seq<char>) {
    lemma_find_char(s, '\n');
}

/// The lines of a text.
pub fn text_lines(s: &[char]) -> (r: Vec<Vec<char>>)
    ensures
        texts(r@) == lines(s@),
{
    let mut r: Vec<Vec<char>> = Vec::new();
    let mut cur: Vec<char> = Vec::new();
    let mut i: usize = 0;
    let ghost mut start: int = 0;
    proof {
        assert(s@.skip(0) == s@);
        assert(texts(r@) + lines(s@) == lines(s@));
    }
    while i < s.len()
        invariant
            0 <= start <= i <= s@.len(),
            cur@ == s@.subrange(start, i as int),
            forall|j: int| start <= j < i ==> s@[j] != '\n',
            texts(r@) + lines(s@.skip(start)) == lines(s@),
        decreases s.len() - i,
    {
        if s[i] == '\n' {
            let ghost before = r@;
            let ghost line = cur@;
            if cur.len() > 0 && cur[cur.len() - 1] == '\r' {
                let _ = cur.pop();
            }
            proof {
                assert(cur@ == without_cr(line));
            }
            r.push(cur);
            cur = Vec::new();
            proof {
                let t = s@.skip(start);
                assert(t[i - start] == '\n');
                assert forall|j: int| 0 <= j < i - start implies t[j] != '\n' by {
                    assert(t[j] == s@[start + j]);
                }
                lemma_find_char_at(t, '\n', i - start);
                let k = i - start;
                assert(t.take(k) == line);
                assert(t.skip(k + 1) == s@.skip(i + 1));
                assert(texts(r@) == texts(before).push(without_cr(line)));
                assert(lines(t) == seq![without_cr(t.take(k))] + lines(t.skip(k + 1)));
                assert(texts(before) + lines(t) == texts(r@) + lines(s@.skip(i + 1)));
                start = i + 1;
            }
        } else {
            cur.push(s[i]);
        }
        i = i + 1;
    }
    proof {
        let t = s@.skip(start);
        lemma_find_char(t, '\n');
        if find_char(t, '\n') is Some {
            let k = find_char(t, '\n')->0;
            assert(t[k] == s@[start + k]);
        }
        assert(cur@ == t);
        if t.len() == 0 {
            assert(texts(r@) + lines(t) == texts(r@));
        } else {
            assert(texts(r@.push(cur)) == texts(r@).push(t));
            assert(texts(r@) + seq![t] == texts(r@).push(t));
        }
    }
    if cur.len() > 0 {
        r.push(cur);
    }
    r
}

/// The number of bytes of a character in UTF-8.
pub open spec fn char_width(c: char) -> nat {
    let n = c as int;
    if n < 0x80 {
        1
    } else if n < 0x800 {
        2
    } else if n < 0x10000 {
        3
    } else {
        4
    }
}

/// The number of bytes of a text in UTF-8.
pub open spec fn byte_len(s: Seq<char>) -> nat
    decreases s.len(),
{
    if s.len() == 0 {
        0
    } else {
        byte_len(s.drop_last()) + char_width(s.last())
    }
}

/// How often a character occurs.
pub open spec fn count_char(s: Seq<char>, c: char) -> nat
    decreases s.len(),
{
    if s.len() == 0 {
        0
    } else {
        count_char(s.drop_last(), c) + if s.last() == c {
            1nat
        } else {
            0nat
        }
    }
}

/// How often a character occurs.
pub fn count_of(s: &[char], c: char) -> (r: usize)
    ensures
        r == count_char(s@, c),
        r <= s@.len(),
{
    let mut n: usize = 0;
    let mut i: usize = 0;
    proof {
        assert(s@.take(0).len() == 0);
    }
    while i < s.len()
        invariant
            i <= s@.len(),
            n == count_char(s@.take(i as int), c),
            n <= i,
        decreases s.len() - i,
    {
        proof {
            assert(s@.take(i + 1).drop_last() == s@.take(i as int));
        }
        if s[i] == c {
            n = n + 1;
        }
        i = i + 1;
    }
    proof {
        assert(s@.take(i as int) == s@);
    }
    n
}

/// The number of bytes of a character in UTF-8.
pub fn width(c: char) -> (r: usize)
    ensures
        r == char_width(c),
        1 <= r <= 4,
{
    let n: u32 = c as u32;
    if n < 0x80 {
        1
    } else if n < 0x800 {
        2
    } else if n < 0x10000 {
        3
    } else {
        4
    }
}

/// The bytes of white space at the start of a line.
pub open spec fn indent(line: Seq<char>) -> nat {
    byte_len(line.take(line.len() - trim_start(line).len()))
}

pub proof fn lemma_trim_start_len(s: Seq<char>)
    ensures
        trim_start(s).len() <= s.len(),
        trim_start(s) == s.skip(s.len() - trim_start(s).len()),
    decreases s.len(),
{
    if s.len() > 0 && is_white(s[0]) {
        let t = s.drop_first();
        lemma_trim_start_len(t);
        assert(t.skip(t.len() - trim_start(t).len()) == s.skip(s.len() - trim_start(t).len()));
    } else {
        assert(s.skip(0) == s);
    }
}

/// The concatenation of texts with a separator between them.
pub open spec fn join(parts: Seq<Seq<char>>, sep: Seq<char>) -> Seq<char>
    decreases parts.len(),
{
    if parts.len() == 0 {
        Seq::empty()
    } else if parts.len() == 1 {
        parts[0]
    } else {
        join(parts.drop_last(), sep) + sep + parts.last()
    }
}

/// A run of spaces.
pub open spec fn spaces(n: nat) -> Seq<char> {
    Seq::new(n, |i: int| ' ')
}

/// Append the characters of a slice.
pub fn push_chars(out: &mut Vec<char>, s: &[char])
    ensures
        final(out)@ == old(out)@ + s@,
{
    let ghost out0 = out@;
    let mut i: usize = 0;
    proof {
        assert(out0 + s@.take(0) == out0);
    }
    while i < s.len()
        invariant
            i <= s@.len(),
            out@ == out0 + s@.take(i as int),
        decreases s.len() - i,
    {
        out.push(s[i]);
        proof {
            assert(out0 + s@.take(i as int + 1) == (out0 + s@.take(i as int)).push(s@[i as int]));
        }
        i = i + 1;
    }
    proof {
        assert(s@.take(s@.len() as int) == s@);
    }
}

/// Append the characters of a string.
pub fn push_str(out: &mut Vec<char>, s: &str)
    ensures
        final(out)@ == old(out)@ + s@,
{
    push_chars(out, &chars(s));
}

/// Append spaces.
pub fn push_spaces(out: &mut Vec<char>, n: u128)
    ensures
        final(out)@ == old(out)@ + spaces(n as nat),
{
    let ghost out0 = out@;
    let mut i: u128 = 0;
    proof {
        assert(out0 + spaces(0) == out0);
    }
    while i < n
        invariant
            i <= n,
            out@ == out0 + spaces(i as nat),
        decreases n - i,
    {
        out.push(' ');
        proof {
            assert(out0 + spaces(i as nat + 1) == (out0 + spaces(i as nat)).push(' '));
        }
        i = i + 1;
    }
}

/// The bytes of white space at the start of a line.
pub fn indent_of(line: &[char]) -> (r: u128)
    ensures
        r == indent(line@),
        r <= 4 * line@.len(),
{
    let mut r: u128 = 0;
    let mut i: usize = 0;
    proof {
        assert(line@.skip(0) == line@);
        assert(line@.take(0) == Seq::<char>::empty());
    }
    while i < line.len() && white(line[i])
        invariant
            i <= line@.len(),
            r == byte_len(line@.take(i as int)),
            r <= 4 * i,
            trim_start(line@) == trim_start(line@.skip(i as int)),
        decreases line.len() - i,
    {
        proof {
            assert(line@.skip(i as int).drop_first() == line@.skip(i + 1));
            assert(line@.take(i + 1).drop_last() == line@.take(i as int));
        }
        r = r + width(line[i]) as u128;
        i = i + 1;
    }
    proof {
        assert(line@.skip(i as int).len() == line@.len() - i);
    }
    r
}

/// The decimal digits of a number.
pub open spec fn decimal(n: nat) -> Seq<char>
    decreases n,
{
    let digit = ((n % 10) + 48) as char;
    if n < 10 {
        seq![digit]
    } else {
        decimal(n / 10).push(digit)
    }
}

/// The decimal digits of a number.
pub fn decimal_text(n: u64) -> (r: String)
    ensures
        r@ == decimal(n as nat),
    decreases n,
{
    let digit: char = ((n % 10) as u8 + 48) as char;
    let mut r = if n < 10 {
        String::new()
    } else {
        decimal_text(n / 10)
    };
    r.push(digit);
    proof {
        if n < 10 {
            assert(r@ == seq![digit]);
        }
    }
    r
}

/// The first position at or after `from` with white space.
pub open spec fn find_white_from(s: Seq<char>, from: int) -> Option<int>
    decreases s.len() - from,
{
    if from < 0 || from >= s.len() {
        None
    } else if is_white(s[from]) {
        Some(from)
    } else {
        find_white_from(s, from + 1)
    }
}

/// Position of the first white space.
pub fn white_position(s: &[char]) -> (r: Option<usize>)
    ensures
        match r {
            Some(k) => find_white_from(s@, 0) == Some(k as int) && k < s@.len(),
            None => find_white_from(s@, 0) is None,
        },
{
    let mut i: usize = 0;
    while i < s.len()
        invariant
            i <= s@.len(),
            find_white_from(s@, 0) == find_white_from(s@, i as int),
        decreases s.len() - i,
    {
        if white(s[i]) {
            return Some(i);
        }
        i = i + 1;
    }
    None
}

/// The inside of a text in double or single quotes; any other text as it is.
pub open spec fn unquoted(s: Seq<char>) -> Seq<char> {
    if s.len() >= 2 && s[0] == s.last() && (s[0] == '"' || s[0] == '\'') {
        s.subrange(1, s.len() - 1)
    } else {
        s
    }
}

/// The inside of a text in double or single quotes.
pub fn unquote<'a>(s: &'a [char]) -> (r: &'a [char])
    ensures
        r@ == unquoted(s@),
{
    let n: usize = s.len();
    if n >= 2 && s[0] == s[n - 1] && (s[0] == '"' || s[0] == '\'') {
        vstd::slice::slice_subrange(s, 1, n - 1)
    } else {
        s
    }
}

/// The pieces of `s` between the occurrences of a non-empty text.
pub open spec fn split_text(s: Seq<char>, sep: Seq<char>) -> Seq<Seq<char>>
    decreases s.len(),
    when sep.len() > 0
    via split_text_decreases
{
    match find(s, sep) {
        Some(i) => seq![s.take(i)] + split_text(s.skip(i + sep.len()), sep),
        None => seq![s],
    }
}

#[via_fn]
proof fn split_text_decreases(s: Seq<char>, sep: Seq<char>) {
    lemma_find_from(s, sep, 0);
}

/// The pieces of `s` between the occurrences of a non-empty text.
pub fn pieces_around(s: &[char], sep: &[char]) -> (r: Vec<Vec<char>>)
    requires
        sep@.len() > 0,
    ensures
        texts(r@) == split_text(s@, sep@),
{
    let mut r: Vec<Vec<char>> = Vec::new();
    let mut start: usize = 0;
    let n: usize = s.len();
    let m: usize = sep.len();
    proof {
        assert(s@.skip(0) == s@);
        assert(texts(r@) + split_text(s@, sep@) == split_text(s@, sep@));
    }
    loop
        invariant
            n == s@.len(),
            m == sep@.len(),
            m > 0,
            start <= n,
            texts(r@) + split_text(s@.skip(start as int), sep@) == split_text(s@, sep@),
        decreases n - start,
    {
        let rest = vstd::slice::slice_subrange(s, start, n);
        let ghost before = r@;
        match find_text(rest, sep) {
            Some(i) => {
                let piece = vstd::slice::slice_to_vec(vstd::slice::slice_subrange(rest, 0, i));
                r.push(piece);
                proof {
                    assert(rest@ == s@.skip(start as int));
                    assert(piece@ == rest@.take(i as int));
                    assert(rest@.skip(i + m) == s@.skip(start + i + m));
                    assert(texts(r@) == texts(before).push(piece@));
                    assert(texts(before) + split_text(rest@, sep@) == texts(r@) + split_text(
                        s@.skip(start + i + m),
                        sep@,
                    ));
                }
                start = start + i + m;
            },
            None => {
                let piece = vstd::slice::slice_to_vec(rest);
                r.push(piece);
                proof {
                    assert(rest@ == s@.skip(start as int));
                    assert(texts(r@) == texts(before).push(piece@));
                    assert(split_text(rest@, sep@) == seq![rest@]);
                    assert(texts(before) + seq![rest@] == texts(r@));
                }
                return r;
            },
        }
    }
}

/// A list of strings as `{:?}` writes it.
pub uninterp spec fn debug_list(list: Seq<Seq<char>>) -> Seq<char>;

/// `format!` with `{:?}` of a vector of strings. The text is a function of the
/// strings alone; which it is is left unsaid.
#[verifier::external_body]
pub(crate) fn debug_list_text(list: &Vec<String>) -> (r: String)
    ensures
        r@ == debug_list(list.deep_view()),
{
    format!("{:?}", list)
}

/// The character at a byte offset, counted from character `k` on; `None` where
/// the offset lies inside a character or behind the end.
pub open spec fn char_index_from(s: Seq<char>, offset: int, k: int) -> Option<int>
    decreases s.len() - k,
{
    if offset == 0 {
        Some(k)
    } else if offset < 0 || k < 0 || k >= s.len() {
        None
    } else {
        char_index_from(s, offset - char_width(s[k]), k + 1)
    }
}

/// The character at a byte offset.
pub open spec fn char_index(s: Seq<char>, offset: nat) -> Option<int> {
    char_index_from(s, offset as int, 0)
}

/// The character at a byte offset.
pub fn index_of_byte(s: &[char], offset: usize) -> (r: Option<usize>)
    ensures
        match r {
            Some(k) => char_index(s@, offset as nat) == Some(k as int) && k <= s@.len(),
            None => char_index(s@, offset as nat) is None,
        },
{
    let mut left: usize = offset;
    let mut k: usize = 0;
    while left > 0
        invariant
            k <= s@.len(),
            char_index(s@, offset as nat) == char_index_from(s@, left as int, k as int),
        decreases left,
    {
        if k >= s.len() {
            return None;
        }
        let w: usize = width(s[k]);
        if w > left {
            proof {
                assert(char_index_from(s@, left - w, k + 1) is None);
            }
            return None;
        }
        left = left - w;
        k = k + 1;
    }
    Some(k)
}

/// The number of bytes of a text in UTF-8.
pub fn bytes_of(s: &[char]) -> (r: u128)
    ensures
        r == byte_len(s@),
        r <= 4 * usize::MAX,
{
    let mut n: u128 = 0;
    let mut i: usize = 0;
    proof {
        assert(s@.take(0).len() == 0);
    }
    while i < s.len()
        invariant
            i <= s@.len(),
            n == byte_len(s@.take(i as int)),
            n <= 4 * i,
        decreases s.len() - i,
    {
        proof {
            assert(s@.take(i + 1).drop_last() == s@.take(i as int));
        }
        n = n + width(s[i]) as u128;
        i = i + 1;
    }
    proof {
        assert(s@.take(i as int) == s@);
        assert(i <= usize::MAX);
    }
    n
}

} // verus!

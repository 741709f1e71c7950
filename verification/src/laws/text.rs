//! What the words that the contracts are written in say of texts.
use vstd::prelude::*;
use crate::strmap::{ascending, before, lemma_listing, sorted_keys};
use crate::text::{
    byte_len, decimal, find_char, indent, is_white, join, lemma_find_char, lemma_find_char_at,
    lemma_find_char_none, lemma_split_once_at, lemma_trim_start_len, lines, replace_char, spaces,
    split, split_once, strip_prefix, strip_suffix, to_lower, trim, trim_end, trim_end_char,
    trim_start, trim_start_char, unquoted, until,
};

verus! {

/// Spaces, tabs and line breaks are white; letters, digits and the other visible
/// characters of ASCII are not.
pub proof fn law_white_space(c: char)
    ensures
        c == ' ' || c == '\t' || c == '\n' || c == '\r' ==> is_white(c),
        '!' <= c <= '~' ==> !is_white(c),
{
}

/// What is left of a text without white space in front: nothing but white space is gone,
/// and none is in front.
pub proof fn law_trim_start(s: Seq<char>)
    ensures
        trim_start(s).len() <= s.len(),
        trim_start(s) == s.skip(s.len() - trim_start(s).len()),
        forall|i: int| 0 <= i < s.len() - trim_start(s).len() ==> is_white(#[trigger] s[i]),
        trim_start(s).len() > 0 ==> !is_white(trim_start(s)[0]),
    decreases s.len(),
{
    lemma_trim_start_len(s);
    if s.len() > 0 && is_white(s[0]) {
        let t = s.drop_first();
        law_trim_start(t);
        assert forall|i: int| 0 <= i < s.len() - trim_start(s).len() implies is_white(
            #[trigger] s[i],
        ) by {
            if i > 0 {
                assert(s[i] == t[i - 1]);
            }
        }
    }
}

/// What is left of a text without white space at its end: nothing but white space is
/// gone, and none is at its end.
pub proof fn law_trim_end(s: Seq<char>)
    ensures
        trim_end(s).len() <= s.len(),
        trim_end(s) == s.take(trim_end(s).len() as int),
        forall|i: int| trim_end(s).len() <= i < s.len() ==> is_white(#[trigger] s[i]),
        trim_end(s).len() > 0 ==> !is_white(trim_end(s).last()),
    decreases s.len(),
{
    if s.len() > 0 && is_white(s.last()) {
        let t = s.drop_last();
        law_trim_end(t);
        assert(trim_end(s) =~= s.take(trim_end(s).len() as int));
        assert forall|i: int| trim_end(s).len() <= i < s.len() implies is_white(#[trigger] s[i]) by {
            if i < t.len() {
                assert(s[i] == t[i]);
            }
        }
    } else {
        assert(s.take(s.len() as int) =~= s);
    }
}

/// A text without white space at its ends is left as it is; one with white space around
/// it loses that.
pub proof fn law_trim(a: Seq<char>, s: Seq<char>, b: Seq<char>)
    requires
        s.len() > 0 && !is_white(s[0]) && !is_white(s.last()),
        forall|i: int| 0 <= i < a.len() ==> is_white(#[trigger] a[i]),
        forall|i: int| 0 <= i < b.len() ==> is_white(#[trigger] b[i]),
    ensures
        trim(a + s + b) == s,
        trim_end(a + s + b) == a + s,
        trim_start(s + b) == s + b,
{
    lemma_trim_end(a + s, b);
    lemma_trim_start(a, s);
    assert((a + s).last() == s.last());
    assert((s + b)[0] == s[0]);
}

proof fn lemma_trim_end(s: Seq<char>, b: Seq<char>)
    requires
        s.len() > 0 && !is_white(s.last()),
        forall|i: int| 0 <= i < b.len() ==> is_white(#[trigger] b[i]),
    ensures
        trim_end(s + b) == s,
    decreases b.len(),
{
    if b.len() > 0 {
        let c = b.drop_last();
        assert forall|i: int| 0 <= i < c.len() implies is_white(#[trigger] c[i]) by {
            assert(c[i] == b[i]);
        }
        assert(b[b.len() - 1] == (s + b).last());
        assert((s + b).drop_last() =~= s + c);
        lemma_trim_end(s, c);
    } else {
        assert(s + b =~= s);
    }
}

proof fn lemma_trim_start(a: Seq<char>, s: Seq<char>)
    requires
        s.len() > 0 && !is_white(s[0]),
        forall|i: int| 0 <= i < a.len() ==> is_white(#[trigger] a[i]),
    ensures
        trim_start(a + s) == s,
    decreases a.len(),
{
    if a.len() > 0 {
        let c = a.drop_first();
        assert forall|i: int| 0 <= i < c.len() implies is_white(#[trigger] c[i]) by {
            assert(c[i] == a[i + 1]);
        }
        assert((a + s)[0] == a[0]);
        assert((a + s).drop_first() =~= c + s);
        lemma_trim_start(c, s);
    } else {
        assert(a + s =~= s);
    }
}

/// A line that starts with `n` spaces is `n` deep.
pub proof fn law_indent(n: nat, s: Seq<char>)
    requires
        s.len() > 0 && !is_white(s[0]),
    ensures
        indent(spaces(n) + s) == n,
        trim_start(spaces(n) + s) == s,
{
    let line = spaces(n) + s;
    assert forall|i: int| 0 <= i < spaces(n).len() implies is_white(#[trigger] spaces(n)[i]) by {}
    lemma_trim_start(spaces(n), s);
    assert(line.take(line.len() - s.len()) =~= spaces(n));
    lemma_spaces_len(n);
}

proof fn lemma_spaces_len(n: nat)
    ensures
        byte_len(spaces(n)) == n,
    decreases n,
{
    if n > 0 {
        assert(spaces(n).drop_last() =~= spaces((n - 1) as nat));
        assert(spaces(n).last() == ' ');
        lemma_spaces_len((n - 1) as nat);
    }
}

/// The pieces of a text between the occurrences of a character: with the character
/// between them they are the text again, and none of them holds it.
pub proof fn law_split(s: Seq<char>, c: char)
    ensures
        split(s, c).len() > 0,
        join(split(s, c), seq![c]) == s,
        forall|i: int| 0 <= i < split(s, c).len() ==> !(#[trigger] split(s, c)[i]).contains(c),
    decreases s.len(),
{
    lemma_find_char(s, c);
    match find_char(s, c) {
        Some(k) => {
            let (a, rest) = (s.take(k), s.skip(k + 1));
            law_split(rest, c);
            let tail = split(rest, c);
            lemma_join_first(a, tail, seq![c]);
            assert(a + seq![c] + rest =~= s);
            assert(!a.contains(c)) by {
                assert forall|i: int| 0 <= i < a.len() implies a[i] != c by {
                    assert(a[i] == s[i]);
                }
            }
            let all = seq![a] + tail;
            assert forall|i: int| 0 <= i < all.len() implies !(#[trigger] all[i]).contains(c) by {
                if i > 0 {
                    assert(all[i] == tail[i - 1]);
                }
            }
        },
        None => {
            assert(!s.contains(c));
        },
    }
}

proof fn lemma_join_first(a: Seq<char>, rest: Seq<Seq<char>>, sep: Seq<char>)
    requires
        rest.len() > 0,
    ensures
        join(seq![a] + rest, sep) == a + sep + join(rest, sep),
    decreases rest.len(),
{
    let all = seq![a] + rest;
    if rest.len() == 1 {
        assert(all.drop_last() =~= seq![a]);
        assert(all.last() == rest[0]);
        assert(join(seq![a], sep) == a);
    } else {
        lemma_join_first(a, rest.drop_last(), sep);
        assert(all.drop_last() =~= seq![a] + rest.drop_last());
        assert(all.last() == rest.last());
        assert(a + sep + join(rest.drop_last(), sep) + sep + rest.last() =~= a + sep + (join(
            rest.drop_last(),
            sep,
        ) + sep + rest.last()));
    }
}

/// What stands behind a prefix, before a suffix, and around the first occurrence of a
/// character.
pub proof fn law_parts(a: Seq<char>, b: Seq<char>, c: char)
    ensures
        strip_prefix(a + b, a) == Some(b),
        strip_suffix(a + b, b) == Some(a),
        !a.is_prefix_of(b) ==> strip_prefix(b, a) is None,
        !a.is_suffix_of(b) ==> strip_suffix(b, a) is None,
        !a.contains(c) ==> split_once(a + seq![c] + b, c) == Some((a, b)),
        !a.contains(c) ==> until(a + seq![c] + b, c) == a,
        !a.contains(c) ==> until(a, c) == a && split_once(a, c) is None,
{
    let s = a + b;
    assert(s.take(a.len() as int) =~= a);
    assert(s.skip(a.len() as int) =~= b);
    assert(s.subrange(s.len() - b.len(), s.len() as int) =~= b);
    assert(s.take(s.len() - b.len()) =~= a);
    if !a.contains(c) {
        lemma_split_once_at(a, c, b);
        lemma_find_char(a + seq![c] + b, c);
        lemma_find_char_none(a, c);
    }
}

/// A text in quotes stands for what is inside them; one without stands for itself.
pub proof fn law_unquoted(s: Seq<char>)
    ensures
        unquoted(seq!['"'] + s + seq!['"']) == s,
        unquoted(seq!['\''] + s + seq!['\'']) == s,
        s.len() > 0 && s[0] != '"' && s[0] != '\'' ==> unquoted(s) == s,
{
    let (a, b) = (seq!['"'] + s + seq!['"'], seq!['\''] + s + seq!['\'']);
    assert(a.subrange(1, a.len() - 1) =~= s);
    assert(b.subrange(1, b.len() - 1) =~= s);
}

/// The small form of a text: a letter for each letter, and nothing else changes.
pub proof fn law_small_letters(s: Seq<char>, i: int)
    requires
        0 <= i < s.len(),
    ensures
        to_lower(s).len() == s.len(),
        'A' <= s[i] <= 'Z' ==> to_lower(s)[i] as int == s[i] as int + 32,
        !('A' <= s[i] <= 'Z') ==> to_lower(s)[i] == s[i],
{
    if 'A' <= s[i] <= 'Z' {
        assert((s[i] as int + 32) as char as int == s[i] as int + 32);
    }
}

/// One character in the place of another.
pub proof fn law_replaced(s: Seq<char>, a: char, b: char, i: int)
    requires
        0 <= i < s.len(),
    ensures
        replace_char(s, a, b).len() == s.len(),
        s[i] == a ==> replace_char(s, a, b)[i] == b,
        s[i] != a ==> replace_char(s, a, b)[i] == s[i],
{
}

/// The characters that are left of a text without those in front, or at its end, that
/// equal one.
pub proof fn law_trimmed_characters(s: Seq<char>, c: char)
    ensures
        s.len() > 0 && s[0] == c ==> trim_start_char(s, c) == trim_start_char(s.drop_first(), c),
        s.len() > 0 && s[0] != c ==> trim_start_char(s, c) == s,
        s.len() > 0 && s.last() == c ==> trim_end_char(s, c) == trim_end_char(s.drop_last(), c),
        s.len() > 0 && s.last() != c ==> trim_end_char(s, c) == s,
        s.len() == 0 ==> trim_start_char(s, c) == s && trim_end_char(s, c) == s,
{
}

/// The number that some decimal digits spell.
pub open spec fn number(s: Seq<char>) -> int
    decreases s.len(),
{
    if s.len() == 0 {
        0
    } else {
        10 * number(s.drop_last()) + (s.last() as int - '0' as int)
    }
}

/// The digits of a number spell it, and are digits.
pub proof fn law_decimal(n: nat)
    ensures
        number(decimal(n)) == n,
        decimal(n).len() > 0,
        forall|i: int| 0 <= i < decimal(n).len() ==> '0' <= #[trigger] decimal(n)[i] <= '9',
        n > 0 ==> decimal(n)[0] != '0',
    decreases n,
{
    let d = ((n % 10) + 48) as char;
    assert(d as int == n % 10 + 48);
    if n < 10 {
        let s = seq![d];
        assert(s.drop_last() =~= Seq::empty());
        assert(number(s.drop_last()) == 0);
        assert(s.last() == d);
    } else {
        law_decimal(n / 10);
        let s = decimal(n / 10).push(d);
        assert(s.drop_last() =~= decimal(n / 10));
        assert(s[0] == decimal(n / 10)[0]);
    }
}

/// Keys are in order by their first characters that differ; a key stands before those
/// that it is the start of.
pub proof fn law_order(a: Seq<char>, x: char, y: char, b: Seq<char>, c: Seq<char>)
    ensures
        (x as int) < (y as int) ==> before(a + seq![x] + b, a + seq![y] + c),
        before(a, a + seq![x] + b),
        !before(a + seq![x] + b, a),
    decreases a.len(),
{
    let (p, q) = (a + seq![x] + b, a + seq![y] + c);
    if a.len() > 0 {
        let t = a.drop_first();
        law_order(t, x, y, b, c);
        assert(p.drop_first() =~= t + seq![x] + b);
        assert(q.drop_first() =~= t + seq![y] + c);
        assert(p[0] == a[0] && q[0] == a[0]);
    } else {
        assert(p[0] == x && q[0] == y);
    }
}

/// The keys of a set are listed in order, each of them.
pub proof fn law_sorted_keys(keys: Set<Seq<char>>, k: Seq<char>)
    requires
        keys.finite(),
    ensures
        sorted_keys(keys).contains(k) <==> keys.contains(k),
        forall|i: int, j: int|
            0 <= i < j < sorted_keys(keys).len() ==> before(
                sorted_keys(keys)[i],
                sorted_keys(keys)[j],
            ),
{
    lemma_listing(keys);
    let q = sorted_keys(keys);
    assert(ascending(q));
    assert forall|i: int, j: int| 0 <= i < j < q.len() implies before(q[i], q[j]) by {}
}

/// The lines of a text are told apart by the line feeds, and a carriage return in front of
/// one belongs to it. A last line may be without.
pub proof fn law_lines(l: Seq<char>, rest: Seq<char>)
    requires
        !l.contains('\n'),
        l.len() > 0 ==> l.last() != '\r',
    ensures
        lines(l + seq!['\n'] + rest) == seq![l] + lines(rest),
        lines(l + seq!['\r', '\n'] + rest) == seq![l] + lines(rest),
        l.len() > 0 ==> lines(l) == seq![l],
        lines(Seq::<char>::empty()).len() == 0,
{
    let (a, b) = (l + seq!['\n'] + rest, l + seq!['\r', '\n'] + rest);
    let n = l.len() as int;
    lemma_find_char_none(l, '\n');
    lemma_find_char_none(Seq::<char>::empty(), '\n');
    assert forall|j: int| 0 <= j < n implies l[j] != '\n' by {
        assert(l.contains(l[j]));
    }
    lemma_find_char_at(a, '\n', n);
    lemma_find_char_at(b, '\n', n + 1);
    assert(a.take(n) =~= l && a.skip(n + 1) =~= rest);
    assert(b.take(n + 1) =~= l.push('\r') && b.skip(n + 2) =~= rest);
    assert(l.push('\r').drop_last() =~= l);
}

} // verus!

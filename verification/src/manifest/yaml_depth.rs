//! How deeply the blocks of a YAML text can nest.
//!
//! The parser behind the comment-preserving edits keeps a stack of the open
//! block levels and ends the process where it grows too high. What is counted
//! here is never less than the height of that stack, in valid texts and in
//! broken ones.
use vstd::prelude::*;
use crate::text::{
    find_char, lemma_find_char, lemma_trim_start_len, pieces, replace_char, split, starts_with,
    texts, trim_start, trim_start_char, trimmed_start, without_leading,
};

verus! {

/// The end of a text, or white space.
pub open spec fn is_gap(s: Seq<char>, i: int) -> bool {
    i >= s.len() || s[i] == ' ' || s[i] == '\t' || s[i] == '\n' || s[i] == '\r' || s[i] == '\0'
}

/// A sign that can open a block level: an item, a key, a value or a block scalar.
pub open spec fn is_opener(s: Seq<char>, i: int) -> bool {
    s[i] == '|' || s[i] == '>' || ((s[i] == '-' || s[i] == '?' || s[i] == ':') && is_gap(s, i + 1))
}

/// The number of such signs among the first `n` characters.
pub open spec fn openers_before(s: Seq<char>, n: int) -> nat
    decreases n,
{
    if n <= 0 {
        0
    } else {
        openers_before(s, n - 1) + if is_opener(s, n - 1) {
            1nat
        } else {
            0
        }
    }
}

/// The number of such signs in a row.
pub open spec fn openers(row: Seq<char>) -> nat {
    openers_before(row, row.len() as int)
}

/// The rows of a text. Line feeds and carriage returns end a row.
pub open spec fn rows(s: Seq<char>) -> Seq<Seq<char>> {
    split(replace_char(s, '\r', '\n'), '\n')
}

/// The number of spaces that a row starts with.
pub open spec fn column(row: Seq<char>) -> nat {
    (row.len() - trim_start_char(row, ' ').len()) as nat
}

/// A row that can open levels without closing any first: one that is indented
/// with a tab, closes a flow collection, or separates documents.
pub open spec fn is_odd(row: Seq<char>) -> bool {
    let body = trim_start(row);
    &&& openers(row) > 0
    &&& {
        ||| row.take(row.len() - body.len()).contains('\t')
        ||| "]"@.is_prefix_of(body)
        ||| "}"@.is_prefix_of(body)
        ||| "%"@.is_prefix_of(body)
        ||| "---"@.is_prefix_of(body)
        ||| "..."@.is_prefix_of(body)
    }
}

/// Whether none of the first `n` rows is odd.
pub open spec fn is_even(q: Seq<Seq<char>>, n: int) -> bool {
    forall|i: int| 0 <= i < n ==> !is_odd(#[trigger] q[i])
}

/// The number of opening signs in the first `n` rows.
pub open spec fn total(q: Seq<Seq<char>>, n: int) -> nat
    decreases n,
{
    if n <= 0 {
        0
    } else {
        total(q, n - 1) + openers(q[n - 1])
    }
}

/// The largest number of opening signs in one of the first `n` rows.
pub open spec fn most(q: Seq<Seq<char>>, n: int) -> nat
    decreases n,
{
    if n <= 0 {
        0
    } else if openers(q[n - 1]) > most(q, n - 1) {
        openers(q[n - 1])
    } else {
        most(q, n - 1)
    }
}

/// The length of the longest of the first `n` rows.
pub open spec fn longest(q: Seq<Seq<char>>, n: int) -> nat
    decreases n,
{
    if n <= 0 {
        0
    } else if q[n - 1].len() > longest(q, n - 1) {
        q[n - 1].len()
    } else {
        longest(q, n - 1)
    }
}

/// The largest number of opening signs in one of the first `n` rows that start at
/// a column.
pub open spec fn peak(q: Seq<Seq<char>>, n: int, c: nat) -> nat
    decreases n,
{
    if n <= 0 {
        0
    } else if column(q[n - 1]) == c && openers(q[n - 1]) > peak(q, n - 1, c) {
        openers(q[n - 1])
    } else {
        peak(q, n - 1, c)
    }
}

/// For each column at which one of the first `n` rows opens a level, the largest
/// number of signs in a row there, and three.
pub open spec fn spread(q: Seq<Seq<char>>, n: int) -> nat
    decreases n,
{
    if n <= 0 {
        0
    } else {
        let (k, p) = (openers(q[n - 1]), peak(q, n - 1, column(q[n - 1])));
        spread(q, n - 1) + if k <= p {
            0
        } else if p == 0 {
            k + 3
        } else {
            (k - p) as nat
        }
    }
}

/// The number of rows, and of characters in a row, that the parser can count.
pub const MAX_COUNT: u128 = 0x8000;

/// The number of block levels that are open at once at most, wherever the text is
/// broken.
///
/// Each level is opened at a sign of its own, so there are no more levels than
/// signs. A level stands no further left than the row that opened it, and a row
/// that opens levels has closed all those at its own column or to the right of it
/// but for two. So at each column there are two levels at most besides those of
/// one row. That holds where no row is odd, and where rows and columns can be
/// counted.
pub open spec fn levels(s: Seq<char>) -> nat {
    let q = rows(s);
    let n = q.len() as int;
    if is_even(q, n) && n < MAX_COUNT && longest(q, n) < MAX_COUNT && spread(q, n) < total(q, n) {
        spread(q, n)
    } else {
        total(q, n)
    }
}

/// The number of block levels that are open at once at most in a text of which a
/// part was replaced by a value. In the new text stand rows of the old one, rows
/// of `written` or `raw`, and two rows that are joined of both. Three signs may
/// come in at the joints.
pub open spec fn joined_levels(s: Seq<char>, written: Seq<char>, raw: Seq<char>) -> nat {
    let (q, a, b) = (rows(s), rows(written), rows(raw));
    let (n, i, j) = (q.len() as int, a.len() as int, b.len() as int);
    let all = total(q, n) + total(a, i) + total(b, j) + 3;
    let wide = spread(q, n) + total(a, i) + total(b, j) + 3 * (i + j) + 2 * most(q, n) + 6;
    if is_even(q, n) && is_even(a, i) && is_even(b, j) && n + i + j + 2 < MAX_COUNT && 2 * longest(
        q,
        n,
    ) + longest(a, i) + longest(b, j) + 4 < MAX_COUNT && wide < all {
        wide as nat
    } else {
        all
    }
}

proof fn lemma_openers(s: Seq<char>, n: int)
    ensures
        openers_before(s, n) <= if n <= 0 {
            0
        } else {
            n
        },
    decreases n,
{
    if n > 0 {
        lemma_openers(s, n - 1);
    }
}

proof fn lemma_column(s: Seq<char>)
    ensures
        trim_start_char(s, ' ').len() <= s.len(),
    decreases s.len(),
{
    if s.len() > 0 && s[0] == ' ' {
        lemma_column(s.drop_first());
    }
}

proof fn lemma_total_cons(x: Seq<char>, q: Seq<Seq<char>>, n: int)
    requires
        0 <= n <= q.len(),
    ensures
        total(seq![x] + q, n + 1) == openers(x) + total(q, n),
    decreases n,
{
    let all = seq![x] + q;
    if n > 0 {
        lemma_total_cons(x, q, n - 1);
        assert(all[n] == q[n - 1]);
    } else {
        assert(all[0] == x);
        assert(total(all, 0) == 0);
    }
}

/// There are no more signs than characters.
proof fn lemma_total(s: Seq<char>)
    ensures
        total(split(s, '\n'), split(s, '\n').len() as int) <= s.len(),
    decreases s.len(),
{
    lemma_find_char(s, '\n');
    match find_char(s, '\n') {
        Some(i) => {
            let rest = s.skip(i + 1);
            let q = split(rest, '\n');
            lemma_total(rest);
            lemma_openers(s.take(i), i);
            lemma_total_cons(s.take(i), q, q.len() as int);
        },
        None => {
            lemma_openers(s, s.len() as int);
            assert(total(seq![s], 0) == 0);
        },
    }
}

fn count_openers(row: &[char]) -> (r: usize)
    ensures
        r == openers(row@),
        r <= row@.len(),
{
    let mut r: usize = 0;
    let mut i: usize = 0;
    while i < row.len()
        invariant
            i <= row@.len(),
            r == openers_before(row@, i as int),
            r <= i,
        decreases row.len() - i,
    {
        let c = row[i];
        let gap = i + 1 >= row.len() || row[i + 1] == ' ' || row[i + 1] == '\t' || row[i + 1]
            == '\n' || row[i + 1] == '\r' || row[i + 1] == '\0';
        if c == '|' || c == '>' || ((c == '-' || c == '?' || c == ':') && gap) {
            r = r + 1;
        }
        i = i + 1;
    }
    r
}

fn row_is_odd(row: &[char]) -> (r: bool)
    ensures
        r == is_odd(row@),
{
    if count_openers(row) == 0 {
        return false;
    }
    let body = trimmed_start(row);
    proof {
        lemma_trim_start_len(row@);
    }
    let n: usize = row.len() - body.len();
    let ghost lead = row@.take(n as int);
    let mut i: usize = 0;
    while i < n
        invariant
            i <= n <= row@.len(),
            n == row@.len() - trim_start(row@).len(),
            openers(row@) > 0,
            lead == row@.take(n as int),
            forall|j: int| 0 <= j < i ==> lead[j] != '\t',
        decreases n - i,
    {
        if row[i] == '\t' {
            proof {
                assert(lead[i as int] == '\t');
                assert(lead.contains('\t'));
            }
            return true;
        }
        i = i + 1;
    }
    starts_with(body, "]") || starts_with(body, "}") || starts_with(body, "%") || starts_with(
        body,
        "---",
    ) || starts_with(body, "...")
}

/// What is counted in a text.
pub(crate) struct Survey {
    pub rows: u128,
    pub longest: u128,
    pub most: u128,
    pub total: u128,
    /// The spread, where rows and columns can be counted, and otherwise nothing.
    pub spread: u128,
    pub is_even: bool,
}

/// Whether a survey is that of a text.
pub(crate) open spec fn is_survey_of(v: Survey, s: Seq<char>) -> bool {
    let q = rows(s);
    let n = q.len() as int;
    &&& v.rows == n
    &&& v.longest == longest(q, n)
    &&& v.most == most(q, n)
    &&& v.total == total(q, n)
    &&& v.is_even == is_even(q, n)
    &&& v.rows < MAX_COUNT && v.longest < MAX_COUNT ==> v.spread == spread(q, n)
    &&& v.rows <= 0xffff_ffff_ffff_ffff
    &&& v.longest <= 0xffff_ffff_ffff_ffff
    &&& v.most <= 0xffff_ffff_ffff_ffff
    &&& v.total <= 0xffff_ffff_ffff_ffff
    &&& v.spread <= 0x1_0000_0000
}

fn split_rows(s: &[char]) -> (r: Vec<Vec<char>>)
    ensures
        texts(r@) == rows(s@),
{
    let mut t: Vec<char> = Vec::new();
    let mut i: usize = 0;
    while i < s.len()
        invariant
            i <= s@.len(),
            t@ == replace_char(s@, '\r', '\n').take(i as int),
        decreases s.len() - i,
    {
        let c = if s[i] == '\r' {
            '\n'
        } else {
            s[i]
        };
        t.push(c);
        proof {
            assert(t@ =~= replace_char(s@, '\r', '\n').take(i + 1));
        }
        i = i + 1;
    }
    proof {
        assert(t@ =~= replace_char(s@, '\r', '\n'));
    }
    pieces(t.as_slice(), '\n')
}

fn spread_of(q: &Vec<Vec<char>>) -> (r: u128)
    requires
        q@.len() < MAX_COUNT,
        forall|i: int| 0 <= i < q@.len() ==> (#[trigger] q@[i])@.len() < MAX_COUNT,
    ensures
        r == spread(texts(q@), q@.len() as int),
        r <= 0x1_0000_0000,
{
    let ghost all = texts(q@);
    let mut peaks: Vec<usize> = Vec::new();
    let mut r: u128 = 0;
    let mut i: usize = 0;
    while i < q.len()
        invariant
            all == texts(q@),
            i <= q@.len() < MAX_COUNT,
            forall|i: int| 0 <= i < q@.len() ==> (#[trigger] q@[i])@.len() < MAX_COUNT,
            r == spread(all, i as int),
            r <= i * 0x8003,
            forall|c: int|
                0 <= c < peaks@.len() ==> #[trigger] peaks@[c] == peak(all, i as int, c as nat),
            forall|c: nat| c >= peaks@.len() ==> #[trigger] peak(all, i as int, c) == 0,
        decreases q.len() - i,
    {
        let row = q[i].as_slice();
        proof {
            assert(all[i as int] == row@);
            lemma_column(row@);
        }
        let k: usize = count_openers(row);
        let c: usize = row.len() - without_leading(row, ' ').len();
        let ghost before = peaks@;
        while peaks.len() <= c
            invariant
                before.len() <= peaks@.len(),
                forall|d: int|
                    0 <= d < peaks@.len() ==> #[trigger] peaks@[d] == peak(
                        all,
                        i as int,
                        d as nat,
                    ),
                forall|d: nat| d >= before.len() ==> #[trigger] peak(all, i as int, d) == 0,
            decreases c + 1 - peaks.len(),
        {
            proof {
                assert(peak(all, i as int, peaks@.len()) == 0);
            }
            peaks.push(0);
        }
        let p: usize = peaks[c];
        proof {
            assert(p == peak(all, i as int, c as nat));
        }
        if k > p {
            r = r + if p == 0 {
                k as u128 + 3
            } else {
                (k - p) as u128
            };
            peaks.set(c, k);
        }
        proof {
            assert forall|d: int| 0 <= d < peaks@.len() implies #[trigger] peaks@[d] == peak(
                all,
                i + 1,
                d as nat,
            ) by {
                assert(peak(all, i as int, d as nat) == if d == c {
                    p
                } else {
                    peaks@[d]
                });
            }
            assert forall|d: nat| d >= peaks@.len() implies #[trigger] peak(all, i + 1, d) == 0 by {
                assert(peak(all, i as int, d) == 0);
            }
        }
        i = i + 1;
    }
    r
}

/// What is counted in a text.
pub(crate) fn survey(s: &[char]) -> (r: Survey)
    ensures
        is_survey_of(r, s@),
{
    let q = split_rows(s);
    let ghost all = texts(q@);
    let mut longest: u128 = 0;
    let mut most: u128 = 0;
    let mut total: u128 = 0;
    let mut is_even = true;
    let mut i: usize = 0;
    while i < q.len()
        invariant
            all == texts(q@),
            i <= q@.len(),
            longest == self::longest(all, i as int),
            most == self::most(all, i as int),
            total == self::total(all, i as int),
            is_even == self::is_even(all, i as int),
            longest <= 0xffff_ffff_ffff_ffff,
            most <= 0xffff_ffff_ffff_ffff,
            total <= i * 0xffff_ffff_ffff_ffff,
            forall|j: int| 0 <= j < i ==> (#[trigger] q@[j])@.len() <= longest,
        decreases q.len() - i,
    {
        let row = q[i].as_slice();
        proof {
            assert(all[i as int] == row@);
        }
        let k: u128 = count_openers(row) as u128;
        let n: u128 = row.len() as u128;
        let odd = row_is_odd(row);
        if n > longest {
            longest = n;
        }
        if k > most {
            most = k;
        }
        total = total + k;
        proof {
            if is_even && !odd {
                assert(self::is_even(all, i + 1));
            } else if odd {
                assert(is_odd(all[i as int]));
            } else {
                let j = choose|j: int| 0 <= j < i && is_odd(#[trigger] all[j]);
                assert(is_odd(all[j]));
            }
        }
        is_even = is_even && !odd;
        i = i + 1;
    }
    let size: usize = s.len();
    proof {
        lemma_total(replace_char(s@, '\r', '\n'));
        assert(total <= size);
    }
    let rows: u128 = q.len() as u128;
    let spread: u128 = if rows < MAX_COUNT && longest < MAX_COUNT {
        spread_of(&q)
    } else {
        0
    };
    Survey { rows, longest, most, total, spread, is_even }
}

/// The number of block levels that are open at once at most.
pub(crate) fn levels_of(s: &[char]) -> (r: u128)
    ensures
        r == levels(s@),
{
    let v = survey(s);
    if v.is_even && v.rows < MAX_COUNT && v.longest < MAX_COUNT && v.spread < v.total {
        v.spread
    } else {
        v.total
    }
}

/// The number of block levels that are open at once at most in a text of which a
/// part was replaced by a value.
pub(crate) fn joined_levels_of(s: &[char], written: &[char], raw: &[char]) -> (r: u128)
    ensures
        r == joined_levels(s@, written@, raw@),
{
    let v = survey(s);
    let a = survey(written);
    let b = survey(raw);
    let all: u128 = v.total + a.total + b.total + 3;
    if v.is_even && a.is_even && b.is_even && v.rows + a.rows + b.rows + 2 < MAX_COUNT && 2
        * v.longest + a.longest + b.longest + 4 < MAX_COUNT {
        let wide: u128 = v.spread + a.total + b.total + 3 * (a.rows + b.rows) + 2 * v.most + 6;
        if wide < all {
            return wide;
        }
    }
    all
}

} // verus!

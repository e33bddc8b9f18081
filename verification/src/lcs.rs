//! The longest sequence of characters that two strings have in common, in
//! the order in which both hold them.

use vstd::prelude::*;
use vstd::std_specs::iter::IteratorSpec;

verus! {

/// The length of the longest common subsequence of the first `i`
/// characters of `a` and the first `j` characters of `b`.
pub open spec fn lcs_len(a: Seq<char>, b: Seq<char>, i: int, j: int) -> nat
    decreases i + j,
{
    if i <= 0 || j <= 0 {
        0
    } else if a[i - 1] == b[j - 1] {
        lcs_len(a, b, i - 1, j - 1) + 1
    } else if lcs_len(a, b, i - 1, j) >= lcs_len(a, b, i, j - 1) {
        lcs_len(a, b, i - 1, j)
    } else {
        lcs_len(a, b, i, j - 1)
    }
}

/// The way back from the place `(i, j)`: `|` where the two characters are
/// equal, `>` where the first string gives up a character, `<` where the
/// second one does, and a blank at the border.
pub open spec fn mark(a: Seq<char>, b: Seq<char>, i: int, j: int) -> char {
    if i <= 0 || j <= 0 {
        ' '
    } else if a[i - 1] == b[j - 1] {
        '|'
    } else if lcs_len(a, b, i - 1, j) >= lcs_len(a, b, i, j - 1) {
        '>'
    } else {
        '<'
    }
}

/// The common subsequence that the marks lead to from the place `(i, j)`.
pub open spec fn lcs_by_marks(a: Seq<char>, b: Seq<char>, i: int, j: int) -> Seq<char>
    decreases i + j,
{
    if i <= 0 || j <= 0 {
        Seq::empty()
    } else if a[i - 1] == b[j - 1] {
        lcs_by_marks(a, b, i - 1, j - 1).push(a[i - 1])
    } else if lcs_len(a, b, i - 1, j) >= lcs_len(a, b, i, j - 1) {
        lcs_by_marks(a, b, i - 1, j)
    } else {
        lcs_by_marks(a, b, i, j - 1)
    }
}

/// The common subsequence that the lengths lead to from the place
/// `(i, j)`: where the two characters differ and the lengths are equal, the
/// second string gives up a character.
pub open spec fn lcs_by_lengths(a: Seq<char>, b: Seq<char>, i: int, j: int) -> Seq<char>
    decreases i + j,
{
    if i <= 0 || j <= 0 || lcs_len(a, b, i, j) == 0 {
        Seq::empty()
    } else if a[i - 1] == b[j - 1] {
        lcs_by_lengths(a, b, i - 1, j - 1).push(a[i - 1])
    } else if lcs_len(a, b, i - 1, j) > lcs_len(a, b, i, j - 1) {
        lcs_by_lengths(a, b, i - 1, j)
    } else {
        lcs_by_lengths(a, b, i, j - 1)
    }
}

/// `x` can be had from the first `i` characters of `s` by leaving
/// characters out.
pub open spec fn within(x: Seq<char>, s: Seq<char>, i: int) -> bool
    decreases i,
{
    if x.len() == 0 {
        true
    } else if i <= 0 {
        false
    } else {
        (x.last() == s[i - 1] && within(x.drop_last(), s, i - 1)) || within(x, s, i - 1)
    }
}

/// The character `p` of `a` is the character `q` of `b`, counted from 1.
pub open spec fn same_at(a: Seq<char>, b: Seq<char>, p: int, q: int) -> bool {
    a[p - 1] == b[q - 1]
}

/// A common subsequence is no longer than either string.
pub proof fn lemma_lcs_len_bound(a: Seq<char>, b: Seq<char>, i: int, j: int)
    requires
        0 <= i,
        0 <= j,
    ensures
        lcs_len(a, b, i, j) <= i,
        lcs_len(a, b, i, j) <= j,
    decreases i + j,
{
    if i > 0 && j > 0 {
        lemma_lcs_len_bound(a, b, i - 1, j - 1);
        lemma_lcs_len_bound(a, b, i - 1, j);
        lemma_lcs_len_bound(a, b, i, j - 1);
    }
}

/// The strings have a common subsequence where they have a character in
/// common.
pub proof fn lemma_lcs_len_of_match(a: Seq<char>, b: Seq<char>, i: int, j: int, p: int, q: int)
    requires
        1 <= p <= i,
        1 <= q <= j,
        a[p - 1] == b[q - 1],
    ensures
        lcs_len(a, b, i, j) > 0,
    decreases i + j,
{
    if a[i - 1] != b[j - 1] {
        if p < i {
            lemma_lcs_len_of_match(a, b, i - 1, j, p, q);
        } else {
            lemma_lcs_len_of_match(a, b, i, j - 1, p, q);
        }
    }
}

/// The strings have a character in common where they have a common
/// subsequence.
pub proof fn lemma_match_of_lcs_len(a: Seq<char>, b: Seq<char>, i: int, j: int)
    requires
        lcs_len(a, b, i, j) > 0,
    ensures
        exists|p: int, q: int| 1 <= p <= i && 1 <= q <= j && #[trigger] same_at(a, b, p, q),
    decreases i + j,
{
    if a[i - 1] == b[j - 1] {
        assert(1 <= i <= i && 1 <= j <= j && same_at(a, b, i, j));
    } else if lcs_len(a, b, i - 1, j) >= lcs_len(a, b, i, j - 1) {
        lemma_match_of_lcs_len(a, b, i - 1, j);
        let (p, q) = choose|p: int, q: int|
            1 <= p <= i - 1 && 1 <= q <= j && #[trigger] same_at(a, b, p, q);
        assert(1 <= p <= i && 1 <= q <= j && same_at(a, b, p, q));
    } else {
        lemma_match_of_lcs_len(a, b, i, j - 1);
        let (p, q) = choose|p: int, q: int|
            1 <= p <= i && 1 <= q <= j - 1 && #[trigger] same_at(a, b, p, q);
        assert(1 <= p <= i && 1 <= q <= j && same_at(a, b, p, q));
    }
}

/// What can be had from fewer characters can be had from more.
pub proof fn lemma_within_more(x: Seq<char>, s: Seq<char>, i: int)
    requires
        within(x, s, i),
    ensures
        within(x, s, i + 1),
{
}

/// What the marks lead to is a common subsequence of the two strings and
/// as long as the longest.
pub proof fn lemma_lcs_by_marks(a: Seq<char>, b: Seq<char>, i: int, j: int)
    requires
        0 <= i <= a.len(),
        0 <= j <= b.len(),
    ensures
        lcs_by_marks(a, b, i, j).len() == lcs_len(a, b, i, j),
        within(lcs_by_marks(a, b, i, j), a, i),
        within(lcs_by_marks(a, b, i, j), b, j),
    decreases i + j,
{
    if i > 0 && j > 0 {
        if a[i - 1] == b[j - 1] {
            lemma_lcs_by_marks(a, b, i - 1, j - 1);
            let x = lcs_by_marks(a, b, i, j);
            assert(x.drop_last() =~= lcs_by_marks(a, b, i - 1, j - 1));
        } else if lcs_len(a, b, i - 1, j) >= lcs_len(a, b, i, j - 1) {
            lemma_lcs_by_marks(a, b, i - 1, j);
            lemma_within_more(lcs_by_marks(a, b, i, j), a, i - 1);
        } else {
            lemma_lcs_by_marks(a, b, i, j - 1);
            lemma_within_more(lcs_by_marks(a, b, i, j), b, j - 1);
        }
    }
}

/// What the lengths lead to is a common subsequence of the two strings and
/// as long as the longest.
pub proof fn lemma_lcs_by_lengths(a: Seq<char>, b: Seq<char>, i: int, j: int)
    requires
        0 <= i <= a.len(),
        0 <= j <= b.len(),
    ensures
        lcs_by_lengths(a, b, i, j).len() == lcs_len(a, b, i, j),
        within(lcs_by_lengths(a, b, i, j), a, i),
        within(lcs_by_lengths(a, b, i, j), b, j),
    decreases i + j,
{
    if i > 0 && j > 0 && lcs_len(a, b, i, j) > 0 {
        if a[i - 1] == b[j - 1] {
            lemma_lcs_by_lengths(a, b, i - 1, j - 1);
            let x = lcs_by_lengths(a, b, i, j);
            assert(x.drop_last() =~= lcs_by_lengths(a, b, i - 1, j - 1));
        } else if lcs_len(a, b, i - 1, j) > lcs_len(a, b, i, j - 1) {
            lemma_lcs_by_lengths(a, b, i - 1, j);
            lemma_within_more(lcs_by_lengths(a, b, i, j), a, i - 1);
        } else {
            lemma_lcs_by_lengths(a, b, i, j - 1);
            lemma_within_more(lcs_by_lengths(a, b, i, j), b, j - 1);
        }
    }
}

/// `String::push` of std: the string is what it was with the character `c`
/// behind its last.
pub assume_specification[ String::push ](s: &mut String, c: char)
    ensures
        final(s)@ == old(s)@.push(c),
;

/// The characters of a string.
fn letters(s: &str) -> (v: Vec<char>)
    ensures
        v@ == s@,
{
    broadcast use vstd::string::axiom_spec_iter;
    broadcast use vstd::string::next_postcondition;

    let mut it = s.chars();
    let mut v: Vec<char> = Vec::new();
    let mut going = true;
    assert(it.remaining() == s@);
    while going
        invariant
            it.obeys_prophetic_iter_laws(),
            v@ + it.remaining() == s@,
            !going ==> it.remaining().len() == 0,
        decreases s@.len() - v@.len() + (if going { 1int } else { 0int }),
    {
        let ghost before = it.remaining();
        match it.next() {
            Some(c) => {
                assert(v@.push(c) + it.remaining() =~= v@ + before);
                v.push(c);
            },
            None => {
                going = false;
            },
        }
    }
    assert(v@ + Seq::<char>::empty() =~= v@);
    v
}

/// The string of the characters.
fn text(v: &Vec<char>) -> (s: String)
    ensures
        s@ == v@,
{
    let mut s = String::new();
    let mut i: usize = 0;
    while i < v.len()
        invariant
            i <= v@.len(),
            s@ == v@.take(i as int),
        decreases v@.len() - i,
    {
        s.push(v[i]);
        assert(v@.take(i + 1) =~= v@.take(i as int).push(v@[i as int]));
        i += 1;
    }
    assert(v@.take(i as int) =~= v@);
    s
}

/// The table has a row for every length of the first string up to `n` and
/// in every row a place for every length of the second string up to `m`.
pub open spec fn shaped<T>(table: Seq<Box<Vec<T>>>, n: int, m: int) -> bool {
    &&& table.len() == n + 1
    &&& forall|i: int| 0 <= i <= n ==> (#[trigger] table[i])@.len() == m + 1
}

/// The table of the lengths of the longest common subsequences.
pub open spec fn is_lengths(table: Seq<Box<Vec<usize>>>, a: Seq<char>, b: Seq<char>) -> bool {
    &&& shaped(table, a.len() as int, b.len() as int)
    &&& forall|i: int, j: int|
        0 <= i <= a.len() && 0 <= j <= b.len() ==> #[trigger] table[i]@[j] == lcs_len(a, b, i, j)
}

/// The table of the marks that lead back to the longest common
/// subsequence.
pub open spec fn is_marks(table: Seq<Box<Vec<char>>>, a: Seq<char>, b: Seq<char>) -> bool {
    &&& shaped(table, a.len() as int, b.len() as int)
    &&& forall|i: int, j: int|
        0 <= i <= a.len() && 0 <= j <= b.len() ==> #[trigger] table[i]@[j] == mark(a, b, i, j)
}

/// A table of lengths of which some are not computed yet: those are -1.
pub open spec fn is_memo(table: Seq<Box<Vec<isize>>>, a: Seq<char>, b: Seq<char>) -> bool {
    &&& shaped(table, a.len() as int, b.len() as int)
    &&& forall|i: int, j: int|
        0 <= i <= a.len() && 0 <= j <= b.len() ==> #[trigger] table[i]@[j] == -1 || table[i]@[j]
            == lcs_len(a, b, i, j)
}

/// Two sequences and, once it has been looked for, their longest common
/// subsequence.
pub struct LongSubSequence<'a, 'b: 'a> {
    first: &'a str,
    second: &'b str,
    result: Option<String>,
}

/// Fills the place `(ix, jx)` of the memo table, and the places that it
/// rests on, and returns what it holds.
fn recursion(
    len_vec: &mut Vec<Box<Vec<isize>>>,
    first: &Vec<char>,
    second: &Vec<char>,
    ix: usize,
    jx: usize,
    has_lcs: &mut bool,
) -> (len: isize)
    requires
        is_memo(old(len_vec)@, first@, second@),
        ix <= first@.len(),
        jx <= second@.len(),
        first@.len() <= isize::MAX || second@.len() <= isize::MAX,
        forall|i: int, j: int|
            0 <= i <= first@.len() && 0 <= j <= second@.len() && #[trigger] old(len_vec)@[i]@[j]
                > 0 ==> *old(has_lcs),
        *old(has_lcs) ==> lcs_len(first@, second@, first@.len() as int, second@.len() as int) > 0,
    ensures
        is_memo(final(len_vec)@, first@, second@),
        len == lcs_len(first@, second@, ix as int, jx as int),
        final(len_vec)@[ix as int]@[jx as int] == len,
        forall|i: int, j: int|
            0 <= i <= first@.len() && 0 <= j <= second@.len() && #[trigger] final(len_vec)@[i]@[j]
                > 0 ==> *final(has_lcs),
        *old(has_lcs) ==> *final(has_lcs),
        *final(has_lcs) ==> lcs_len(first@, second@, first@.len() as int, second@.len() as int)
            > 0,
    decreases ix + jx,
{
    let ghost a = first@;
    let ghost b = second@;
    proof {
        lemma_lcs_len_bound(a, b, ix as int, jx as int);
    }
    assert(len_vec@[ix as int]@.len() == b.len() + 1);
    if len_vec[ix][jx] > -1 {
        return len_vec[ix][jx];
    }
    let len: isize = if ix == 0 || jx == 0 {
        0
    } else if first[ix - 1] == second[jx - 1] {
        proof {
            lemma_lcs_len_of_match(
                a,
                b,
                a.len() as int,
                b.len() as int,
                ix as int,
                jx as int,
            );
            lemma_lcs_len_bound(a, b, ix - 1, jx - 1);
        }
        *has_lcs = true;
        recursion(len_vec, first, second, ix - 1, jx - 1, has_lcs) + 1
    } else {
        let up = recursion(len_vec, first, second, ix - 1, jx, has_lcs);
        let left = recursion(len_vec, first, second, ix, jx - 1, has_lcs);
        if up >= left {
            up
        } else {
            left
        }
    };
    let ghost before = len_vec@;
    assert(before[ix as int]@.len() == b.len() + 1);
    let row: &mut Vec<isize> = &mut *len_vec[ix];
    row[jx] = len;
    proof {
        assert forall|i: int| 0 <= i <= a.len() implies (#[trigger] len_vec@[i])@.len() == b.len()
            + 1 by {
            if i != ix {
                assert(len_vec@[i] == before[i]);
            }
        }
        assert forall|i: int, j: int| 0 <= i <= a.len() && 0 <= j <= b.len() implies (
        #[trigger] len_vec@[i]@[j] == -1 || len_vec@[i]@[j] == lcs_len(a, b, i, j)) && (
        len_vec@[i]@[j] > 0 ==> *has_lcs) by {
            if i != ix {
                assert(len_vec@[i] == before[i]);
                assert(before[i]@[j] == -1 || before[i]@[j] == lcs_len(a, b, i, j));
            } else if j != jx {
                assert(before[i]@[j] == -1 || before[i]@[j] == lcs_len(a, b, i, j));
            } else {
                if len > 0 && !*has_lcs {
                    lemma_match_of_lcs_len(a, b, ix as int, jx as int);
                }
            }
        }
    }
    len
}

/// Follows the marks back from the place `(ix, jx)` and appends the
/// characters of the common subsequence to `result`.
fn solution_by_marks(
    help_vec: &Vec<Box<Vec<char>>>,
    first: &Vec<char>,
    second: Ghost<Seq<char>>,
    ix: usize,
    jx: usize,
    result: &mut Vec<char>,
)
    requires
        is_marks(help_vec@, first@, second@),
        ix <= first@.len(),
        jx <= second@.len(),
    ensures
        final(result)@ == old(result)@ + lcs_by_marks(first@, second@, ix as int, jx as int),
    decreases ix + jx,
{
    if ix == 0 || jx == 0 {
        assert(result@ + Seq::<char>::empty() =~= result@);
        return;
    }
    let ghost start = result@;
    assert(help_vec@[ix as int]@[jx as int] == mark(first@, second@, ix as int, jx as int));
    assert(help_vec@[ix as int]@.len() == second@.len() + 1);
    if help_vec[ix][jx] == '|' {
        solution_by_marks(help_vec, first, second, ix - 1, jx - 1, result);
        result.push(first[ix - 1]);
        assert(result@ =~= start + lcs_by_marks(first@, second@, ix as int, jx as int));
    } else if help_vec[ix][jx] == '>' {
        solution_by_marks(help_vec, first, second, ix - 1, jx, result);
    } else {
        solution_by_marks(help_vec, first, second, ix, jx - 1, result);
    }
}

/// Follows the lengths back from the place `(ix, jx)` and appends the
/// characters of the common subsequence to `result`.
fn solution_by_lengths(
    len_vec: &Vec<Box<Vec<usize>>>,
    first: &Vec<char>,
    second: &Vec<char>,
    ix: usize,
    jx: usize,
    result: &mut Vec<char>,
)
    requires
        is_lengths(len_vec@, first@, second@),
        ix <= first@.len(),
        jx <= second@.len(),
    ensures
        final(result)@ == old(result)@ + lcs_by_lengths(first@, second@, ix as int, jx as int),
    decreases ix + jx,
{
    let ghost start = result@;
    assert(len_vec@[ix as int]@[jx as int] == lcs_len(first@, second@, ix as int, jx as int));
    assert(len_vec@[ix as int]@.len() == second@.len() + 1);
    if len_vec[ix][jx] == 0 {
        assert(result@ + Seq::<char>::empty() =~= result@);
        return;
    }
    assert(len_vec@[ix - 1]@[jx as int] == lcs_len(first@, second@, ix - 1, jx as int));
    assert(len_vec@[ix as int]@[jx - 1] == lcs_len(first@, second@, ix as int, jx - 1));
    assert(len_vec@[ix - 1]@.len() == second@.len() + 1);
    if first[ix - 1] == second[jx - 1] {
        solution_by_lengths(len_vec, first, second, ix - 1, jx - 1, result);
        result.push(first[ix - 1]);
        assert(result@ =~= start + lcs_by_lengths(first@, second@, ix as int, jx as int));
    } else if len_vec[ix - 1][jx] > len_vec[ix][jx - 1] {
        solution_by_lengths(len_vec, first, second, ix - 1, jx, result);
    } else {
        solution_by_lengths(len_vec, first, second, ix, jx - 1, result);
    }
}

impl<'a, 'b: 'a> LongSubSequence<'a, 'b> {
    /// The characters of the first sequence.
    pub closed spec fn first(&self) -> Seq<char> {
        self.first@
    }

    /// The characters of the second sequence.
    pub closed spec fn second(&self) -> Seq<char> {
        self.second@
    }

    /// The common subsequence that has been found, if one has.
    pub closed spec fn found(&self) -> Option<Seq<char>> {
        match self.result {
            Some(text) => Some(text@),
            None => None,
        }
    }

    /// The length of the longest common subsequence of the two sequences.
    pub open spec fn longest(&self) -> nat {
        lcs_len(self.first(), self.second(), self.first().len() as int, self.second().len() as int)
    }

    /// Creates the pair of two sequences, with nothing found yet.
    pub fn new(first: &'a str, second: &'b str) -> (pair: Self)
        ensures
            pair.first() == first@,
            pair.second() == second@,
            pair.found() is None,
    {
        LongSubSequence { first, second, result: None }
    }

    /// The common subsequence that has been found, if one has.
    pub fn result(&self) -> (result: &Option<String>)
        ensures
            match *result {
                Some(text) => self.found() == Some(text@),
                None => self.found() is None,
            },
    {
        &self.result
    }

    /// The table of the lengths of the longest common subsequences of all
    /// beginnings of the two sequences, and the table of the marks that
    /// lead back through it. There are none where the sequences have no
    /// character in common.
    pub fn length_with_aux(&self) -> (tables: Option<(Vec<Box<Vec<usize>>>, Vec<Box<Vec<char>>>)>)
        ensures
            tables is None <==> self.longest() == 0,
            match tables {
                Some((lengths, marks)) => is_lengths(lengths@, self.first(), self.second())
                    && is_marks(marks@, self.first(), self.second()),
                None => true,
            },
    {
        let first = letters(self.first);
        let second = letters(self.second);
        let ghost a = first@;
        let ghost b = second@;
        let n = first.len();
        let m = second.len();
        if n == 0 || m == 0 {
            return None;
        }
        let mut len_vec: Vec<Box<Vec<usize>>> = Vec::new();
        let mut helper_vec: Vec<Box<Vec<char>>> = Vec::new();
        let mut zeros = vec![0usize; m];
        zeros.push(0);
        let mut blanks = vec![' '; m];
        blanks.push(' ');
        len_vec.push(Box::new(zeros));
        helper_vec.push(Box::new(blanks));
        let mut has_lcs = false;
        while len_vec.len() <= n
            invariant
                a == first@,
                b == second@,
                n == a.len(),
                m == b.len(),
                1 <= len_vec@.len() <= n + 1,
                helper_vec@.len() == len_vec@.len(),
                forall|r: int| 0 <= r < len_vec@.len() ==> (#[trigger] len_vec@[r])@.len() == m + 1,
                forall|r: int| 0 <= r < len_vec@.len() ==> (#[trigger] helper_vec@[r])@.len() == m + 1,
                forall|r: int, c: int|
                    0 <= r < len_vec@.len() && 0 <= c <= m ==> #[trigger] len_vec@[r]@[c] == lcs_len(a, b, r, c),
                forall|r: int, c: int|
                    0 <= r < len_vec@.len() && 0 <= c <= m ==> #[trigger] helper_vec@[r]@[c] == mark(a, b, r, c),
                has_lcs <==> lcs_len(a, b, len_vec@.len() - 1, m as int) > 0,
            decreases n + 1 - len_vec@.len(),
        {
            let i = len_vec.len();
            let mut lens: Vec<usize> = Vec::new();
            let mut marks: Vec<char> = Vec::new();
            lens.push(0);
            marks.push(' ');
            let ghost had = has_lcs;
            while lens.len() <= m
                invariant
                    a == first@,
                    b == second@,
                    n == a.len(),
                    m == b.len(),
                    1 <= i <= n,
                    1 <= lens@.len() <= m + 1,
                    len_vec@.len() == i,
                    (len_vec@[i - 1])@.len() == m + 1,
                    forall|c: int|
                        0 <= c <= m ==> #[trigger] len_vec@[i - 1]@[c] == lcs_len(a, b, i - 1, c),
                    marks@.len() == lens@.len(),
                    forall|c: int|
                        0 <= c < lens@.len() ==> #[trigger] lens@[c] == lcs_len(a, b, i as int, c),
                    forall|c: int|
                        0 <= c < lens@.len() ==> #[trigger] marks@[c] == mark(a, b, i as int, c),
                    has_lcs <==> had || lcs_len(a, b, i as int, lens@.len() - 1) > 0,
                    had <==> lcs_len(a, b, i - 1, m as int) > 0,
                decreases m + 1 - lens@.len(),
            {
                let j = lens.len();
                proof {
                    lemma_lcs_len_bound(a, b, i as int, j as int);
                    assert(len_vec@[i - 1]@[j - 1] == lcs_len(a, b, i - 1, j - 1));
                    assert(len_vec@[i - 1]@[j as int] == lcs_len(a, b, i - 1, j as int));
                    if lcs_len(a, b, i as int, j as int) > 0 {
                        lemma_match_of_lcs_len(a, b, i as int, j as int);
                        let (p, q) = choose|p: int, q: int|
                            1 <= p <= i && 1 <= q <= j && #[trigger] same_at(a, b, p, q);
                        if p < i {
                            lemma_lcs_len_of_match(a, b, i - 1, m as int, p, q);
                        } else if q < j {
                            lemma_lcs_len_of_match(a, b, i as int, j - 1, p, q);
                        }
                    }
                    if lcs_len(a, b, i as int, j - 1) > 0 {
                        lemma_match_of_lcs_len(a, b, i as int, j - 1);
                        let (p, q) = choose|p: int, q: int|
                            1 <= p <= i && 1 <= q <= j - 1 && #[trigger] same_at(a, b, p, q);
                        lemma_lcs_len_of_match(a, b, i as int, j as int, p, q);
                    }
                }
                let above = &len_vec[i - 1];
                if first[i - 1] == second[j - 1] {
                    lens.push(above[j - 1] + 1);
                    marks.push('|');
                    has_lcs = true;
                } else if above[j] >= lens[j - 1] {
                    lens.push(above[j]);
                    marks.push('>');
                } else {
                    lens.push(lens[j - 1]);
                    marks.push('<');
                }
            }
            proof {
                if had {
                    lemma_match_of_lcs_len(a, b, i - 1, m as int);
                    let (p, q) = choose|p: int, q: int|
                        1 <= p <= i - 1 && 1 <= q <= m && #[trigger] same_at(a, b, p, q);
                    lemma_lcs_len_of_match(a, b, i as int, m as int, p, q);
                }
            }
            len_vec.push(Box::new(lens));
            helper_vec.push(Box::new(marks));
        }
        if has_lcs {
            Some((len_vec, helper_vec))
        } else {
            None
        }
    }

    /// The table of the lengths of the longest common subsequences, filled
    /// from the end of the two sequences back as far as the length of the
    /// whole rests on it; the places that it does not rest on hold -1.
    /// There is no table where the sequences have no character in common.
    pub fn memoize_length(&self) -> (table: Option<Vec<Box<Vec<isize>>>>)
        requires
            self.first().len() <= isize::MAX || self.second().len() <= isize::MAX,
        ensures
            table is None <==> self.longest() == 0,
            table is Some ==> is_memo(table->0@, self.first(), self.second()) && table->0@[self.first().len() as int]@[self.second().len() as int]
                == self.longest(),
    {
        let first = letters(self.first);
        let second = letters(self.second);
        let n = first.len();
        let m = second.len();
        if n == 0 || m == 0 {
            return None;
        }
        let mut len_vec: Vec<Box<Vec<isize>>> = Vec::new();
        while len_vec.len() <= n
            invariant
                n == first@.len(),
                m == second@.len(),
                len_vec@.len() <= n + 1,
                forall|r: int| 0 <= r < len_vec@.len() ==> (#[trigger] len_vec@[r])@.len() == m + 1,
                forall|r: int, c: int|
                    0 <= r < len_vec@.len() && 0 <= c <= m ==> #[trigger] len_vec@[r]@[c] == -1,
            decreases n + 1 - len_vec@.len(),
        {
            let mut row = vec![-1isize; m];
            row.push(-1);
            len_vec.push(Box::new(row));
        }
        let mut has_lcs = false;
        let _ = recursion(&mut len_vec, &first, &second, n, m, &mut has_lcs);
        if has_lcs {
            Some(len_vec)
        } else {
            None
        }
    }

    /// Looks for the longest common subsequence by the table of marks.
    /// Where the sequences have no character in common, nothing changes.
    pub fn substr(&mut self)
        ensures
            final(self).first() == old(self).first(),
            final(self).second() == old(self).second(),
            old(self).longest() == 0 ==> final(self).found() == old(self).found(),
            old(self).longest() > 0 ==> final(self).found() == Some(
                lcs_by_marks(
                    old(self).first(),
                    old(self).second(),
                    old(self).first().len() as int,
                    old(self).second().len() as int,
                ),
            ),
    {
        match self.length_with_aux() {
            Some((_, help_vec)) => {
                let mut result: Vec<char> = Vec::new();
                let first = letters(self.first);
                let (ix, jx) = (first.len(), help_vec[0].len() - 1);
                solution_by_marks(&help_vec, &first, Ghost(self.second@), ix, jx, &mut result);
                assert(Seq::<char>::empty() + result@ =~= result@);
                self.result = Some(text(&result));
            },
            None => {},
        }
    }

    /// Looks for the longest common subsequence by the table of lengths
    /// alone. Where the sequences have no character in common, nothing
    /// changes.
    pub fn substr_without_aux(&mut self)
        ensures
            final(self).first() == old(self).first(),
            final(self).second() == old(self).second(),
            old(self).longest() == 0 ==> final(self).found() == old(self).found(),
            old(self).longest() > 0 ==> final(self).found() == Some(
                lcs_by_lengths(
                    old(self).first(),
                    old(self).second(),
                    old(self).first().len() as int,
                    old(self).second().len() as int,
                ),
            ),
    {
        match self.length_with_aux() {
            Some((len_vec, _)) => {
                let mut result: Vec<char> = Vec::new();
                let first = letters(self.first);
                let second = letters(self.second);
                let (ix, jx) = (first.len(), second.len());
                solution_by_lengths(&len_vec, &first, &second, ix, jx, &mut result);
                assert(Seq::<char>::empty() + result@ =~= result@);
                self.result = Some(text(&result));
            },
            None => {},
        }
    }
}

} // verus!

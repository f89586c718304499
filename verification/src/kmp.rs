//! Single-pattern substring search in linear time.
//!
//! A pattern is preprocessed into a prefix-function table (`mk_pfx`); the
//! table entry for position `i` is the length of the longest proper prefix
//! of `pattern[0..=i]` that is also a suffix of it.  Scanning a text then
//! reuses partial matches on a mismatch by backtracking through the table,
//! which makes the scan linear in the text length and finds every
//! occurrence, overlapping ones included.

use vstd::prelude::*;

verus! {

/// The first `l` symbols of `p` equal the `l` symbols of `t` that end just
/// before position `i`: reading `t` up to `i` leaves `l` symbols of `p`
/// matched.
pub open spec fn partial_match<C>(p: Seq<C>, t: Seq<C>, i: int, l: int) -> bool {
    &&& 0 <= l <= i <= t.len()
    &&& l <= p.len()
    &&& (forall|k: int| 0 <= k < l ==> p[k] == t[i - l + k])
}

/// `v` is the prefix-function value for position `i` of `p`: the longest
/// proper prefix of `p[0..=i]` that is also a suffix of it has length `v`.
pub open spec fn pfx_entry<C>(p: Seq<C>, i: int, v: int) -> bool {
    &&& partial_match(p, p, i + 1, v)
    &&& v <= i
    &&& (forall|l: int| v < l <= i ==> !(#[trigger] partial_match(p, p, i + 1, l)))
}

/// `tbl` is the prefix-function table of `p`.
pub open spec fn pfx_table<C>(p: Seq<C>, tbl: Seq<usize>) -> bool {
    &&& tbl.len() == p.len()
    &&& (forall|i: int| 0 <= i < p.len() ==> pfx_entry(p, i, #[trigger] tbl[i] as int))
}

/// `p` occurs in `t` starting at position `j`.
pub open spec fn occurs_at<C>(p: Seq<C>, t: Seq<C>, j: int) -> bool {
    &&& 0 <= j
    &&& j + p.len() <= t.len()
    &&& (forall|k: int| 0 <= k < p.len() ==> p[k] == t[j + k])
}

/// The start positions of all occurrences of `p` that end within the first
/// `upto` symbols of `t`, in increasing order.
pub open spec fn occurrences<C>(p: Seq<C>, t: Seq<C>, upto: int) -> Seq<int>
    decreases upto,
{
    if upto <= 0 {
        Seq::empty()
    } else {
        let prev = occurrences(p, t, upto - 1);
        if p.len() <= upto && upto <= t.len() && occurs_at(p, t, upto - p.len()) {
            prev.push(upto - p.len())
        } else {
            prev
        }
    }
}

/// An atomic symbol: a value whose equality can be decided executably and
/// agrees with logical equality.  The matcher works over any such alphabet;
/// code points, bytes and the other primitive integers are symbols.
pub trait Symbol: Sized {
    /// Decides whether two symbols are equal.
    fn sym_eq(&self, other: &Self) -> (r: bool)
        ensures
            r == (*self == *other),
    ;
}

impl Symbol for char {
    fn sym_eq(&self, other: &char) -> (r: bool) {
        *self == *other
    }
}

impl Symbol for bool {
    fn sym_eq(&self, other: &bool) -> (r: bool) {
        *self == *other
    }
}

impl Symbol for u8 {
    fn sym_eq(&self, other: &u8) -> (r: bool) {
        *self == *other
    }
}

impl Symbol for u16 {
    fn sym_eq(&self, other: &u16) -> (r: bool) {
        *self == *other
    }
}

impl Symbol for u32 {
    fn sym_eq(&self, other: &u32) -> (r: bool) {
        *self == *other
    }
}

impl Symbol for u64 {
    fn sym_eq(&self, other: &u64) -> (r: bool) {
        *self == *other
    }
}

impl Symbol for usize {
    fn sym_eq(&self, other: &usize) -> (r: bool) {
        *self == *other
    }
}

impl Symbol for i8 {
    fn sym_eq(&self, other: &i8) -> (r: bool) {
        *self == *other
    }
}

impl Symbol for i16 {
    fn sym_eq(&self, other: &i16) -> (r: bool) {
        *self == *other
    }
}

impl Symbol for i32 {
    fn sym_eq(&self, other: &i32) -> (r: bool) {
        *self == *other
    }
}

impl Symbol for i64 {
    fn sym_eq(&self, other: &i64) -> (r: bool) {
        *self == *other
    }
}

impl Symbol for isize {
    fn sym_eq(&self, other: &isize) -> (r: bool) {
        *self == *other
    }
}

/// If `p` has `l1` and `l2` symbols matched before position `i` of `t`, with
/// `l1 <= l2`, then the prefix of length `l1` is a suffix of the prefix of
/// length `l2`.
proof fn lemma_nested_match<C>(p: Seq<C>, t: Seq<C>, i: int, l1: int, l2: int)
    requires
        partial_match(p, t, i, l1),
        partial_match(p, t, i, l2),
        l1 <= l2,
    ensures
        partial_match(p, p, l2, l1),
{
    assert forall|k: int| 0 <= k < l1 implies #[trigger] p[k] == p[l2 - l1 + k] by {
        assert(p[k] == t[i - l1 + k]);
        assert(p[l2 - l1 + k] == t[i - l2 + (l2 - l1 + k)]);
    }
}

/// A prefix of `p` that is a suffix of a matched prefix is itself matched.
proof fn lemma_border_match<C>(p: Seq<C>, t: Seq<C>, i: int, l1: int, l2: int)
    requires
        partial_match(p, p, l2, l1),
        partial_match(p, t, i, l2),
    ensures
        partial_match(p, t, i, l1),
{
    assert forall|k: int| 0 <= k < l1 implies #[trigger] p[k] == t[i - l1 + k] by {
        assert(p[k] == p[l2 - l1 + k]);
        assert(p[l2 - l1 + k] == t[i - l2 + (l2 - l1 + k)]);
    }
}

/// A position is listed by `occurrences` exactly when the pattern occurs
/// there and the occurrence ends within the scanned range.
pub proof fn lemma_occurrences_complete<C>(p: Seq<C>, t: Seq<C>, upto: int, j: int)
    requires
        upto <= t.len(),
        p.len() >= 1,
    ensures
        occurrences(p, t, upto).contains(j) <==> (occurs_at(p, t, j) && j + p.len() <= upto),
    decreases upto,
{
    broadcast use vstd::seq_lib::group_seq_properties;

    if upto > 0 {
        lemma_occurrences_complete(p, t, upto - 1, j);
        let prev = occurrences(p, t, upto - 1);
        if p.len() <= upto && upto <= t.len() && occurs_at(p, t, upto - p.len()) {
            assert(occurrences(p, t, upto) == prev.push(upto - p.len()));
            assert forall|x: int| occurrences(p, t, upto).contains(x) implies prev.contains(x) || x
                == upto - p.len() by {
                let n = choose|n: int|
                    0 <= n < occurrences(p, t, upto).len() && occurrences(p, t, upto)[n] == x;
                if n < prev.len() {
                    assert(prev[n] == x);
                }
            }
            assert(prev.contains(j) ==> occurrences(p, t, upto).contains(j)) by {
                if prev.contains(j) {
                    let n = choose|n: int| 0 <= n < prev.len() && prev[n] == j;
                    assert(occurrences(p, t, upto)[n] == j);
                }
            }
            assert(occurrences(p, t, upto).last() == upto - p.len());
        }
    }
}

/// No listed occurrence starts later than the last one that fits the
/// scanned range.
proof fn lemma_occurrences_bound<C>(p: Seq<C>, t: Seq<C>, upto: int, m: int)
    requires
        0 <= m < occurrences(p, t, upto).len(),
    ensures
        occurrences(p, t, upto)[m] <= upto - p.len(),
    decreases upto,
{
    let prev = occurrences(p, t, upto - 1);
    if m < prev.len() {
        lemma_occurrences_bound(p, t, upto - 1, m);
        assert(occurrences(p, t, upto)[m] == prev[m]);
    }
}

/// The occurrence list is strictly increasing: each occurrence starts after
/// the one listed before it.
pub proof fn lemma_occurrences_increasing<C>(p: Seq<C>, t: Seq<C>, upto: int, m1: int, m2: int)
    requires
        0 <= m1 < m2 < occurrences(p, t, upto).len(),
    ensures
        occurrences(p, t, upto)[m1] < occurrences(p, t, upto)[m2],
    decreases upto,
{
    let prev = occurrences(p, t, upto - 1);
    if m2 < prev.len() {
        lemma_occurrences_increasing(p, t, upto - 1, m1, m2);
        assert(occurrences(p, t, upto)[m1] == prev[m1]);
        assert(occurrences(p, t, upto)[m2] == prev[m2]);
    } else {
        lemma_occurrences_bound(p, t, upto - 1, m1);
        assert(occurrences(p, t, upto)[m1] == prev[m1]);
    }
}

/// An empty text yields no occurrences.
pub proof fn lemma_empty_text_no_occurrences<C>(p: Seq<C>, t: Seq<C>)
    requires
        t.len() == 0,
    ensures
        occurrences(p, t, t.len() as int) == Seq::<int>::empty(),
{
}

/// Builds the prefix-function table of `pat`: entry `i` is the length of the
/// longest proper prefix of `pat[0..=i]` that is also a suffix of it.
pub fn mk_pfx<C: Symbol>(pat: &[C]) -> (ret: Vec<usize>)
    requires
    ensures
        pfx_table(pat@, ret@),
{
    let n = pat.len();
    let mut ret: Vec<usize> = Vec::new();
    if n == 0 {
        return ret;
    }
    ret.push(0);
    let mut n_matched: usize = 0;
    let mut i: usize = 1;
    while i < n
        invariant
            1 <= i <= n == pat@.len(),
            ret@.len() == i,
            forall|j: int| 0 <= j < i ==> pfx_entry(pat@, j, #[trigger] ret@[j] as int),
            n_matched == ret@[i - 1],
            n_matched < i,
        decreases n - i,
    {
        let ghost p = pat@;
        let ghost gi = i as int;
        // Backtrack until the next symbol extends the current partial match
        // or nothing is matched any more.
        while n_matched > 0 && !pat[n_matched].sym_eq(&pat[i])
            invariant
                p == pat@,
                gi == i as int,
                1 <= i < n == pat@.len(),
                ret@.len() == i,
                forall|j: int| 0 <= j < i ==> pfx_entry(pat@, j, #[trigger] ret@[j] as int),
                n_matched < i,
                partial_match(p, p, gi, n_matched as int),
                forall|l: int|
                    n_matched < l < gi ==> !(#[trigger] partial_match(p, p, gi, l) && p[l] == p[gi]),
            decreases n_matched,
        {
            let prev = n_matched;
            n_matched = ret[n_matched - 1];
            proof {
                let jj = prev as int - 1;
                assert(0 <= jj < gi);
                assert(pfx_entry(p, jj, ret@[jj] as int));
                assert(n_matched as int == ret@[jj] as int);
                assert(pfx_entry(p, prev - 1, n_matched as int));
                lemma_border_match(p, p, gi, n_matched as int, prev as int);
                assert forall|l: int|
                    n_matched < l < gi implies !(#[trigger] partial_match(p, p, gi, l) && p[l]
                    == p[gi]) by {
                    if l < prev && partial_match(p, p, gi, l) {
                        lemma_nested_match(p, p, gi, l, prev as int);
                        assert(!partial_match(p, p, prev as int, l));
                    }
                }
            }
        }
        if pat[n_matched].sym_eq(&pat[i]) {
            n_matched += 1;
            proof {
                // The partial match extends by one symbol.
                assert(partial_match(p, p, gi + 1, n_matched as int));
                // No longer prefix is a suffix of `p[0..=i]`: peeling its last
                // symbol would contradict the backtracking loop's exit state.
                assert forall|l: int|
                    n_matched < l <= gi implies !(#[trigger] partial_match(p, p, gi + 1, l)) by {
                    if partial_match(p, p, gi + 1, l) {
                        assert(p[l - 1] == p[gi + 1 - l + (l - 1)]);
                        assert(partial_match(p, p, gi, l - 1));
                    }
                }
            }
        } else {
            proof {
                assert(partial_match(p, p, gi + 1, 0));
                assert forall|l: int| 0 < l <= gi implies !(#[trigger] partial_match(
                    p,
                    p,
                    gi + 1,
                    l,
                )) by {
                    if partial_match(p, p, gi + 1, l) {
                        assert(p[l - 1] == p[gi + 1 - l + (l - 1)]);
                        assert(partial_match(p, p, gi, l - 1));
                    }
                }
            }
        }
        ret.push(n_matched);
        i += 1;
    }
    ret
}

/// The positions of a sequence of `usize` values, as mathematical integers.
pub open spec fn as_ints(s: Seq<usize>) -> Seq<int> {
    s.map_values(|x: usize| x as int)
}

/// Single-pattern matcher: a pattern together with its prefix-function
/// table, immutable once built.
#[derive(Debug)]
pub struct KMP<C> {
    pat: Vec<C>,
    pfx: Vec<usize>,
}

impl<C: Symbol> KMP<C> {
    /// The pattern this matcher searches for.
    pub closed spec fn pattern(&self) -> Seq<C> {
        self.pat@
    }

    /// The matcher holds a nonempty pattern and its prefix-function table.
    pub closed spec fn wf(&self) -> bool {
        &&& self.pat@.len() >= 1
        &&& pfx_table(self.pat@, self.pfx@)
    }

    /// A well-formed matcher holds a nonempty pattern; with this, a caller
    /// holding only `wf()` can apply the completeness and ordering
    /// characterizations of `occurrences`.
    pub proof fn lemma_wf_pattern_nonempty(&self)
        requires
            self.wf(),
        ensures
            self.pattern().len() >= 1,
    {
    }

    /// Builds a matcher from a nonempty pattern.  An empty pattern is a
    /// usage error and is ruled out here, at construction.
    pub fn new(pat: Vec<C>) -> (ret: KMP<C>)
        requires
            pat@.len() >= 1,
        ensures
            ret.wf(),
            ret.pattern() == pat@,
    {
        let pfx = mk_pfx(pat.as_slice());
        KMP { pat, pfx }
    }

    /// Scans `t` once and returns the start positions of all occurrences of
    /// the pattern, in increasing order, overlapping ones included.
    pub fn match_(&self, t: &[C]) -> (ret: Vec<usize>)
        requires
            self.wf(),
        ensures
            as_ints(ret@) == occurrences(self.pattern(), t@, t@.len() as int),
    {
        let mut ret: Vec<usize> = Vec::new();
        let mut n_matched: usize = 0;
        let n = self.pat.len();
        let ghost p = self.pat@;
        let ghost tx = t@;
        let mut i: usize = 0;
        while i < t.len()
            invariant
                p == self.pat@,
                tx == t@,
                self.wf(),
                n == p.len(),
                i <= tx.len(),
                n_matched < n,
                partial_match(p, tx, i as int, n_matched as int),
                forall|l: int|
                    n_matched < l < n ==> !(#[trigger] partial_match(p, tx, i as int, l)),
                as_ints(ret@) == occurrences(p, tx, i as int),
            decreases tx.len() - i,
        {
            let ghost gi = i as int;
            // Backtrack through the table until the current symbol extends
            // the partial match or nothing is matched any more.
            while n_matched > 0 && !self.pat[n_matched].sym_eq(&t[i])
                invariant
                    p == self.pat@,
                    tx == t@,
                    gi == i as int,
                    self.wf(),
                    n == p.len(),
                    i < tx.len(),
                    n_matched < n,
                    partial_match(p, tx, gi, n_matched as int),
                    forall|l: int|
                        n_matched < l < n ==> !(#[trigger] partial_match(p, tx, gi, l) && p[l]
                            == tx[gi]),
                decreases n_matched,
            {
                let prev = n_matched;
                n_matched = self.pfx[n_matched - 1];
                proof {
                    assert(pfx_entry(p, prev as int - 1, self.pfx@[prev as int - 1] as int));
                    lemma_border_match(p, tx, gi, n_matched as int, prev as int);
                    assert forall|l: int|
                        n_matched < l < n implies !(#[trigger] partial_match(p, tx, gi, l) && p[l]
                        == tx[gi]) by {
                        if l < prev && partial_match(p, tx, gi, l) {
                            lemma_nested_match(p, tx, gi, l, prev as int);
                            assert(!partial_match(p, p, prev as int, l));
                        }
                    }
                }
            }
            let extended = if self.pat[n_matched].sym_eq(&t[i]) {
                n_matched += 1;
                proof {
                    assert forall|k: int|
                        0 <= k < n_matched implies p[k] == tx[gi + 1 - n_matched + k] by {}
                    assert(partial_match(p, tx, gi + 1, n_matched as int));
                }
                true
            } else {
                false
            };
            proof {
                // No prefix longer than the one now matched ends at `i`:
                // peeling its last symbol would contradict the backtracking
                // loop's exit state.
                assert forall|l: int|
                    n_matched < l <= n implies !(#[trigger] partial_match(p, tx, gi + 1, l)) by {
                    if partial_match(p, tx, gi + 1, l) {
                        assert(p[l - 1] == tx[gi + 1 - l + (l - 1)]);
                        assert(partial_match(p, tx, gi, l - 1));
                        if !extended && l - 1 == n_matched {
                            assert(p[l - 1] == tx[gi]);
                        }
                    }
                }
            }
            i += 1;
            if n_matched == n {
                // The whole pattern matched: report the occurrence and fall
                // back to its longest border so overlapping matches follow.
                ret.push(i - n);
                proof {
                    assert(occurs_at(p, tx, i as int - n)) by {
                        assert(partial_match(p, tx, i as int, n as int));
                    }
                    assert(as_ints(ret@) =~= occurrences(p, tx, i as int));
                }
                n_matched = self.pfx[n - 1];
                proof {
                    assert(pfx_entry(p, n as int - 1, self.pfx@[n as int - 1] as int));
                    lemma_border_match(p, tx, i as int, n_matched as int, n as int);
                    assert forall|l: int|
                        n_matched < l < n implies !(#[trigger] partial_match(p, tx, i as int, l))
                        by {
                        if partial_match(p, tx, i as int, l) {
                            lemma_nested_match(p, tx, i as int, l, n as int);
                            assert(!partial_match(p, p, n as int, l));
                        }
                    }
                }
            } else {
                proof {
                    assert(!partial_match(p, tx, i as int, n as int));
                    assert(!(n <= i as int && i as int <= tx.len() && occurs_at(
                        p,
                        tx,
                        i as int - n,
                    )));
                    assert(as_ints(ret@) == occurrences(p, tx, i as int));
                }
            }
        }
        ret
    }
}

/// Lazy single-pattern matcher: a resumable cursor over a text.  Each pull
/// either consumes text symbols up to the next occurrence and yields its
/// start position, or reports exhaustion.  Not pulling further cancels the
/// scan; no work happens between pulls.
pub struct MatchIterator<'a, 'b, C> {
    pat: &'a [C],
    pfx: &'a [usize],
    t: &'b [C],
    pos: usize,
    n_matched: usize,
}

impl<'a, 'b, C: Symbol> MatchIterator<'a, 'b, C> {
    /// The pattern being searched for.
    pub closed spec fn pattern(&self) -> Seq<C> {
        self.pat@
    }

    /// The text being scanned.
    pub closed spec fn text(&self) -> Seq<C> {
        self.t@
    }

    /// How many symbols of the text have been consumed; every occurrence
    /// ending at or before this position has been yielded.
    pub closed spec fn position(&self) -> int {
        self.pos as int
    }

    /// The cursor is consistent: valid table, position within the text, and
    /// the partial match held is the longest one ending at the position.
    pub closed spec fn inv(&self) -> bool {
        &&& self.pat@.len() >= 1
        &&& pfx_table(self.pat@, self.pfx@)
        &&& self.pos <= self.t@.len()
        &&& self.n_matched < self.pat@.len()
        &&& partial_match(self.pat@, self.t@, self.pos as int, self.n_matched as int)
        &&& forall|l: int|
            self.n_matched < l < self.pat@.len() ==> !(#[trigger] partial_match(
                self.pat@,
                self.t@,
                self.pos as int,
                l,
            ))
    }

    /// Pulls the next occurrence.  Consumes text symbols one at a time until
    /// the pattern matches, then yields the start position of that match;
    /// yields nothing once the text is exhausted with no pending match.
    pub fn next(&mut self) -> (ret: Option<usize>)
        requires
            old(self).inv(),
        ensures
            final(self).inv(),
            final(self).pattern() == old(self).pattern(),
            final(self).text() == old(self).text(),
            old(self).position() <= final(self).position() <= final(self).text().len(),
            match ret {
                Some(j) => occurrences(final(self).pattern(), final(self).text(), final(self).position())
                    == occurrences(final(self).pattern(), final(self).text(), old(self).position()).push(
                    j as int,
                ) && j + final(self).pattern().len() == final(self).position(),
                None => final(self).position() == final(self).text().len() && occurrences(
                    final(self).pattern(),
                    final(self).text(),
                    final(self).position(),
                ) == occurrences(final(self).pattern(), final(self).text(), old(self).position()),
            },
    {
        let ghost p = self.pat@;
        let ghost tx = self.t@;
        let ghost pos0 = self.pos as int;
        let n = self.pat.len();
        while self.pos < self.t.len()
            invariant
                p == self.pat@,
                self.pat@ == old(self).pat@,
                tx == self.t@,
                self.t@ == old(self).t@,
                self.pfx@ == old(self).pfx@,
                pos0 == old(self).pos as int,
                pos0 <= self.pos as int,
                n == p.len(),
                1 <= n,
                pfx_table(self.pat@, self.pfx@),
                self.pos <= tx.len(),
                self.n_matched < n,
                partial_match(p, tx, self.pos as int, self.n_matched as int),
                forall|l: int|
                    self.n_matched < l < n ==> !(#[trigger] partial_match(
                        p,
                        tx,
                        self.pos as int,
                        l,
                    )),
                occurrences(p, tx, self.pos as int) == occurrences(p, tx, pos0),
            decreases tx.len() - self.pos,
        {
            let ghost gi = self.pos as int;
            while self.n_matched > 0 && !self.pat[self.n_matched].sym_eq(&self.t[self.pos])
                invariant
                    p == self.pat@,
                    self.pat@ == old(self).pat@,
                    tx == self.t@,
                    self.t@ == old(self).t@,
                    self.pfx@ == old(self).pfx@,
                    pos0 == old(self).pos as int,
                    pos0 <= self.pos as int,
                    gi == self.pos as int,
                    n == p.len(),
                    1 <= n,
                    pfx_table(self.pat@, self.pfx@),
                    self.pos < tx.len(),
                    self.n_matched < n,
                    partial_match(p, tx, gi, self.n_matched as int),
                    forall|l: int|
                        self.n_matched < l < n ==> !(#[trigger] partial_match(p, tx, gi, l) && p[l]
                            == tx[gi]),
                decreases self.n_matched,
            {
                let prev = self.n_matched;
                self.n_matched = self.pfx[self.n_matched - 1];
                proof {
                    assert(pfx_entry(p, prev as int - 1, self.pfx@[prev as int - 1] as int));
                    lemma_border_match(p, tx, gi, self.n_matched as int, prev as int);
                    assert forall|l: int|
                        self.n_matched < l < n implies !(#[trigger] partial_match(p, tx, gi, l)
                        && p[l] == tx[gi]) by {
                        if l < prev && partial_match(p, tx, gi, l) {
                            lemma_nested_match(p, tx, gi, l, prev as int);
                            assert(!partial_match(p, p, prev as int, l));
                        }
                    }
                }
            }
            let extended = if self.pat[self.n_matched].sym_eq(&self.t[self.pos]) {
                self.n_matched += 1;
                proof {
                    assert forall|k: int|
                        0 <= k < self.n_matched implies p[k] == tx[gi + 1 - self.n_matched + k]
                        by {}
                    assert(partial_match(p, tx, gi + 1, self.n_matched as int));
                }
                true
            } else {
                false
            };
            proof {
                assert forall|l: int|
                    self.n_matched < l <= n implies !(#[trigger] partial_match(p, tx, gi + 1, l))
                    by {
                    if partial_match(p, tx, gi + 1, l) {
                        assert(p[l - 1] == tx[gi + 1 - l + (l - 1)]);
                        assert(partial_match(p, tx, gi, l - 1));
                        if !extended && l - 1 == self.n_matched {
                            assert(p[l - 1] == tx[gi]);
                        }
                    }
                }
            }
            self.pos += 1;
            if self.n_matched == n {
                proof {
                    assert(occurs_at(p, tx, self.pos as int - n)) by {
                        assert(partial_match(p, tx, self.pos as int, n as int));
                    }
                    assert(occurrences(p, tx, self.pos as int) == occurrences(p, tx, pos0).push(
                        self.pos as int - n,
                    ));
                }
                self.n_matched = self.pfx[n - 1];
                proof {
                    assert(pfx_entry(p, n as int - 1, self.pfx@[n as int - 1] as int));
                    lemma_border_match(p, tx, self.pos as int, self.n_matched as int, n as int);
                    assert forall|l: int|
                        self.n_matched < l < n implies !(#[trigger] partial_match(
                            p,
                            tx,
                            self.pos as int,
                            l,
                        )) by {
                        if partial_match(p, tx, self.pos as int, l) {
                            lemma_nested_match(p, tx, self.pos as int, l, n as int);
                            assert(!partial_match(p, p, n as int, l));
                        }
                    }
                }
                return Some(self.pos - n);
            } else {
                proof {
                    assert(!partial_match(p, tx, self.pos as int, n as int));
                    assert(occurrences(p, tx, self.pos as int) == occurrences(p, tx, pos0));
                }
            }
        }
        None
    }
}

impl<C: Symbol> KMP<C> {
    /// Starts a lazy scan of `t`: a forward-only cursor with the same
    /// occurrence semantics as the eager scan.
    pub fn match_iter<'a, 'b>(&'a self, t: &'b [C]) -> (ret: MatchIterator<'a, 'b, C>)
        requires
            self.wf(),
        ensures
            ret.inv(),
            ret.pattern() == self.pattern(),
            ret.text() == t@,
            ret.position() == 0,
    {
        MatchIterator {
            pat: self.pat.as_slice(),
            pfx: self.pfx.as_slice(),
            t,
            pos: 0,
            n_matched: 0,
        }
    }
}

} // verus!



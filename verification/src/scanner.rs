//! The longest-match scanner that drives a table over an input.

use crate::dfa::{rows_wf, LookupState, LookupTable};
use vstd::prelude::*;
use vstd::string::StringSliceAdditionalSpecFns;

verus! {

/// What the scanner reports, one after the other, from the left of the input.
#[derive(PartialEq, Eq, Clone, Copy, Debug, Structural)]
pub enum Token {
    /// The bytes from `start` up to `end` match, and rule `handler` fires.
    Matched { start: usize, end: usize, handler: usize },
    /// No rule matches at `at`; the byte there is skipped.
    Unmatched { at: usize },
}

/// A scanner over one table.
pub struct Rlex {
    pub lookup_table: LookupTable,
}

/// The row after `w` was read from row 0; `None` where an entry is missing.
pub open spec fn run(rows: Seq<LookupState>, w: Seq<u8>) -> Option<usize>
    decreases w.len(),
{
    if w.len() == 0 {
        Some(0usize)
    } else {
        match run(rows, w.drop_last()) {
            None => None,
            Some(q) => if q < rows.len() && rows[q as int].neighbors@.contains_key(w.last()) {
                Some(rows[q as int].neighbors@[w.last()])
            } else {
                None
            },
        }
    }
}

/// The table accepts `w`: it is not empty and leads to a row that lists a handler.
pub open spec fn accepts(rows: Seq<LookupState>, w: Seq<u8>) -> bool {
    &&& w.len() > 0
    &&& run(rows, w) is Some
    &&& run(rows, w)->Some_0 < rows.len()
    &&& rows[run(rows, w)->Some_0 as int].handlers@.len() > 0
}

/// The smallest of the ids; 0 for none.
pub open spec fn min_of(ids: Seq<usize>) -> usize
    decreases ids.len(),
{
    if ids.len() == 0 {
        0
    } else if ids.len() == 1 {
        ids[0]
    } else if ids.last() < min_of(ids.drop_last()) {
        ids.last()
    } else {
        min_of(ids.drop_last())
    }
}

/// The handler that fires where the table accepts `w`: the smallest listed.
pub open spec fn winner(rows: Seq<LookupState>, w: Seq<u8>) -> usize {
    min_of(rows[run(rows, w)->Some_0 as int].handlers@)
}

/// The longest accepted prefix of `w` of at most `n` bytes, as its length and
/// the handler that fires; `None` where the table accepts none.
pub open spec fn best_upto(rows: Seq<LookupState>, w: Seq<u8>, n: int) -> Option<(usize, usize)>
    decreases n,
{
    if n <= 0 || n > w.len() {
        None
    } else if accepts(rows, w.take(n)) {
        Some((n as usize, winner(rows, w.take(n))))
    } else {
        best_upto(rows, w, n - 1)
    }
}

/// The longest accepted prefix of `w`.
pub open spec fn longest(rows: Seq<LookupState>, w: Seq<u8>) -> Option<(usize, usize)> {
    best_upto(rows, w, w.len() as int)
}

/// The tokens of `s[from..]`, after those of `acc`: at each place the longest
/// match, or one unmatched byte where there is none.
pub open spec fn tokens_from(rows: Seq<LookupState>, s: Seq<u8>, from: int, acc: Seq<Token>) -> Seq<
    Token,
>
    decreases s.len() - from,
{
    if from < 0 || from >= s.len() {
        acc
    } else {
        let m = longest(rows, s.skip(from));
        let len: int = if m is Some {
            m->Some_0.0 as int
        } else {
            0
        };
        if m is None {
            tokens_from(rows, s, from + 1, acc.push(Token::Unmatched { at: from as usize }))
        } else if 1 <= len <= s.len() - from {
            tokens_from(rows, s, from + len, acc.push(matched(from, len, m->Some_0.1)))
        } else {
            acc
        }
    }
}

/// The token of a match of `len` bytes at `from`.
pub open spec fn matched(from: int, len: int, handler: usize) -> Token {
    Token::Matched { start: from as usize, end: (from + len) as usize, handler }
}

/// The smallest id is listed, and none that is listed is smaller.
pub proof fn lemma_min_of_is_least(ids: Seq<usize>)
    requires
        ids.len() > 0,
    ensures
        ids.contains(min_of(ids)),
        forall|k: int| 0 <= k < ids.len() ==> min_of(ids) <= ids[k],
    decreases ids.len(),
{
    if ids.len() == 1 {
        assert(ids[0] == min_of(ids));
    } else {
        let rest = ids.drop_last();
        lemma_min_of_is_least(rest);
        let k = choose|k: int| 0 <= k < rest.len() && rest[k] == min_of(rest);
        assert(ids[k] == rest[k]);
        assert(ids[ids.len() - 1] == ids.last());
        assert forall|j: int| 0 <= j < ids.len() implies min_of(ids) <= ids[j] by {
            if j < rest.len() {
                assert(rest[j] == ids[j]);
            }
        }
    }
}

/// Once an entry is missing, no longer prefix leads anywhere.
proof fn lemma_stuck_stays(rows: Seq<LookupState>, w: Seq<u8>, i: int, n: int)
    requires
        0 <= i <= n <= w.len(),
        run(rows, w.take(i)) is None,
    ensures
        run(rows, w.take(n)) is None,
    decreases n - i,
{
    if i < n {
        lemma_stuck_stays(rows, w, i, n - 1);
        assert(w.take(n).drop_last() =~= w.take(n - 1));
    }
}

/// Where no prefix longer than `i` leads anywhere, the longest match lies within `i`.
proof fn lemma_best_within(rows: Seq<LookupState>, w: Seq<u8>, i: int, n: int)
    requires
        0 <= i <= n <= w.len(),
        i < w.len() ==> run(rows, w.take(i + 1)) is None,
    ensures
        best_upto(rows, w, n) == best_upto(rows, w, i),
    decreases n - i,
{
    if i < n {
        lemma_stuck_stays(rows, w, i + 1, n);
        lemma_best_within(rows, w, i, n - 1);
    }
}

fn smallest(ids: &Vec<usize>) -> (m: usize)
    requires
        ids@.len() > 0,
    ensures
        m == min_of(ids@),
{
    let mut m: usize = ids[0];
    let mut k: usize = 1;
    assert(ids@.take(1) =~= seq![ids@[0]]);
    while k < ids.len()
        invariant
            1 <= k <= ids@.len(),
            m == min_of(ids@.take(k as int)),
        decreases ids@.len() - k,
    {
        assert(ids@.take(k + 1).drop_last() =~= ids@.take(k as int));
        if ids[k] < m {
            m = ids[k];
        }
        k += 1;
    }
    assert(ids@.take(k as int) =~= ids@);
    m
}

impl Rlex {
    /// A scanner over `lookup_table`.
    pub fn new(lookup_table: LookupTable) -> (r: Rlex)
        ensures
            r.lookup_table == lookup_table,
    {
        Rlex { lookup_table }
    }

    /// The longest match at `from`: the number of bytes matched, which is at
    /// least one, and the smallest handler of the row reached. `None` where no
    /// prefix of `s[from..]` is accepted.
    pub fn match_reg(s: &[u8], from: usize, lookup: &LookupTable) -> (r: Option<(usize, usize)>)
        requires
            lookup.wf(),
            from <= s@.len(),
        ensures
            r == longest(lookup.states@, s@.skip(from as int)),
            r is Some ==> 1 <= r->Some_0.0 <= s@.len() - from,
    {
        let ghost rows = lookup.states@;
        let ghost w = s@.skip(from as int);
        let mut state: usize = 0;
        let mut best: Option<(usize, usize)> = None;
        let mut i: usize = 0;
        let mut stuck = false;
        let n = s.len() - from;
        while i < n && !stuck
            invariant
                rows_wf(rows),
                rows == lookup.states@,
                w == s@.skip(from as int),
                n == w.len(),
                from + n == s@.len(),
                s@.len() <= usize::MAX,
                0 <= i <= n,
                state < rows.len(),
                !stuck ==> run(rows, w.take(i as int)) == Some(state),
                stuck ==> i < n && run(rows, w.take(i + 1)) is None,
                best == best_upto(rows, w, i as int),
                best is Some ==> 1 <= best->Some_0.0 <= i,
            decreases n - i + if stuck { 0int } else { 1int },
        {
            let byte = s[from + i];
            assert(w[i as int] == byte);
            assert(w.take(i + 1).drop_last() =~= w.take(i as int));
            assert(w.take(i + 1).last() == byte);
            match lookup.states[state].neighbors.get(&byte) {
                Some(target) => {
                    state = *target;
                    i += 1;
                    if lookup.states[state].handlers.len() > 0 {
                        best = Some((i, smallest(&lookup.states[state].handlers)));
                    }
                },
                None => {
                    stuck = true;
                },
            }
        }
        proof {
            lemma_best_within(rows, w, i as int, n as int);
        }
        best
    }

    /// Scans the whole input: at each place the longest match and the handler
    /// that fires, or one unmatched byte, which is skipped.
    pub fn lex(&self, s: &str) -> (r: Vec<Token>)
        requires
            self.lookup_table.wf(),
        ensures
            r@ == tokens_from(self.lookup_table.states@, s.spec_bytes(), 0, Seq::<Token>::empty()),
    {
        Self::lex_bytes(s.as_bytes(), &self.lookup_table)
    }

    /// Scans the whole of `s` with the table `lookup`.
    pub fn lex_bytes(s: &[u8], lookup: &LookupTable) -> (r: Vec<Token>)
        requires
            lookup.wf(),
        ensures
            r@ == tokens_from(lookup.states@, s@, 0, Seq::<Token>::empty()),
    {
        let mut out: Vec<Token> = Vec::new();
        let mut from: usize = 0;
        while from < s.len()
            invariant
                lookup.wf(),
                0 <= from <= s@.len(),
                tokens_from(lookup.states@, s@, 0, Seq::<Token>::empty()) == tokens_from(
                    lookup.states@,
                    s@,
                    from as int,
                    out@,
                ),
            decreases s@.len() - from,
        {
            match Self::match_reg(s, from, lookup) {
                Some(m) => {
                    out.push(Token::Matched { start: from, end: from + m.0, handler: m.1 });
                    from = from + m.0;
                },
                None => {
                    out.push(Token::Unmatched { at: from });
                    from = from + 1;
                },
            }
        }
        out
    }
}


// ---------------------------------------------------------------------------
// Tables that say the same scan alike
// ---------------------------------------------------------------------------

/// The rows hold the same entries and the same sets of handlers, in whatever
/// order each lists its handlers.
pub open spec fn same_rows(a: Seq<LookupState>, b: Seq<LookupState>) -> bool {
    &&& a.len() == b.len()
    &&& forall|i: int|
        0 <= i < a.len() ==> (#[trigger] a[i]).neighbors@ == b[i].neighbors@
            && a[i].handlers@.to_set() == b[i].handlers@.to_set()
}

/// Lists of the same ids have the same smallest id.
proof fn lemma_same_ids_same_min(x: Seq<usize>, y: Seq<usize>)
    requires
        x.to_set() == y.to_set(),
        x.len() > 0,
    ensures
        y.len() > 0,
        min_of(x) == min_of(y),
{
    assert(x.to_set().contains(x[0]));
    assert(y.contains(x[0]));
    lemma_min_of_is_least(x);
    lemma_min_of_is_least(y);
    assert(x.to_set().contains(min_of(x)));
    assert(y.to_set().contains(min_of(y)));
    let i = choose|i: int| 0 <= i < y.len() && y[i] == min_of(x);
    assert(y.contains(min_of(x)));
    assert(x.contains(min_of(y)));
    let j = choose|j: int| 0 <= j < x.len() && x[j] == min_of(y);
    assert(min_of(y) <= y[i]);
    assert(min_of(x) <= x[j]);
}

proof fn lemma_same_rows_run(a: Seq<LookupState>, b: Seq<LookupState>, w: Seq<u8>)
    requires
        same_rows(a, b),
    ensures
        run(a, w) == run(b, w),
    decreases w.len(),
{
    if w.len() > 0 {
        lemma_same_rows_run(a, b, w.drop_last());
    }
}

proof fn lemma_same_rows_accept(a: Seq<LookupState>, b: Seq<LookupState>, w: Seq<u8>)
    requires
        same_rows(a, b),
    ensures
        accepts(a, w) == accepts(b, w),
        accepts(a, w) ==> winner(a, w) == winner(b, w),
{
    lemma_same_rows_run(a, b, w);
    if run(a, w) is Some && run(a, w)->Some_0 < a.len() {
        let q = run(a, w)->Some_0 as int;
        let x = a[q].handlers@;
        let y = b[q].handlers@;
        if x.len() > 0 {
            lemma_same_ids_same_min(x, y);
        }
        if y.len() > 0 {
            lemma_same_ids_same_min(y, x);
        }
    }
}

proof fn lemma_same_rows_best(a: Seq<LookupState>, b: Seq<LookupState>, w: Seq<u8>, n: int)
    requires
        same_rows(a, b),
    ensures
        best_upto(a, w, n) == best_upto(b, w, n),
    decreases n,
{
    if 0 < n <= w.len() {
        lemma_same_rows_accept(a, b, w.take(n));
        lemma_same_rows_best(a, b, w, n - 1);
    }
}

proof fn lemma_same_rows_tokens(
    a: Seq<LookupState>,
    b: Seq<LookupState>,
    s: Seq<u8>,
    from: int,
    acc: Seq<Token>,
)
    requires
        same_rows(a, b),
    ensures
        tokens_from(a, s, from, acc) == tokens_from(b, s, from, acc),
    decreases s.len() - from,
{
    if 0 <= from < s.len() {
        let w = s.skip(from);
        lemma_same_rows_best(a, b, w, w.len() as int);
        let m = longest(a, w);
        if m is None {
            lemma_same_rows_tokens(a, b, s, from + 1, acc.push(Token::Unmatched { at: from as usize }));
        } else {
            let len = m->Some_0.0 as int;
            if 1 <= len <= s.len() - from {
                lemma_same_rows_tokens(a, b, s, from + len, acc.push(matched(from, len, m->Some_0.1)));
            }
        }
    }
}

/// A table that is written out and read back scans every input as before,
/// if its rows come back with the same entries and the same sets of handlers.
pub proof fn lemma_same_rows_scan_alike(a: Seq<LookupState>, b: Seq<LookupState>, s: Seq<u8>)
    requires
        same_rows(a, b),
    ensures
        tokens_from(a, s, 0, Seq::<Token>::empty()) == tokens_from(b, s, 0, Seq::<Token>::empty()),
        forall|w: Seq<u8>| accepts(a, w) == accepts(b, w),
{
    lemma_same_rows_tokens(a, b, s, 0, Seq::<Token>::empty());
    assert forall|w: Seq<u8>| accepts(a, w) == accepts(b, w) by {
        lemma_same_rows_accept(a, b, w);
    }
}


// ---------------------------------------------------------------------------
// The longest match, and tokens that leave nothing out
// ---------------------------------------------------------------------------

/// The match found within `n` bytes is accepted, no longer prefix within `n`
/// bytes is, and the smallest handler of its row fires; where none is found,
/// no prefix within `n` bytes is accepted.
pub proof fn lemma_best_is_longest(rows: Seq<LookupState>, w: Seq<u8>, n: int)
    requires
        0 <= n <= w.len(),
        w.len() <= usize::MAX,
    ensures
        match best_upto(rows, w, n) {
            Some(m) => {
                &&& 1 <= m.0 <= n
                &&& accepts(rows, w.take(m.0 as int))
                &&& m.1 == winner(rows, w.take(m.0 as int))
                &&& forall|k: int| m.0 < k <= n ==> !accepts(rows, #[trigger] w.take(k))
            },
            None => forall|k: int| 1 <= k <= n ==> !accepts(rows, #[trigger] w.take(k)),
        },
    decreases n,
{
    if n > 0 && !accepts(rows, w.take(n)) {
        lemma_best_is_longest(rows, w, n - 1);
    }
}

/// Where a token begins.
pub open spec fn token_start(t: Token) -> int {
    match t {
        Token::Matched { start, end, handler } => start as int,
        Token::Unmatched { at } => at as int,
    }
}

/// Where the input goes on after a token.
pub open spec fn token_end(t: Token) -> int {
    match t {
        Token::Matched { start, end, handler } => end as int,
        Token::Unmatched { at } => at + 1,
    }
}

/// The tokens lie one after the other from `from` to `to`, none of them
/// empty: no byte between is left out or taken twice.
pub open spec fn tiles(t: Seq<Token>, from: int, to: int) -> bool
    decreases t.len(),
{
    if t.len() == 0 {
        from == to
    } else {
        &&& token_end(t.last()) == to
        &&& token_start(t.last()) < to
        &&& tiles(t.drop_last(), from, token_start(t.last()))
    }
}

proof fn lemma_tokens_tile(rows: Seq<LookupState>, s: Seq<u8>, from: int, acc: Seq<Token>)
    requires
        0 <= from <= s.len(),
        s.len() <= usize::MAX,
        tiles(acc, 0, from),
    ensures
        tiles(tokens_from(rows, s, from, acc), 0, s.len() as int),
    decreases s.len() - from,
{
    if from < s.len() {
        let w = s.skip(from);
        lemma_best_is_longest(rows, w, w.len() as int);
        let m = longest(rows, w);
        if m is None {
            let next = acc.push(Token::Unmatched { at: from as usize });
            assert(next.drop_last() =~= acc);
            lemma_tokens_tile(rows, s, from + 1, next);
        } else {
            let len = m->Some_0.0 as int;
            let next = acc.push(matched(from, len, m->Some_0.1));
            assert(next.drop_last() =~= acc);
            lemma_tokens_tile(rows, s, from + len, next);
        }
    }
}

/// The tokens of an input lie one after the other from its first byte to its
/// last: every byte is in exactly one token, matched or reported unmatched.
pub proof fn lemma_scan_leaves_nothing_out(rows: Seq<LookupState>, s: Seq<u8>)
    requires
        s.len() <= usize::MAX,
    ensures
        tiles(tokens_from(rows, s, 0, Seq::<Token>::empty()), 0, s.len() as int),
{
    lemma_tokens_tile(rows, s, 0, Seq::<Token>::empty());
}

} // verus!

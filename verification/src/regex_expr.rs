//! Pattern text to postfix tokens: class expansion, tokenizing, explicit
//! concatenation and operator-precedence reduction.

use vstd::prelude::*;
use vstd::string::StringSliceAdditionalSpecFns;

verus! {

/// One token of a pattern.
#[derive(PartialEq, Eq, Clone, Copy, Debug, Structural)]
pub enum Charactor {
    Char(u8),
    LeftBracket,
    RightBracket,
    Closure,
    Concat,
    Or,
}

/// Why a pattern cannot be compiled.
#[derive(PartialEq, Eq, Clone, Copy, Debug, Structural)]
pub enum RegexError {
    /// A class range whose end byte is below its start byte.
    InvalidRange,
    /// A group that is opened and not closed, or closed and not opened.
    UnbalancedGroup,
    /// A backslash before a byte that cannot be escaped.
    InvalidEscape,
    /// A postfix stream that does not reduce to exactly one fragment.
    MalformedExpression,
}

/// A pattern in postfix order.
pub struct RegexExpr(pub Vec<Charactor>);

impl View for RegexExpr {
    type V = Seq<Charactor>;

    open spec fn view(&self) -> Seq<Charactor> {
        self.0@
    }
}

/// The model of a result that holds bytes.
pub open spec fn bytes_result(r: Result<Vec<u8>, RegexError>) -> Result<Seq<u8>, RegexError> {
    match r {
        Ok(v) => Ok(v@),
        Err(e) => Err(e),
    }
}

/// The model of a result that holds tokens.
pub open spec fn tokens_result(r: Result<Vec<Charactor>, RegexError>) -> Result<
    Seq<Charactor>,
    RegexError,
> {
    match r {
        Ok(v) => Ok(v@),
        Err(e) => Err(e),
    }
}

// ---------------------------------------------------------------------------
// Class expansion
// ---------------------------------------------------------------------------

/// The bytes that a backslash may precede, and that class expansion escapes.
pub open spec fn is_special(b: u8) -> bool {
    b == 92 || b == 46 || b == 40 || b == 41 || b == 42 || b == 124
}

/// The number of bytes from `i` on that come before the first `]` or line
/// feed, or before the end of the text.
pub open spec fn class_run(s: Seq<u8>, i: int) -> nat
    decreases s.len() - i,
{
    if i < 0 || i >= s.len() || s[i] == 93 || s[i] == 10 {
        0
    } else {
        1 + class_run(s, i + 1)
    }
}

/// Index of the first `]` or line feed at or after `i`; `s.len()` if there is none.
pub open spec fn class_stop(s: Seq<u8>, i: int) -> int {
    i + class_run(s, i)
}

/// A class opens at `i`: a `[` whose line holds a later `]`.
pub open spec fn class_opens(s: Seq<u8>, i: int) -> bool {
    &&& 0 <= i < s.len()
    &&& s[i] == 91
    &&& class_stop(s, i + 1) < s.len()
    &&& s[class_stop(s, i + 1)] == 93
}

/// The bytes `lo, lo + 1, .., hi`.
pub open spec fn byte_run(lo: u8, hi: u8) -> Seq<u8>
    recommends
        lo <= hi,
{
    Seq::new((hi - lo + 1) as nat, |k: int| (lo + k) as u8)
}

/// The members of the class content `s[k..end]`, appended to `acc`: a triple
/// `x-y` stands for every byte from `x` to `y`, any other byte for itself.
pub open spec fn class_members(s: Seq<u8>, k: int, end: int, acc: Seq<u8>) -> Result<
    Seq<u8>,
    RegexError,
>
    decreases end - k,
{
    if k < 0 || k >= end || end > s.len() {
        Ok(acc)
    } else if k + 2 < end && s[k + 1] == 45 {
        if s[k + 2] < s[k] {
            Err(RegexError::InvalidRange)
        } else {
            class_members(s, k + 3, end, acc + byte_run(s[k], s[k + 2]))
        }
    } else {
        class_members(s, k + 1, end, acc.push(s[k]))
    }
}

/// How member `k` of a class is written in the group that replaces the class.
pub open spec fn member_text(m: Seq<u8>, k: int) -> Seq<u8> {
    let bar = if k != 0 { seq![124u8] } else { Seq::<u8>::empty() };
    let esc = if is_special(m[k]) { seq![92u8] } else { Seq::<u8>::empty() };
    bar + esc + seq![m[k]]
}

/// The first `n` members, joined by `|`.
pub open spec fn members_text(m: Seq<u8>, n: int) -> Seq<u8>
    decreases n,
{
    if n <= 0 {
        Seq::<u8>::empty()
    } else {
        members_text(m, n - 1) + member_text(m, n - 1)
    }
}

/// The group that replaces a class with members `m`.
pub open spec fn class_text(m: Seq<u8>) -> Seq<u8> {
    seq![40u8] + members_text(m, m.len() as int) + seq![41u8]
}

/// `s[i..]` with every class replaced by its group, appended to `acc`.
pub open spec fn expand_classes(s: Seq<u8>, i: int, acc: Seq<u8>) -> Result<Seq<u8>, RegexError>
    decreases s.len() - i,
{
    if i < 0 || i >= s.len() {
        Ok(acc)
    } else if class_opens(s, i) {
        let j = class_stop(s, i + 1);
        match class_members(s, i + 1, j, Seq::<u8>::empty()) {
            Err(e) => Err(e),
            Ok(m) => expand_classes(s, j + 1, acc + class_text(m)),
        }
    } else {
        expand_classes(s, i + 1, acc.push(s[i]))
    }
}

fn find_class_stop(s: &[u8], from: usize) -> (j: usize)
    requires
        from <= s@.len(),
    ensures
        j == class_stop(s@, from as int),
        from <= j <= s@.len(),
{
    let mut j: usize = from;
    while j < s.len() && s[j] != 93 && s[j] != 10
        invariant
            from <= j <= s@.len(),
            class_stop(s@, from as int) == class_stop(s@, j as int),
        decreases s@.len() - j,
    {
        j += 1;
    }
    j
}

fn push_byte_run(out: &mut Vec<u8>, lo: u8, hi: u8)
    requires
        lo <= hi,
    ensures
        final(out)@ == old(out)@ + byte_run(lo, hi),
{
    let mut b: u8 = lo;
    out.push(b);
    assert(out@ =~= old(out)@ + byte_run(lo, lo));
    while b < hi
        invariant
            lo <= b <= hi,
            out@ == old(out)@ + byte_run(lo, b),
        decreases hi - b,
    {
        b += 1;
        out.push(b);
        assert(out@ =~= old(out)@ + byte_run(lo, b));
    }
}

fn collect_members(s: &[u8], from: usize, end: usize) -> (r: Result<Vec<u8>, RegexError>)
    requires
        from <= end <= s@.len(),
    ensures
        bytes_result(r) == class_members(s@, from as int, end as int, Seq::<u8>::empty()),
{
    let mut m: Vec<u8> = Vec::new();
    let mut k: usize = from;
    while k < end
        invariant
            from <= k <= end <= s@.len(),
            class_members(s@, from as int, end as int, Seq::<u8>::empty()) == class_members(
                s@,
                k as int,
                end as int,
                m@,
            ),
        decreases end - k,
    {
        if end - k > 2 && s[k + 1] == 45 {
            if s[k + 2] < s[k] {
                return Err(RegexError::InvalidRange);
            }
            push_byte_run(&mut m, s[k], s[k + 2]);
            k += 3;
        } else {
            m.push(s[k]);
            k += 1;
        }
    }
    Ok(m)
}

fn push_class_text(out: &mut Vec<u8>, m: &Vec<u8>)
    ensures
        final(out)@ == old(out)@ + class_text(m@),
{
    out.push(40);
    let mut k: usize = 0;
    while k < m.len()
        invariant
            0 <= k <= m@.len(),
            out@ == old(out)@ + seq![40u8] + members_text(m@, k as int),
        decreases m@.len() - k,
    {
        let b = m[k];
        if k != 0 {
            out.push(124);
        }
        if b == 92 || b == 46 || b == 40 || b == 41 || b == 42 || b == 124 {
            out.push(92);
        }
        out.push(b);
        assert(out@ =~= old(out)@ + seq![40u8] + members_text(m@, k + 1));
        k += 1;
    }
    out.push(41);
    assert(out@ =~= old(out)@ + class_text(m@));
}


// ---------------------------------------------------------------------------
// Tokens
// ---------------------------------------------------------------------------

/// The token that an unescaped byte other than the backslash stands for.
pub open spec fn plain_token(b: u8) -> Charactor {
    if b == 40 {
        Charactor::LeftBracket
    } else if b == 41 {
        Charactor::RightBracket
    } else if b == 42 {
        Charactor::Closure
    } else if b == 124 {
        Charactor::Or
    } else if b == 46 {
        Charactor::Concat
    } else {
        Charactor::Char(b)
    }
}

/// The tokens of `s[i..]`, appended to `acc`. A backslash makes the special
/// byte after it a literal, is an error before any other byte, and is dropped
/// at the end of the text.
pub open spec fn tokens(s: Seq<u8>, i: int, acc: Seq<Charactor>) -> Result<
    Seq<Charactor>,
    RegexError,
>
    decreases s.len() - i,
{
    if i < 0 || i >= s.len() {
        Ok(acc)
    } else if s[i] == 92 {
        if i + 1 >= s.len() {
            Ok(acc)
        } else if is_special(s[i + 1]) {
            tokens(s, i + 2, acc.push(Charactor::Char(s[i + 1])))
        } else {
            Err(RegexError::InvalidEscape)
        }
    } else {
        tokens(s, i + 1, acc.push(plain_token(s[i])))
    }
}

// ---------------------------------------------------------------------------
// Explicit concatenation
// ---------------------------------------------------------------------------

/// A concatenation marker belongs between `left` and `right`.
pub open spec fn joins(left: Charactor, right: Charactor) -> bool {
    &&& left != Charactor::LeftBracket
    &&& left != Charactor::Or
    &&& right != Charactor::RightBracket
    &&& right != Charactor::Or
    &&& right != Charactor::Closure
}

/// The first `n` tokens of `t`, each followed by a marker where one belongs.
pub open spec fn with_concat(t: Seq<Charactor>, n: int) -> Seq<Charactor>
    decreases n,
{
    if n <= 0 {
        Seq::<Charactor>::empty()
    } else if n < t.len() && joins(t[n - 1], t[n]) {
        with_concat(t, n - 1).push(t[n - 1]).push(Charactor::Concat)
    } else {
        with_concat(t, n - 1).push(t[n - 1])
    }
}

/// `t` with its markers, inside one group.
pub open spec fn explicit_concat(t: Seq<Charactor>) -> Seq<Charactor> {
    seq![Charactor::LeftBracket] + with_concat(t, t.len() as int) + seq![Charactor::RightBracket]
}

// ---------------------------------------------------------------------------
// Postfix order
// ---------------------------------------------------------------------------

/// Binding strength of an operator: closure over concatenation over alternation.
pub open spec fn priority(c: Charactor) -> int {
    match c {
        Charactor::Closure => 2,
        Charactor::Concat => 1,
        _ => 0,
    }
}

/// The operator stack and the output after a `)`: operators move to the output
/// down to the nearest `(`, which is dropped. `None` if there is no `(`.
pub open spec fn close_group(ops: Seq<Charactor>, out: Seq<Charactor>) -> Option<
    (Seq<Charactor>, Seq<Charactor>),
>
    decreases ops.len(),
{
    if ops.len() == 0 {
        None
    } else if ops.last() == Charactor::LeftBracket {
        Some((ops.drop_last(), out))
    } else {
        close_group(ops.drop_last(), out.push(ops.last()))
    }
}

/// The operator stack and the output before operator `cur` is pushed: operators
/// that bind at least as strongly move to the output, down to the nearest `(`.
pub open spec fn yield_to(ops: Seq<Charactor>, out: Seq<Charactor>, cur: Charactor) -> (
    Seq<Charactor>,
    Seq<Charactor>,
)
    decreases ops.len(),
{
    if ops.len() == 0 || ops.last() == Charactor::LeftBracket || priority(ops.last()) < priority(
        cur,
    ) {
        (ops, out)
    } else {
        yield_to(ops.drop_last(), out.push(ops.last()), cur)
    }
}

/// The postfix form of `t[i..]`, from operator stack `ops` and output `out`.
pub open spec fn postfix_from(
    t: Seq<Charactor>,
    i: int,
    ops: Seq<Charactor>,
    out: Seq<Charactor>,
) -> Result<Seq<Charactor>, RegexError>
    decreases t.len() - i,
{
    if i < 0 || i >= t.len() {
        if ops.len() == 0 {
            Ok(out)
        } else {
            Err(RegexError::UnbalancedGroup)
        }
    } else {
        match t[i] {
            Charactor::LeftBracket => postfix_from(t, i + 1, ops.push(t[i]), out),
            Charactor::RightBracket => match close_group(ops, out) {
                None => Err(RegexError::UnbalancedGroup),
                Some(p) => postfix_from(t, i + 1, p.0, p.1),
            },
            Charactor::Char(_) => postfix_from(t, i + 1, ops, out.push(t[i])),
            _ => {
                let p = yield_to(ops, out, t[i]);
                postfix_from(t, i + 1, p.0.push(t[i]), p.1)
            },
        }
    }
}

/// The postfix form of the infix tokens `t`.
pub open spec fn postfix(t: Seq<Charactor>) -> Result<Seq<Charactor>, RegexError> {
    postfix_from(t, 0, Seq::<Charactor>::empty(), Seq::<Charactor>::empty())
}

/// What a pattern compiles to: classes expanded, tokens read, concatenation
/// made explicit, and the whole put in postfix order.
pub open spec fn compiled(s: Seq<u8>) -> Result<Seq<Charactor>, RegexError> {
    match expand_classes(s, 0, Seq::<u8>::empty()) {
        Err(e) => Err(e),
        Ok(simple) => match tokens(simple, 0, Seq::<Charactor>::empty()) {
            Err(e) => Err(e),
            Ok(t) => postfix(explicit_concat(t)),
        },
    }
}

fn priority_of(c: Charactor) -> (p: u8)
    ensures
        p == priority(c),
{
    match c {
        Charactor::Closure => 2,
        Charactor::Concat => 1,
        _ => 0,
    }
}

impl RegexExpr {
    /// Compiles a pattern to postfix order. What comes out holds no grouping marker.
    pub fn build(expr: &str) -> (r: Result<RegexExpr, RegexError>)
        ensures
            match r {
                Ok(e) => compiled(expr.spec_bytes()) == Ok::<Seq<Charactor>, RegexError>(e@)
                    && no_groups(e@),
                Err(e) => compiled(expr.spec_bytes()) == Err::<Seq<Charactor>, RegexError>(e),
            },
    {
        let simple = match Self::to_simple_regex(expr.as_bytes()) {
            Ok(v) => v,
            Err(e) => {
                return Err(e);
            },
        };
        let tokens = match Self::tokenize(simple.as_slice()) {
            Ok(v) => v,
            Err(e) => {
                return Err(e);
            },
        };
        let infix = Self::to_explicit_concat_expr(&tokens);
        match Self::to_postfix(&infix) {
            Ok(v) => {
                proof {
                    lemma_postfix_keeps_operands(tokens@);
                }
                Ok(RegexExpr(v))
            },
            Err(e) => Err(e),
        }
    }

    /// Replaces every class `[..]` by the group of its members joined by `|`.
    pub fn to_simple_regex(expr: &[u8]) -> (r: Result<Vec<u8>, RegexError>)
        ensures
            bytes_result(r) == expand_classes(expr@, 0, Seq::<u8>::empty()),
    {
        let mut out: Vec<u8> = Vec::new();
        let mut i: usize = 0;
        while i < expr.len()
            invariant
                0 <= i <= expr@.len(),
                expand_classes(expr@, 0, Seq::<u8>::empty()) == expand_classes(
                    expr@,
                    i as int,
                    out@,
                ),
            decreases expr@.len() - i,
        {
            if expr[i] == 91 {
                let j = find_class_stop(expr, i + 1);
                if j < expr.len() && expr[j] == 93 {
                    let members = match collect_members(expr, i + 1, j) {
                        Ok(m) => m,
                        Err(e) => {
                            return Err(e);
                        },
                    };
                    push_class_text(&mut out, &members);
                    i = j + 1;
                } else {
                    out.push(expr[i]);
                    i += 1;
                }
            } else {
                out.push(expr[i]);
                i += 1;
            }
        }
        Ok(out)
    }

    /// Reads the tokens of a pattern that holds no class.
    pub fn to_charactors(expr: &str) -> (r: Result<Vec<Charactor>, RegexError>)
        ensures
            tokens_result(r) == tokens(expr.spec_bytes(), 0, Seq::<Charactor>::empty()),
    {
        Self::tokenize(expr.as_bytes())
    }

    /// Reads the tokens of the bytes of a pattern that holds no class.
    pub fn tokenize(expr: &[u8]) -> (r: Result<Vec<Charactor>, RegexError>)
        ensures
            tokens_result(r) == tokens(expr@, 0, Seq::<Charactor>::empty()),
    {
        let mut res: Vec<Charactor> = Vec::new();
        let mut i: usize = 0;
        while i < expr.len()
            invariant
                0 <= i <= expr@.len(),
                tokens(expr@, 0, Seq::<Charactor>::empty()) == tokens(expr@, i as int, res@),
            decreases expr@.len() - i,
        {
            let curr = expr[i];
            if curr == 92 {
                if expr.len() - i <= 1 {
                    return Ok(res);
                }
                let next = expr[i + 1];
                if next == 92 || next == 46 || next == 40 || next == 41 || next == 42 || next
                    == 124 {
                    res.push(Charactor::Char(next));
                    i += 2;
                } else {
                    return Err(RegexError::InvalidEscape);
                }
            } else {
                let token = if curr == 40 {
                    Charactor::LeftBracket
                } else if curr == 41 {
                    Charactor::RightBracket
                } else if curr == 42 {
                    Charactor::Closure
                } else if curr == 124 {
                    Charactor::Or
                } else if curr == 46 {
                    Charactor::Concat
                } else {
                    Charactor::Char(curr)
                };
                res.push(token);
                i += 1;
            }
        }
        Ok(res)
    }

    /// Puts a concatenation marker between every two tokens that it joins, and
    /// the whole in one group.
    pub fn to_explicit_concat_expr(expr: &Vec<Charactor>) -> (res: Vec<Charactor>)
        ensures
            res@ == explicit_concat(expr@),
    {
        let mut res: Vec<Charactor> = Vec::new();
        res.push(Charactor::LeftBracket);
        let mut i: usize = 0;
        while i < expr.len()
            invariant
                0 <= i <= expr@.len(),
                res@ == seq![Charactor::LeftBracket] + with_concat(expr@, i as int),
            decreases expr@.len() - i,
        {
            let curr = expr[i];
            res.push(curr);
            let mut marker = false;
            if curr != Charactor::LeftBracket && curr != Charactor::Or && i + 1 < expr.len() {
                let next = expr[i + 1];
                if next != Charactor::RightBracket && next != Charactor::Or && next
                    != Charactor::Closure {
                    marker = true;
                }
            }
            if marker {
                res.push(Charactor::Concat);
            }
            assert(res@ =~= seq![Charactor::LeftBracket] + with_concat(expr@, i + 1));
            i += 1;
        }
        res.push(Charactor::RightBracket);
        assert(res@ =~= explicit_concat(expr@));
        res
    }

    /// Reduces infix tokens to postfix order.
    pub fn to_postfix(expr: &Vec<Charactor>) -> (r: Result<Vec<Charactor>, RegexError>)
        ensures
            tokens_result(r) == postfix(expr@),
    {
        let mut ops: Vec<Charactor> = Vec::new();
        let mut out: Vec<Charactor> = Vec::new();
        let mut i: usize = 0;
        while i < expr.len()
            invariant
                0 <= i <= expr@.len(),
                postfix(expr@) == postfix_from(expr@, i as int, ops@, out@),
            decreases expr@.len() - i,
        {
            let curr = expr[i];
            match curr {
                Charactor::LeftBracket => {
                    ops.push(curr);
                },
                Charactor::RightBracket => {
                    let ghost ops0 = ops@;
                    let ghost out0 = out@;
                    let mut closed = false;
                    while !closed && ops.len() > 0
                        invariant
                            close_group(ops0, out0) == close_group(ops@, out@) || closed,
                            closed ==> close_group(ops0, out0) == Some((ops@, out@)),
                        decreases ops@.len() + if closed { 0int } else { 1int },
                    {
                        let top = ops.pop().unwrap();
                        if top == Charactor::LeftBracket {
                            closed = true;
                        } else {
                            out.push(top);
                        }
                    }
                    if !closed {
                        return Err(RegexError::UnbalancedGroup);
                    }
                },
                Charactor::Char(_) => {
                    out.push(curr);
                },
                _ => {
                    let rank = priority_of(curr);
                    let ghost ops0 = ops@;
                    let ghost out0 = out@;
                    let mut done = false;
                    while !done && ops.len() > 0
                        invariant
                            yield_to(ops0, out0, curr) == yield_to(ops@, out@, curr),
                            done ==> yield_to(ops@, out@, curr) == (ops@, out@),
                            rank == priority(curr),
                        decreases ops@.len() + if done { 0int } else { 1int },
                    {
                        let top = ops[ops.len() - 1];
                        if top == Charactor::LeftBracket || priority_of(top) < rank {
                            done = true;
                        } else {
                            ops.pop();
                            out.push(top);
                        }
                    }
                    ops.push(curr);
                },
            }
            i += 1;
        }
        if ops.len() != 0 {
            return Err(RegexError::UnbalancedGroup);
        }
        Ok(out)
    }
}


// ---------------------------------------------------------------------------
// Literals are neither lost, nor made, nor moved past each other
// ---------------------------------------------------------------------------

/// The literal bytes among the tokens, in their order.
pub open spec fn operands(t: Seq<Charactor>) -> Seq<u8>
    decreases t.len(),
{
    if t.len() == 0 {
        Seq::<u8>::empty()
    } else {
        match t.last() {
            Charactor::Char(b) => operands(t.drop_last()).push(b),
            _ => operands(t.drop_last()),
        }
    }
}

/// The number of literal bytes among the tokens.
pub open spec fn literals(t: Seq<Charactor>) -> nat {
    operands(t).len()
}

/// The tokens hold no grouping marker.
pub open spec fn no_groups(t: Seq<Charactor>) -> bool {
    forall|k: int|
        0 <= k < t.len() ==> (#[trigger] t[k]) != Charactor::LeftBracket && t[k]
            != Charactor::RightBracket
}

/// What an operator stack may hold: operators and opening markers.
pub open spec fn stack_tokens(t: Seq<Charactor>) -> bool {
    forall|k: int|
        0 <= k < t.len() ==> !((#[trigger] t[k]) is Char) && t[k] != Charactor::RightBracket
}

proof fn lemma_operands_push(t: Seq<Charactor>, c: Charactor)
    ensures
        operands(t.push(c)) == match c {
            Charactor::Char(b) => operands(t).push(b),
            _ => operands(t),
        },
{
    assert(t.push(c).drop_last() =~= t);
}

proof fn lemma_operands_concat(a: Seq<Charactor>, b: Seq<Charactor>)
    ensures
        operands(a + b) == operands(a) + operands(b),
    decreases b.len(),
{
    if b.len() == 0 {
        assert(a + b =~= a);
        assert(operands(a) + operands(b) =~= operands(a));
    } else {
        lemma_operands_concat(a, b.drop_last());
        assert((a + b).drop_last() =~= a + b.drop_last());
        assert((a + b).last() == b.last());
        match b.last() {
            Charactor::Char(c) => {
                assert((operands(a) + operands(b.drop_last())).push(c) =~= operands(a) + operands(
                    b.drop_last(),
                ).push(c));
            },
            _ => {},
        }
    }
}

proof fn lemma_with_concat_keeps_operands(t: Seq<Charactor>, n: int)
    requires
        0 <= n <= t.len(),
    ensures
        operands(with_concat(t, n)) == operands(t.take(n)),
    decreases n,
{
    if n > 0 {
        lemma_with_concat_keeps_operands(t, n - 1);
        let before = with_concat(t, n - 1);
        lemma_operands_push(before, t[n - 1]);
        lemma_operands_push(before.push(t[n - 1]), Charactor::Concat);
        assert(t.take(n).drop_last() =~= t.take(n - 1));
    }
}

/// Making concatenation explicit adds markers only.
pub proof fn lemma_explicit_concat_keeps_operands(t: Seq<Charactor>)
    ensures
        operands(explicit_concat(t)) == operands(t),
{
    lemma_with_concat_keeps_operands(t, t.len() as int);
    assert(t.take(t.len() as int) =~= t);
    let open = seq![Charactor::LeftBracket];
    let close = seq![Charactor::RightBracket];
    let inner = with_concat(t, t.len() as int);
    lemma_operands_concat(open, inner);
    lemma_operands_concat(open + inner, close);
    lemma_operands_push(Seq::<Charactor>::empty(), Charactor::LeftBracket);
    lemma_operands_push(Seq::<Charactor>::empty(), Charactor::RightBracket);
    assert(Seq::<Charactor>::empty().push(Charactor::LeftBracket) =~= open);
    assert(Seq::<Charactor>::empty().push(Charactor::RightBracket) =~= close);
    assert(operands(open) + operands(inner) + operands(close) =~= operands(inner));
}

proof fn lemma_close_group_moves_operators(ops: Seq<Charactor>, out: Seq<Charactor>)
    requires
        close_group(ops, out) is Some,
        stack_tokens(ops),
        no_groups(out),
    ensures
        stack_tokens(close_group(ops, out)->Some_0.0),
        no_groups(close_group(ops, out)->Some_0.1),
        operands(close_group(ops, out)->Some_0.1) == operands(out),
    decreases ops.len(),
{
    if ops.len() > 0 && ops.last() != Charactor::LeftBracket {
        let rest = ops.drop_last();
        let more = out.push(ops.last());
        assert(!(ops[ops.len() - 1] is Char) && ops[ops.len() - 1] != Charactor::RightBracket);
        assert forall|k: int| 0 <= k < rest.len() implies !((#[trigger] rest[k]) is Char) && rest[k]
            != Charactor::RightBracket by {
            assert(rest[k] == ops[k]);
        }
        lemma_operands_push(out, ops.last());
        lemma_close_group_moves_operators(rest, more);
    } else if ops.len() > 0 {
        let rest = ops.drop_last();
        assert forall|k: int| 0 <= k < rest.len() implies !((#[trigger] rest[k]) is Char) && rest[k]
            != Charactor::RightBracket by {
            assert(rest[k] == ops[k]);
        }
    }
}

proof fn lemma_yield_to_moves_operators(ops: Seq<Charactor>, out: Seq<Charactor>, cur: Charactor)
    requires
        stack_tokens(ops),
        no_groups(out),
    ensures
        stack_tokens(yield_to(ops, out, cur).0),
        no_groups(yield_to(ops, out, cur).1),
        operands(yield_to(ops, out, cur).1) == operands(out),
    decreases ops.len(),
{
    if !(ops.len() == 0 || ops.last() == Charactor::LeftBracket || priority(ops.last()) < priority(
        cur,
    )) {
        let rest = ops.drop_last();
        let more = out.push(ops.last());
        assert(!(ops[ops.len() - 1] is Char) && ops[ops.len() - 1] != Charactor::RightBracket);
        assert forall|k: int| 0 <= k < rest.len() implies !((#[trigger] rest[k]) is Char) && rest[k]
            != Charactor::RightBracket by {
            assert(rest[k] == ops[k]);
        }
        lemma_operands_push(out, ops.last());
        lemma_yield_to_moves_operators(rest, more, cur);
    }
}

proof fn lemma_postfix_from_keeps_operands(
    t: Seq<Charactor>,
    i: int,
    ops: Seq<Charactor>,
    out: Seq<Charactor>,
)
    requires
        0 <= i <= t.len(),
        stack_tokens(ops),
        no_groups(out),
        postfix_from(t, i, ops, out) is Ok,
    ensures
        operands(postfix_from(t, i, ops, out)->Ok_0) == operands(out) + operands(t.skip(i)),
        no_groups(postfix_from(t, i, ops, out)->Ok_0),
    decreases t.len() - i,
{
    if i >= t.len() {
        assert(t.skip(i) =~= Seq::<Charactor>::empty());
        assert(operands(out) + operands(t.skip(i)) =~= operands(out));
    } else {
        let head = seq![t[i]];
        let tail = t.skip(i + 1);
        assert(t.skip(i) =~= head + tail);
        lemma_operands_concat(head, tail);
        lemma_operands_push(Seq::<Charactor>::empty(), t[i]);
        assert(Seq::<Charactor>::empty().push(t[i]) =~= head);
        match t[i] {
            Charactor::LeftBracket => {
                lemma_postfix_from_keeps_operands(t, i + 1, ops.push(t[i]), out);
                assert(operands(head) + operands(tail) =~= operands(tail));
            },
            Charactor::RightBracket => {
                lemma_close_group_moves_operators(ops, out);
                let p = close_group(ops, out)->Some_0;
                lemma_postfix_from_keeps_operands(t, i + 1, p.0, p.1);
                assert(operands(head) + operands(tail) =~= operands(tail));
            },
            Charactor::Char(b) => {
                lemma_operands_push(out, t[i]);
                lemma_postfix_from_keeps_operands(t, i + 1, ops, out.push(t[i]));
                assert(operands(out).push(b) + operands(tail) =~= operands(out) + (operands(head)
                    + operands(tail)));
            },
            _ => {
                lemma_yield_to_moves_operators(ops, out, t[i]);
                let p = yield_to(ops, out, t[i]);
                lemma_postfix_from_keeps_operands(t, i + 1, p.0.push(t[i]), p.1);
                assert(operands(head) + operands(tail) =~= operands(tail));
            },
        }
    }
}

/// The postfix form of tokens with explicit concatenation holds the literal
/// bytes of the tokens, as many and in the same order, and no grouping marker.
pub proof fn lemma_postfix_keeps_operands(t: Seq<Charactor>)
    requires
        postfix(explicit_concat(t)) is Ok,
    ensures
        operands(postfix(explicit_concat(t))->Ok_0) == operands(t),
        literals(postfix(explicit_concat(t))->Ok_0) == literals(t),
        no_groups(postfix(explicit_concat(t))->Ok_0),
{
    let infix = explicit_concat(t);
    lemma_postfix_from_keeps_operands(
        infix,
        0,
        Seq::<Charactor>::empty(),
        Seq::<Charactor>::empty(),
    );
    assert(infix.skip(0) =~= infix);
    assert(Seq::<u8>::empty() + operands(infix) =~= operands(infix));
    lemma_explicit_concat_keeps_operands(t);
}

/// A compiled pattern holds exactly as many literal bytes as the pattern has
/// literal tokens once its classes are expanded, and in their order.
pub proof fn lemma_compiled_keeps_literals(s: Seq<u8>)
    requires
        compiled(s) is Ok,
    ensures
        expand_classes(s, 0, Seq::<u8>::empty()) is Ok,
        tokens(expand_classes(s, 0, Seq::<u8>::empty())->Ok_0, 0, Seq::<Charactor>::empty()) is Ok,
        literals(compiled(s)->Ok_0) == literals(
            tokens(
                expand_classes(s, 0, Seq::<u8>::empty())->Ok_0,
                0,
                Seq::<Charactor>::empty(),
            )->Ok_0,
        ),
        operands(compiled(s)->Ok_0) == operands(
            tokens(
                expand_classes(s, 0, Seq::<u8>::empty())->Ok_0,
                0,
                Seq::<Charactor>::empty(),
            )->Ok_0,
        ),
{
    let simple = expand_classes(s, 0, Seq::<u8>::empty())->Ok_0;
    let t = tokens(simple, 0, Seq::<Charactor>::empty())->Ok_0;
    lemma_postfix_keeps_operands(t);
}

} // verus!

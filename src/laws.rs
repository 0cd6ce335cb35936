use crate::ast::{fold_level, parse_level, parse_tokens, is_level_op, Expression};
use crate::common::{ParseError, UToken, UTokenType};
use crate::common::ScanError;
use crate::scanner::{
    is_digit_spec, lemma_run_end_bounds, operator_kind, prepend, run_end, scan_from, token_views,
    tokenize,
};
use vstd::prelude::*;

verus! {

/// The kinds of a token sequence, in order.
pub open spec fn token_kinds(toks: Seq<UToken>) -> Seq<UTokenType> {
    toks.map_values(|t: UToken| t._type)
}

/// The token kinds a tree was built from, in source order; a grouping
/// contributes its two parentheses.
pub open spec fn yield_kinds(e: Expression) -> Seq<UTokenType>
    decreases e,
{
    match e {
        Expression::NumberLiteral { token } => seq![token._type],
        Expression::BinaryExpression { left, right, token } => yield_kinds(*left) + seq![token._type]
            + yield_kinds(*right),
        Expression::GroupingExpression { expression } => seq![UTokenType::Left] + yield_kinds(
            *expression,
        ) + seq![UTokenType::Right],
    }
}

proof fn lemma_level_yield(toks: Seq<UToken>, pos: int, depth: nat, lvl: nat)
    ensures
        match parse_level(toks, pos, depth, lvl) {
            Ok((e, p)) => 0 <= pos < p <= toks.len() && yield_kinds(e) == token_kinds(toks).subrange(
                pos,
                p,
            ),
            Err(_) => true,
        },
    decreases depth, lvl, 1int, 0int,
{
    let k = token_kinds(toks);
    if lvl == 0 {
        if 0 <= pos < toks.len() && toks[pos]._type == UTokenType::Number {
            assert(k.subrange(pos, pos + 1) =~= seq![toks[pos]._type]);
        } else if 0 <= pos < toks.len() && toks[pos]._type == UTokenType::Left && depth > 0 {
            lemma_level_yield(toks, pos + 1, (depth - 1) as nat, 3);
            match parse_level(toks, pos + 1, (depth - 1) as nat, 3) {
                Ok((e, p)) => {
                    if 0 <= p < toks.len() && toks[p]._type == UTokenType::Right {
                        assert(seq![UTokenType::Left] + k.subrange(pos + 1, p) + seq![UTokenType::Right]
                            =~= k.subrange(pos, p + 1));
                    }
                },
                Err(_) => {},
            }
        }
    } else if lvl <= 3 {
        lemma_level_yield(toks, pos, depth, (lvl - 1) as nat);
        match parse_level(toks, pos, depth, (lvl - 1) as nat) {
            Ok((e, p)) => {
                lemma_fold_yield(toks, p, depth, lvl, e);
                match fold_level(toks, p, depth, lvl, e) {
                    Ok((rhs, next)) => {
                        assert(k.subrange(pos, p) + k.subrange(p, next) =~= k.subrange(pos, next));
                    },
                    Err(_) => {},
                }
            },
            Err(_) => {},
        }
    }
}

proof fn lemma_fold_yield(toks: Seq<UToken>, pos: int, depth: nat, lvl: nat, acc: Expression)
    requires
        0 <= pos <= toks.len(),
    ensures
        match fold_level(toks, pos, depth, lvl, acc) {
            Ok((e, p)) => pos <= p <= toks.len() && yield_kinds(e) == yield_kinds(acc) + token_kinds(
                toks,
            ).subrange(pos, p),
            Err(_) => true,
        },
    decreases depth, lvl, 0int, toks.len() - pos,
{
    let k = token_kinds(toks);
    if 0 <= pos < toks.len() && 0 < lvl && is_level_op(lvl, toks[pos]._type) {
        lemma_level_yield(toks, pos + 1, depth, (lvl - 1) as nat);
        match parse_level(toks, pos + 1, depth, (lvl - 1) as nat) {
            Ok((rhs, next)) => {
                if pos < next <= toks.len() {
                    let b = Expression::BinaryExpression {
                        left: Box::new(acc),
                        right: Box::new(rhs),
                        token: toks[pos],
                    };
                    lemma_fold_yield(toks, next, depth, lvl, b);
                    match fold_level(toks, next, depth, lvl, b) {
                        Ok((e, p)) => {
                            assert(yield_kinds(b) == yield_kinds(acc) + seq![toks[pos]._type]
                                + k.subrange(pos + 1, next));
                            assert(yield_kinds(acc) + seq![toks[pos]._type] + k.subrange(pos + 1, next)
                                + k.subrange(next, p) =~= yield_kinds(acc) + k.subrange(pos, p));
                        },
                        Err(_) => {},
                    }
                }
            },
            Err(_) => {},
        }
    } else {
        assert(yield_kinds(acc) + k.subrange(pos, pos) =~= yield_kinds(acc));
    }
}

/// A successful parse uses every token: the tree lists the kinds of all the
/// tokens in order, with the parentheses of each group around it. A
/// top-level expression that ends before the last token is rejected as an
/// unexpected token.
pub proof fn lemma_parse_consumes_all(toks: Seq<UToken>, max_depth: nat)
    ensures
        match parse_tokens(toks, max_depth) {
            Ok(e) => yield_kinds(e) == token_kinds(toks),
            Err(_) => true,
        },
        match parse_level(toks, 0, max_depth, 3) {
            Ok((e, p)) => p < toks.len() ==> parse_tokens(toks, max_depth) == Err::<
                Expression,
                ParseError,
            >(ParseError::UnexpectedToken),
            Err(_) => true,
        },
{
    lemma_level_yield(toks, 0, max_depth, 3);
    assert(token_kinds(toks).subrange(0, toks.len() as int) =~= token_kinds(toks));
}

/// `toks` between an opening and a closing parenthesis.
pub open spec fn wrapped(l: UToken, toks: Seq<UToken>, r: UToken) -> Seq<UToken> {
    seq![l] + toks + seq![r]
}

/// Whether a parse of level `lvl` that reached the end of its tokens also
/// stops when `post` follows them.
pub open spec fn stops_before(post: Seq<UToken>, lvl: nat) -> bool {
    post.len() == 0 || ((lvl >= 1 ==> !is_level_op(1, post[0]._type)) && (lvl >= 2
        ==> !is_level_op(2, post[0]._type)) && (lvl >= 3 ==> !is_level_op(3, post[0]._type)))
}

/// A parse of `mid` gives the same tree inside `pre + mid + post`, shifted
/// by the length of `pre`, when it ends before the end of `mid` or `post`
/// does not continue it.
proof fn lemma_level_context(
    pre: Seq<UToken>,
    mid: Seq<UToken>,
    post: Seq<UToken>,
    pos: int,
    depth: nat,
    lvl: nat,
)
    ensures
        match parse_level(mid, pos, depth, lvl) {
            Ok((e, p)) => (p < mid.len() || stops_before(post, lvl)) ==> parse_level(
                pre + mid + post,
                pos + pre.len(),
                depth,
                lvl,
            ) == Ok::<(Expression, int), ParseError>((e, p + pre.len())),
            Err(_) => true,
        },
    decreases depth, lvl, 1int, 0int,
{
    let w = pre + mid + post;
    let o = pre.len() as int;
    assert(w.len() == o + mid.len() + post.len());
    if lvl == 0 {
        if 0 <= pos < mid.len() && mid[pos]._type == UTokenType::Number {
            assert(w[pos + o] == mid[pos]);
        } else if 0 <= pos < mid.len() && mid[pos]._type == UTokenType::Left && depth > 0 {
            assert(w[pos + o] == mid[pos]);
            lemma_level_context(pre, mid, post, pos + 1, (depth - 1) as nat, 3);
            match parse_level(mid, pos + 1, (depth - 1) as nat, 3) {
                Ok((e, p)) => {
                    if 0 <= p < mid.len() {
                        assert(w[p + o] == mid[p]);
                    }
                },
                Err(_) => {},
            }
        }
    } else if lvl <= 3 {
        lemma_level_context(pre, mid, post, pos, depth, (lvl - 1) as nat);
        lemma_level_yield(mid, pos, depth, (lvl - 1) as nat);
        match parse_level(mid, pos, depth, (lvl - 1) as nat) {
            Ok((e, p)) => {
                lemma_fold_context(pre, mid, post, p, depth, lvl, e);
            },
            Err(_) => {},
        }
    }
}

proof fn lemma_fold_context(
    pre: Seq<UToken>,
    mid: Seq<UToken>,
    post: Seq<UToken>,
    pos: int,
    depth: nat,
    lvl: nat,
    acc: Expression,
)
    requires
        0 <= pos <= mid.len(),
    ensures
        match fold_level(mid, pos, depth, lvl, acc) {
            Ok((e, p)) => (p < mid.len() || stops_before(post, lvl)) ==> fold_level(
                pre + mid + post,
                pos + pre.len(),
                depth,
                lvl,
                acc,
            ) == Ok::<(Expression, int), ParseError>((e, p + pre.len())),
            Err(_) => true,
        },
    decreases depth, lvl, 0int, mid.len() - pos,
{
    let w = pre + mid + post;
    let o = pre.len() as int;
    assert(w.len() == o + mid.len() + post.len());
    if pos < mid.len() {
        assert(w[pos + o] == mid[pos]);
    } else if post.len() > 0 {
        assert(w[pos + o] == post[0]);
    }
    if 0 <= pos < mid.len() && 0 < lvl && is_level_op(lvl, mid[pos]._type) {
        lemma_level_context(pre, mid, post, pos + 1, depth, (lvl - 1) as nat);
        lemma_level_yield(mid, pos + 1, depth, (lvl - 1) as nat);
        match parse_level(mid, pos + 1, depth, (lvl - 1) as nat) {
            Ok((rhs, next)) => {
                if pos < next <= mid.len() {
                    let b = Expression::BinaryExpression {
                        left: Box::new(acc),
                        right: Box::new(rhs),
                        token: mid[pos],
                    };
                    lemma_fold_context(pre, mid, post, next, depth, lvl, b);
                }
            },
            Err(_) => {},
        }
    }
}

proof fn lemma_level_depth(toks: Seq<UToken>, pos: int, depth: nat, more: nat, lvl: nat)
    requires
        depth <= more,
    ensures
        parse_level(toks, pos, depth, lvl) is Ok ==> parse_level(toks, pos, more, lvl) == parse_level(
            toks,
            pos,
            depth,
            lvl,
        ),
    decreases depth, lvl, 1int, 0int,
{
    if lvl == 0 {
        if 0 <= pos < toks.len() && toks[pos]._type == UTokenType::Left && depth > 0 {
            lemma_level_depth(toks, pos + 1, (depth - 1) as nat, (more - 1) as nat, 3);
        }
    } else if lvl <= 3 {
        lemma_level_depth(toks, pos, depth, more, (lvl - 1) as nat);
        lemma_level_yield(toks, pos, depth, (lvl - 1) as nat);
        match parse_level(toks, pos, depth, (lvl - 1) as nat) {
            Ok((e, p)) => {
                lemma_fold_depth(toks, p, depth, more, lvl, e);
            },
            Err(_) => {},
        }
    }
}

proof fn lemma_fold_depth(toks: Seq<UToken>, pos: int, depth: nat, more: nat, lvl: nat, acc: Expression)
    requires
        depth <= more,
        0 <= pos <= toks.len(),
    ensures
        fold_level(toks, pos, depth, lvl, acc) is Ok ==> fold_level(toks, pos, more, lvl, acc)
            == fold_level(toks, pos, depth, lvl, acc),
    decreases depth, lvl, 0int, toks.len() - pos,
{
    if 0 <= pos < toks.len() && 0 < lvl && is_level_op(lvl, toks[pos]._type) {
        lemma_level_depth(toks, pos + 1, depth, more, (lvl - 1) as nat);
        match parse_level(toks, pos + 1, depth, (lvl - 1) as nat) {
            Ok((rhs, next)) => {
                if pos < next <= toks.len() {
                    let b = Expression::BinaryExpression {
                        left: Box::new(acc),
                        right: Box::new(rhs),
                        token: toks[pos],
                    };
                    lemma_fold_depth(toks, next, depth, more, lvl, b);
                }
            },
            Err(_) => {},
        }
    }
}

/// A larger nesting limit never changes a successful parse.
pub proof fn lemma_larger_limit(toks: Seq<UToken>, max_depth: nat, larger: nat)
    requires
        max_depth <= larger,
        parse_tokens(toks, max_depth) is Ok,
    ensures
        parse_tokens(toks, larger) == parse_tokens(toks, max_depth),
{
    lemma_level_depth(toks, 0, max_depth, larger, 3);
}

/// Wrapping a token sequence that parses to `e` in a pair of parentheses
/// gives a grouping node around `e`, under any limit that leaves room for
/// one more level of nesting.
pub proof fn lemma_parenthesised(l: UToken, toks: Seq<UToken>, r: UToken, max_depth: nat, outer: nat)
    requires
        l._type == UTokenType::Left,
        r._type == UTokenType::Right,
        parse_tokens(toks, max_depth) is Ok,
        max_depth < outer,
    ensures
        parse_tokens(wrapped(l, toks, r), outer) == Ok::<Expression, ParseError>(
            Expression::GroupingExpression {
                expression: Box::new(parse_tokens(toks, max_depth)->Ok_0),
            },
        ),
{
    let w = wrapped(l, toks, r);
    let n = toks.len() as int;
    let e = parse_tokens(toks, max_depth)->Ok_0;
    let g = Expression::GroupingExpression { expression: Box::new(e) };
    lemma_level_context(seq![l], toks, seq![r], 0, max_depth, 3);
    assert(w =~= seq![l] + toks + seq![r]);
    lemma_level_depth(w, 0, max_depth + 1, outer, 3);
    assert(w[0] == l);
    assert(w[n + 1] == r);
    assert(parse_level(w, 1, max_depth, 3) == Ok::<(Expression, int), ParseError>((e, n + 1)));
    assert(parse_level(w, 0, max_depth + 1, 0) == Ok::<(Expression, int), ParseError>((g, n + 2)));
    assert(fold_level(w, n + 2, max_depth + 1, 1, g) == Ok::<(Expression, int), ParseError>((g, n + 2)));
    assert(parse_level(w, 0, max_depth + 1, 1) == Ok::<(Expression, int), ParseError>((g, n + 2)));
    assert(fold_level(w, n + 2, max_depth + 1, 2, g) == Ok::<(Expression, int), ParseError>((g, n + 2)));
    assert(parse_level(w, 0, max_depth + 1, 2) == Ok::<(Expression, int), ParseError>((g, n + 2)));
    assert(fold_level(w, n + 2, max_depth + 1, 3, g) == Ok::<(Expression, int), ParseError>((g, n + 2)));
    assert(parse_level(w, 0, max_depth + 1, 3) == Ok::<(Expression, int), ParseError>((g, n + 2)));
}

proof fn lemma_all_digits_run(s: Seq<char>, i: int)
    requires
        0 <= i <= s.len(),
        forall|k: int| 0 <= k < s.len() ==> is_digit_spec(#[trigger] s[k]),
    ensures
        run_end(s, i) == s.len(),
    decreases s.len() - i,
{
    if i < s.len() {
        lemma_all_digits_run(s, i + 1);
    }
}

/// Input made of one run of digits scans to a single number token holding
/// the run, however long, and that token parses to a number literal leaf.
pub proof fn lemma_single_number(s: Seq<char>, toks: Seq<UToken>, max_depth: nat)
    requires
        s.len() > 0,
        forall|k: int| 0 <= k < s.len() ==> is_digit_spec(#[trigger] s[k]),
    ensures
        tokenize(s) == Ok::<Seq<(UTokenType, Option<Seq<char>>)>, ScanError>(
            seq![(UTokenType::Number, Some(s))],
        ),
        token_views(toks) == seq![(UTokenType::Number, Some(s))] ==> parse_tokens(toks, max_depth)
            == Ok::<Expression, ParseError>(Expression::NumberLiteral { token: toks[0] }),
{
    lemma_all_digits_run(s, 0);
    assert(s.subrange(0, s.len() as int) =~= s);
    assert(is_digit_spec(s[0]));
    assert(run_end(s, 0) == s.len());
    assert(scan_from(s, s.len() as int) == Ok::<Seq<(UTokenType, Option<Seq<char>>)>, ScanError>(seq![]));
    assert(seq![(UTokenType::Number, Some(s))] + seq![] =~= seq![(UTokenType::Number, Some(s))]);
    if token_views(toks) == seq![(UTokenType::Number, Some(s))] {
        assert(toks.len() == 1);
        assert(toks[0]@ == token_views(toks)[0]);
        let e = Expression::NumberLiteral { token: toks[0] };
        assert(parse_level(toks, 0, max_depth, 0) == Ok::<(Expression, int), ParseError>((e, 1)));
        assert(fold_level(toks, 1, max_depth, 1, e) == Ok::<(Expression, int), ParseError>((e, 1)));
        assert(parse_level(toks, 0, max_depth, 1) == Ok::<(Expression, int), ParseError>((e, 1)));
        assert(fold_level(toks, 1, max_depth, 2, e) == Ok::<(Expression, int), ParseError>((e, 1)));
        assert(parse_level(toks, 0, max_depth, 2) == Ok::<(Expression, int), ParseError>((e, 1)));
        assert(fold_level(toks, 1, max_depth, 3, e) == Ok::<(Expression, int), ParseError>((e, 1)));
        assert(parse_level(toks, 0, max_depth, 3) == Ok::<(Expression, int), ParseError>((e, 1)));
    }
}

/// `s` between an opening and a closing parenthesis character.
pub open spec fn wrapped_text(s: Seq<char>) -> Seq<char> {
    seq!['('] + s + seq![')']
}

/// A scan result with a closing parenthesis token added at the end.
pub open spec fn close_scan(r: Result<Seq<(UTokenType, Option<Seq<char>>)>, ScanError>) -> Result<
    Seq<(UTokenType, Option<Seq<char>>)>,
    ScanError,
> {
    match r {
        Ok(ts) => Ok(ts + seq![(UTokenType::Right, None::<Seq<char>>)]),
        Err(x) => Err(x),
    }
}

proof fn lemma_run_end_wrapped(s: Seq<char>, i: int)
    requires
        0 <= i <= s.len(),
    ensures
        run_end(wrapped_text(s), i + 1) == run_end(s, i) + 1,
    decreases s.len() - i,
{
    let w = wrapped_text(s);
    if i < s.len() {
        assert(w[i + 1] == s[i]);
        lemma_run_end_wrapped(s, i + 1);
    } else {
        assert(w[i + 1] == ')');
    }
}

proof fn lemma_scan_wrapped(s: Seq<char>, i: int)
    requires
        0 <= i <= s.len(),
    ensures
        scan_from(wrapped_text(s), i + 1) == close_scan(scan_from(s, i)),
    decreases s.len() - i,
{
    let w = wrapped_text(s);
    let rt = seq![(UTokenType::Right, None::<Seq<char>>)];
    assert(w.len() == s.len() + 2);
    if i == s.len() {
        assert(w[i + 1] == ')');
        assert(scan_from(w, i + 2) == Ok::<Seq<(UTokenType, Option<Seq<char>>)>, ScanError>(seq![]));
        assert(rt + seq![] =~= rt);
        assert(seq![] + rt =~= rt);
    } else {
        assert(w[i + 1] == s[i]);
        if is_digit_spec(s[i]) {
            let j = run_end(s, i);
            lemma_run_end_wrapped(s, i);
            lemma_run_end_bounds(s, i);
            lemma_run_end_bounds(s, i + 1);
            assert(w.subrange(i + 1, j + 1) =~= s.subrange(i, j));
            if i < j <= s.len() {
                lemma_scan_wrapped(s, j);
                let head = seq![(UTokenType::Number, Some(s.subrange(i, j)))];
                match scan_from(s, j) {
                    Ok(ts) => {
                        assert(head + (ts + rt) =~= (head + ts) + rt);
                    },
                    Err(_) => {},
                }
            }
        } else {
            match operator_kind(s[i]) {
                Some(k) => {
                    lemma_scan_wrapped(s, i + 1);
                    let head = seq![(k, None::<Seq<char>>)];
                    match scan_from(s, i + 1) {
                        Ok(ts) => {
                            assert(head + (ts + rt) =~= (head + ts) + rt);
                        },
                        Err(_) => {},
                    }
                },
                None => {},
            }
        }
    }
}

/// The tokens of a parenthesised text are an opening parenthesis, the
/// tokens of the text, and a closing parenthesis; a text that fails to scan
/// fails in the same way inside parentheses.
pub proof fn lemma_parenthesised_text(s: Seq<char>)
    ensures
        tokenize(wrapped_text(s)) == prepend(
            seq![(UTokenType::Left, None::<Seq<char>>)],
            close_scan(tokenize(s)),
        ),
{
    let w = wrapped_text(s);
    assert(w[0] == '(');
    lemma_scan_wrapped(s, 0);
    match tokenize(s) {
        Ok(ts) => {},
        Err(_) => {},
    }
}

/// Whether `toks` as a whole is one expression of level `lvl`.
pub open spec fn whole_level(toks: Seq<UToken>, depth: nat, lvl: nat) -> bool {
    parse_level(toks, 0, depth, lvl) is Ok && parse_level(toks, 0, depth, lvl)->Ok_0.1 == toks.len()
}

/// The tree of `toks` read as one expression of level `lvl`.
pub open spec fn level_tree(toks: Seq<UToken>, depth: nat, lvl: nat) -> Expression {
    parse_level(toks, 0, depth, lvl)->Ok_0.0
}

/// Additive operators group to the left: with `a`, `b` and `c` each one
/// multiplicative expression, `a o1 b o2 c` parses as `(a o1 b) o2 c`.
pub proof fn lemma_additive_left_assoc(
    a: Seq<UToken>,
    o1: UToken,
    b: Seq<UToken>,
    o2: UToken,
    c: Seq<UToken>,
    depth: nat,
)
    requires
        whole_level(a, depth, 2),
        whole_level(b, depth, 2),
        whole_level(c, depth, 2),
        is_level_op(3, o1._type),
        is_level_op(3, o2._type),
    ensures
        parse_tokens(a + seq![o1] + b + seq![o2] + c, depth) == Ok::<Expression, ParseError>(
            Expression::BinaryExpression {
                left: Box::new(
                    Expression::BinaryExpression {
                        left: Box::new(level_tree(a, depth, 2)),
                        right: Box::new(level_tree(b, depth, 2)),
                        token: o1,
                    },
                ),
                right: Box::new(level_tree(c, depth, 2)),
                token: o2,
            },
        ),
{
    let full = a + seq![o1] + b + seq![o2] + c;
    let (ta, tb, tc) = (level_tree(a, depth, 2), level_tree(b, depth, 2), level_tree(c, depth, 2));
    let na = a.len() as int;
    let q = na + 1 + b.len();
    let n = full.len() as int;
    let empty = Seq::<UToken>::empty();
    let post_a = seq![o1] + b + seq![o2] + c;
    lemma_level_context(empty, a, post_a, 0, depth, 2);
    assert(empty + a + post_a =~= full);
    assert(post_a[0] == o1);
    let pre_b = a + seq![o1];
    let post_b = seq![o2] + c;
    lemma_level_context(pre_b, b, post_b, 0, depth, 2);
    assert(pre_b + b + post_b =~= full);
    assert(post_b[0] == o2);
    let pre_c = a + seq![o1] + b + seq![o2];
    lemma_level_context(pre_c, c, empty, 0, depth, 2);
    assert(pre_c + c + empty =~= full);
    assert(full[na] == o1);
    assert(full[q] == o2);
    let b1 = Expression::BinaryExpression { left: Box::new(ta), right: Box::new(tb), token: o1 };
    let b2 = Expression::BinaryExpression { left: Box::new(b1), right: Box::new(tc), token: o2 };
    assert(parse_level(full, 0, depth, 2) == Ok::<(Expression, int), ParseError>((ta, na)));
    assert(parse_level(full, na + 1, depth, 2) == Ok::<(Expression, int), ParseError>((tb, q)));
    assert(parse_level(full, q + 1, depth, 2) == Ok::<(Expression, int), ParseError>((tc, n)));
    assert(fold_level(full, n, depth, 3, b2) == Ok::<(Expression, int), ParseError>((b2, n)));
    assert(fold_level(full, q, depth, 3, b1) == Ok::<(Expression, int), ParseError>((b2, n)));
    assert(fold_level(full, na, depth, 3, ta) == Ok::<(Expression, int), ParseError>((b2, n)));
    assert(parse_level(full, 0, depth, 3) == Ok::<(Expression, int), ParseError>((b2, n)));
}

/// Multiplicative operators bind tighter than additive ones: with `a` one
/// multiplicative expression and `b`, `c` each one power expression,
/// `a o1 b o2 c` with `o1` additive and `o2` multiplicative parses as
/// `a o1 (b o2 c)`.
pub proof fn lemma_multiplicative_binds_tighter(
    a: Seq<UToken>,
    o1: UToken,
    b: Seq<UToken>,
    o2: UToken,
    c: Seq<UToken>,
    depth: nat,
)
    requires
        whole_level(a, depth, 2),
        whole_level(b, depth, 1),
        whole_level(c, depth, 1),
        is_level_op(3, o1._type),
        is_level_op(2, o2._type),
    ensures
        parse_tokens(a + seq![o1] + b + seq![o2] + c, depth) == Ok::<Expression, ParseError>(
            Expression::BinaryExpression {
                left: Box::new(level_tree(a, depth, 2)),
                right: Box::new(
                    Expression::BinaryExpression {
                        left: Box::new(level_tree(b, depth, 1)),
                        right: Box::new(level_tree(c, depth, 1)),
                        token: o2,
                    },
                ),
                token: o1,
            },
        ),
{
    let full = a + seq![o1] + b + seq![o2] + c;
    let (ta, tb, tc) = (level_tree(a, depth, 2), level_tree(b, depth, 1), level_tree(c, depth, 1));
    let na = a.len() as int;
    let q = na + 1 + b.len();
    let n = full.len() as int;
    let empty = Seq::<UToken>::empty();
    let post_a = seq![o1] + b + seq![o2] + c;
    lemma_level_context(empty, a, post_a, 0, depth, 2);
    assert(empty + a + post_a =~= full);
    assert(post_a[0] == o1);
    let pre_b = a + seq![o1];
    let post_b = seq![o2] + c;
    lemma_level_context(pre_b, b, post_b, 0, depth, 1);
    assert(pre_b + b + post_b =~= full);
    assert(post_b[0] == o2);
    let pre_c = a + seq![o1] + b + seq![o2];
    lemma_level_context(pre_c, c, empty, 0, depth, 1);
    assert(pre_c + c + empty =~= full);
    assert(full[na] == o1);
    assert(full[q] == o2);
    let inner = Expression::BinaryExpression { left: Box::new(tb), right: Box::new(tc), token: o2 };
    let top = Expression::BinaryExpression { left: Box::new(ta), right: Box::new(inner), token: o1 };
    assert(parse_level(full, 0, depth, 2) == Ok::<(Expression, int), ParseError>((ta, na)));
    assert(parse_level(full, na + 1, depth, 1) == Ok::<(Expression, int), ParseError>((tb, q)));
    assert(parse_level(full, q + 1, depth, 1) == Ok::<(Expression, int), ParseError>((tc, n)));
    assert(fold_level(full, n, depth, 2, inner) == Ok::<(Expression, int), ParseError>((inner, n)));
    assert(fold_level(full, q, depth, 2, tb) == Ok::<(Expression, int), ParseError>((inner, n)));
    assert(parse_level(full, na + 1, depth, 2) == Ok::<(Expression, int), ParseError>((inner, n)));
    assert(fold_level(full, n, depth, 3, top) == Ok::<(Expression, int), ParseError>((top, n)));
    assert(fold_level(full, na, depth, 3, ta) == Ok::<(Expression, int), ParseError>((top, n)));
    assert(parse_level(full, 0, depth, 3) == Ok::<(Expression, int), ParseError>((top, n)));
}

/// Whether `e` is a derivation of grammar level `lvl` (0: atom, 1: power,
/// 2: product, 3: sum) with at most `depth` levels of parentheses:
/// binary nodes of a level carry that level's operator, a left operand of
/// the same level and a right operand of the level below.
pub open spec fn derives(e: Expression, lvl: nat, depth: nat) -> bool
    decreases e, lvl,
{
    if lvl == 0 {
        match e {
            Expression::NumberLiteral { token } => token._type == UTokenType::Number,
            Expression::GroupingExpression { expression } => depth > 0 && derives(
                *expression,
                3,
                (depth - 1) as nat,
            ),
            Expression::BinaryExpression { .. } => false,
        }
    } else if lvl <= 3 {
        derives(e, (lvl - 1) as nat, depth) || match e {
            Expression::BinaryExpression { left, right, token } => is_level_op(lvl, token._type)
                && derives(*left, lvl, depth) && derives(*right, (lvl - 1) as nat, depth),
            _ => false,
        }
    } else {
        false
    }
}

/// The tokens a tree stands for, with a plain parenthesis token on each
/// side of a group.
pub open spec fn unparse(e: Expression) -> Seq<UToken>
    decreases e,
{
    match e {
        Expression::NumberLiteral { token } => seq![token],
        Expression::BinaryExpression { left, right, token } => unparse(*left) + seq![token] + unparse(
            *right,
        ),
        Expression::GroupingExpression { expression } => seq![
            UToken { _type: UTokenType::Left, _val: None },
        ] + unparse(*expression) + seq![UToken { _type: UTokenType::Right, _val: None }],
    }
}

proof fn lemma_derivation_parses(e: Expression, lvl: nat, depth: nat)
    requires
        lvl <= 3,
        derives(e, lvl, depth),
    ensures
        parse_level(unparse(e), 0, depth, lvl) == Ok::<(Expression, int), ParseError>(
            (e, unparse(e).len() as int),
        ),
    decreases e, lvl, 1int,
{
    let u = unparse(e);
    if lvl == 0 {
        match e {
            Expression::GroupingExpression { expression } => {
                let inner = *expression;
                let l = UToken { _type: UTokenType::Left, _val: None };
                let r = UToken { _type: UTokenType::Right, _val: None };
                lemma_derivation_parses(inner, 3, (depth - 1) as nat);
                lemma_level_context(seq![l], unparse(inner), seq![r], 0, (depth - 1) as nat, 3);
                assert(u[0] == l);
                assert(u[unparse(inner).len() as int + 1] == r);
            },
            _ => {},
        }
    } else {
        lemma_derivation_in_context(e, lvl, depth, Seq::<UToken>::empty());
        assert(u + Seq::<UToken>::empty() =~= u);
    }
}

proof fn lemma_derivation_in_context(e: Expression, lvl: nat, depth: nat, post: Seq<UToken>)
    requires
        1 <= lvl <= 3,
        derives(e, lvl, depth),
        stops_before(post, (lvl - 1) as nat),
    ensures
        parse_level(unparse(e) + post, 0, depth, lvl) == fold_level(
            unparse(e) + post,
            unparse(e).len() as int,
            depth,
            lvl,
            e,
        ),
    decreases e, lvl, 0int,
{
    let all = unparse(e) + post;
    let empty = Seq::<UToken>::empty();
    if derives(e, (lvl - 1) as nat, depth) {
        lemma_derivation_parses(e, (lvl - 1) as nat, depth);
        lemma_level_context(empty, unparse(e), post, 0, depth, (lvl - 1) as nat);
        assert(empty + unparse(e) + post =~= all);
    } else {
        match e {
            Expression::BinaryExpression { left, right, token } => {
                let (l, r) = (*left, *right);
                let (ul, ur) = (unparse(l), unparse(r));
                let rest = seq![token] + ur + post;
                assert(ul + rest =~= all);
                assert(rest[0] == token);
                lemma_derivation_in_context(l, lvl, depth, rest);
                lemma_derivation_parses(r, (lvl - 1) as nat, depth);
                lemma_level_context(ul + seq![token], ur, post, 0, depth, (lvl - 1) as nat);
                assert(ul + seq![token] + ur + post =~= all);
                assert(all[ul.len() as int] == token);
                assert(parse_level(all, ul.len() as int + 1, depth, (lvl - 1) as nat) == Ok::<
                    (Expression, int),
                    ParseError,
                >((r, ul.len() as int + 1 + ur.len())));
            },
            _ => {},
        }
    }
}

/// Every token sequence of the grammar parses: the tokens of any derivation
/// of a sum, within the nesting limit, parse back to that same tree.
pub proof fn lemma_valid_parses(e: Expression, max_depth: nat)
    requires
        derives(e, 3, max_depth),
    ensures
        parse_tokens(unparse(e), max_depth) == Ok::<Expression, ParseError>(e),
{
    lemma_derivation_parses(e, 3, max_depth);
}

proof fn lemma_level_sound(toks: Seq<UToken>, pos: int, depth: nat, lvl: nat)
    requires
        lvl <= 3,
    ensures
        parse_level(toks, pos, depth, lvl) is Ok ==> derives(
            parse_level(toks, pos, depth, lvl)->Ok_0.0,
            lvl,
            depth,
        ),
    decreases depth, lvl, 1int, 0int,
{
    if lvl == 0 {
        if 0 <= pos < toks.len() && toks[pos]._type == UTokenType::Left && depth > 0 {
            lemma_level_sound(toks, pos + 1, (depth - 1) as nat, 3);
        }
    } else {
        lemma_level_sound(toks, pos, depth, (lvl - 1) as nat);
        lemma_level_yield(toks, pos, depth, (lvl - 1) as nat);
        match parse_level(toks, pos, depth, (lvl - 1) as nat) {
            Ok((e, p)) => {
                lemma_fold_sound(toks, p, depth, lvl, e);
            },
            Err(_) => {},
        }
    }
}

proof fn lemma_fold_sound(toks: Seq<UToken>, pos: int, depth: nat, lvl: nat, acc: Expression)
    requires
        1 <= lvl <= 3,
        0 <= pos <= toks.len(),
        derives(acc, (lvl - 1) as nat, depth) || derives(acc, lvl, depth),
    ensures
        fold_level(toks, pos, depth, lvl, acc) is Ok ==> derives(
            fold_level(toks, pos, depth, lvl, acc)->Ok_0.0,
            lvl,
            depth,
        ),
    decreases depth, lvl, 0int, toks.len() - pos,
{
    assert(derives(acc, lvl, depth));
    if 0 <= pos < toks.len() && is_level_op(lvl, toks[pos]._type) {
        lemma_level_sound(toks, pos + 1, depth, (lvl - 1) as nat);
        match parse_level(toks, pos + 1, depth, (lvl - 1) as nat) {
            Ok((rhs, next)) => {
                if pos < next <= toks.len() {
                    let b = Expression::BinaryExpression {
                        left: Box::new(acc),
                        right: Box::new(rhs),
                        token: toks[pos],
                    };
                    assert(derives(b, lvl, depth));
                    lemma_fold_sound(toks, next, depth, lvl, b);
                }
            },
            Err(_) => {},
        }
    }
}

/// Every successful parse is a derivation of the grammar within the
/// nesting limit, and its tree lists the kinds of all the tokens.
/// So a token sequence whose kinds no derivation lists is rejected.
pub proof fn lemma_parse_sound(toks: Seq<UToken>, max_depth: nat)
    ensures
        parse_tokens(toks, max_depth) is Ok ==> derives(parse_tokens(toks, max_depth)->Ok_0, 3, max_depth)
            && yield_kinds(parse_tokens(toks, max_depth)->Ok_0) == token_kinds(toks),
        (forall|e: Expression| #[trigger] derives(e, 3, max_depth) ==> yield_kinds(e) != token_kinds(toks))
            ==> parse_tokens(toks, max_depth) is Err,
{
    lemma_level_sound(toks, 0, max_depth, 3);
    lemma_parse_consumes_all(toks, max_depth);
}

/// Whether the scanner accepts a character: a digit, an operator or a
/// parenthesis.
pub open spec fn allowed_char(c: char) -> bool {
    is_digit_spec(c) || operator_kind(c) is Some
}

proof fn lemma_scan_from_allowed(s: Seq<char>, i: int)
    requires
        0 <= i <= s.len(),
    ensures
        scan_from(s, i) is Ok <==> (forall|k: int| i <= k < s.len() ==> allowed_char(#[trigger] s[k])),
        scan_from(s, i) is Err ==> scan_from(s, i) == Err::<
            Seq<(UTokenType, Option<Seq<char>>)>,
            ScanError,
        >(ScanError::UnrecognizedCharacter),
    decreases s.len() - i,
{
    if i < s.len() {
        if is_digit_spec(s[i]) {
            let j = run_end(s, i);
            lemma_run_end_bounds(s, i);
            lemma_run_end_bounds(s, i + 1);
            lemma_scan_from_allowed(s, j);
            assert forall|k: int| i <= k < j implies allowed_char(#[trigger] s[k]) by {}
        } else if operator_kind(s[i]) is Some {
            lemma_scan_from_allowed(s, i + 1);
        } else {
            assert(!allowed_char(s[i]));
        }
    }
}

/// The scan succeeds exactly when every character is a digit, an operator
/// or a parenthesis; otherwise it fails with an unrecognized character,
/// whatever the lengths of the digit runs.
pub proof fn lemma_scan_accepts_allowed(s: Seq<char>)
    ensures
        tokenize(s) is Ok <==> (forall|k: int| 0 <= k < s.len() ==> allowed_char(#[trigger] s[k])),
        tokenize(s) is Err ==> tokenize(s) == Err::<Seq<(UTokenType, Option<Seq<char>>)>, ScanError>(
            ScanError::UnrecognizedCharacter,
        ),
{
    lemma_scan_from_allowed(s, 0);
}

/// How a token kind changes the count of open parentheses.
pub open spec fn paren_weight(t: UTokenType) -> int {
    if t == UTokenType::Left {
        1
    } else if t == UTokenType::Right {
        -1
    } else {
        0
    }
}

/// Opening parentheses minus closing ones.
pub open spec fn paren_balance(k: Seq<UTokenType>) -> int
    decreases k.len(),
{
    if k.len() == 0 {
        0
    } else {
        paren_balance(k.drop_last()) + paren_weight(k.last())
    }
}

/// Parentheses still open after the first `i` tokens.
pub open spec fn open_parens(toks: Seq<UToken>, i: int) -> int {
    paren_balance(token_kinds(toks).subrange(0, i))
}

proof fn lemma_balance_concat(a: Seq<UTokenType>, b: Seq<UTokenType>)
    ensures
        paren_balance(a + b) == paren_balance(a) + paren_balance(b),
    decreases b.len(),
{
    if b.len() == 0 {
        assert(a + b =~= a);
    } else {
        assert((a + b).drop_last() =~= a + b.drop_last());
        lemma_balance_concat(a, b.drop_last());
    }
}

proof fn lemma_balance_one(t: UTokenType)
    ensures
        paren_balance(seq![t]) == paren_weight(t),
{
    assert(seq![t].drop_last() =~= Seq::<UTokenType>::empty());
    assert(paren_balance(Seq::<UTokenType>::empty()) == 0);
    assert(seq![t].last() == t);
}

proof fn lemma_derivation_balanced(e: Expression, lvl: nat, depth: nat)
    requires
        lvl <= 3,
        derives(e, lvl, depth),
    ensures
        paren_balance(yield_kinds(e)) == 0,
    decreases e, lvl,
{
    if lvl == 0 {
        match e {
            Expression::NumberLiteral { token } => {
                lemma_balance_one(token._type);
            },
            Expression::GroupingExpression { expression } => {
                let y = yield_kinds(*expression);
                lemma_derivation_balanced(*expression, 3, (depth - 1) as nat);
                lemma_balance_one(UTokenType::Left);
                lemma_balance_one(UTokenType::Right);
                lemma_balance_concat(seq![UTokenType::Left], y);
                lemma_balance_concat(seq![UTokenType::Left] + y, seq![UTokenType::Right]);
            },
            _ => {},
        }
    } else if derives(e, (lvl - 1) as nat, depth) {
        lemma_derivation_balanced(e, (lvl - 1) as nat, depth);
    } else {
        match e {
            Expression::BinaryExpression { left, right, token } => {
                lemma_derivation_balanced(*left, lvl, depth);
                lemma_derivation_balanced(*right, (lvl - 1) as nat, depth);
                lemma_balance_one(token._type);
                lemma_balance_concat(yield_kinds(*left), seq![token._type]);
                lemma_balance_concat(yield_kinds(*left) + seq![token._type], yield_kinds(*right));
            },
            _ => {},
        }
    }
}

proof fn lemma_open_diff(toks: Seq<UToken>, a: int, b: int)
    requires
        0 <= a <= b <= toks.len(),
    ensures
        open_parens(toks, b) == open_parens(toks, a) + paren_balance(
            token_kinds(toks).subrange(a, b),
        ),
{
    let k = token_kinds(toks);
    assert(k.subrange(0, b) =~= k.subrange(0, a) + k.subrange(a, b));
    lemma_balance_concat(k.subrange(0, a), k.subrange(a, b));
}

proof fn lemma_parsed_balanced(toks: Seq<UToken>, pos: int, depth: nat, lvl: nat)
    requires
        lvl <= 3,
        parse_level(toks, pos, depth, lvl) is Ok,
    ensures
        open_parens(toks, parse_level(toks, pos, depth, lvl)->Ok_0.1) == open_parens(toks, pos),
{
    lemma_level_yield(toks, pos, depth, lvl);
    lemma_level_sound(toks, pos, depth, lvl);
    let (e, p) = parse_level(toks, pos, depth, lvl)->Ok_0;
    lemma_derivation_balanced(e, lvl, depth);
    lemma_open_diff(toks, pos, p);
}

proof fn lemma_step_open(toks: Seq<UToken>, pos: int)
    requires
        0 <= pos < toks.len(),
    ensures
        open_parens(toks, pos + 1) == open_parens(toks, pos) + paren_weight(toks[pos]._type),
{
    lemma_open_diff(toks, pos, pos + 1);
    assert(token_kinds(toks).subrange(pos, pos + 1) =~= seq![toks[pos]._type]);
    lemma_balance_one(toks[pos]._type);
}

proof fn lemma_too_deep_level(toks: Seq<UToken>, pos: int, depth: nat, lvl: nat)
    requires
        0 <= pos <= toks.len(),
        lvl <= 3,
    ensures
        parse_level(toks, pos, depth, lvl) == Err::<(Expression, int), ParseError>(ParseError::TooDeep)
            ==> exists|i: int|
            pos < i <= toks.len() && #[trigger] open_parens(toks, i) > open_parens(toks, pos) + depth,
    decreases depth, lvl, 1int, 0int,
{
    if lvl == 0 {
        if 0 <= pos < toks.len() && toks[pos]._type == UTokenType::Left {
            lemma_step_open(toks, pos);
            if depth == 0 {
                assert(open_parens(toks, pos + 1) > open_parens(toks, pos) + depth);
            } else {
                lemma_too_deep_level(toks, pos + 1, (depth - 1) as nat, 3);
            }
        }
    } else {
        lemma_too_deep_level(toks, pos, depth, (lvl - 1) as nat);
        if parse_level(toks, pos, depth, (lvl - 1) as nat) is Ok {
            lemma_level_yield(toks, pos, depth, (lvl - 1) as nat);
            lemma_parsed_balanced(toks, pos, depth, (lvl - 1) as nat);
            let (e, p) = parse_level(toks, pos, depth, (lvl - 1) as nat)->Ok_0;
            lemma_too_deep_fold(toks, p, depth, lvl, e);
        }
    }
}

proof fn lemma_too_deep_fold(toks: Seq<UToken>, pos: int, depth: nat, lvl: nat, acc: Expression)
    requires
        0 <= pos <= toks.len(),
        1 <= lvl <= 3,
    ensures
        fold_level(toks, pos, depth, lvl, acc) == Err::<(Expression, int), ParseError>(
            ParseError::TooDeep,
        ) ==> exists|i: int|
            pos < i <= toks.len() && #[trigger] open_parens(toks, i) > open_parens(toks, pos) + depth,
    decreases depth, lvl, 0int, toks.len() - pos,
{
    if 0 <= pos < toks.len() && is_level_op(lvl, toks[pos]._type) {
        lemma_step_open(toks, pos);
        lemma_too_deep_level(toks, pos + 1, depth, (lvl - 1) as nat);
        if parse_level(toks, pos + 1, depth, (lvl - 1) as nat) is Ok {
            lemma_parsed_balanced(toks, pos + 1, depth, (lvl - 1) as nat);
            let (rhs, next) = parse_level(toks, pos + 1, depth, (lvl - 1) as nat)->Ok_0;
            if pos < next <= toks.len() {
                let b = Expression::BinaryExpression {
                    left: Box::new(acc),
                    right: Box::new(rhs),
                    token: toks[pos],
                };
                lemma_too_deep_fold(toks, next, depth, lvl, b);
            }
        }
    }
}

/// A token sequence that no derivation within the limit lists, and whose
/// parentheses never stay open deeper than the limit, is rejected as an
/// unexpected token.
pub proof fn lemma_outside_grammar_unexpected(toks: Seq<UToken>, max_depth: nat)
    requires
        forall|e: Expression| #[trigger] derives(e, 3, max_depth) ==> yield_kinds(e) != token_kinds(toks),
        forall|i: int| 0 <= i <= toks.len() ==> #[trigger] open_parens(toks, i) <= max_depth,
    ensures
        parse_tokens(toks, max_depth) == Err::<Expression, ParseError>(ParseError::UnexpectedToken),
{
    lemma_parse_sound(toks, max_depth);
    lemma_too_deep_level(toks, 0, max_depth, 3);
    assert(token_kinds(toks).subrange(0, 0) =~= Seq::<UTokenType>::empty());
    assert(open_parens(toks, 0) == 0);
}

} // verus!

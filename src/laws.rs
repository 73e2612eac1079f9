use vstd::prelude::*;
use crate::calc::{eval_from, eval_step, spec_calculate, spec_evaluate, EvalError, ExprView};
use crate::convert::{
    op_token, pop_for, pop_to_open, run_from, spec_postfix, start, step, ConvertError, ShuntState,
    TokenView,
};
use crate::lexeme::{is_number_literal, lexeme_kind};
use crate::token::{is_binary, spec_priority, OperandType};

verus! {

/// The one-character lexeme of an operator.
pub open spec fn symbol(k: OperandType) -> Seq<char> {
    match k {
        OperandType::Add => seq!['+'],
        OperandType::Sub => seq!['-'],
        OperandType::Mul => seq!['*'],
        OperandType::Div => seq!['/'],
        OperandType::Open => seq!['('],
        _ => seq![')'],
    }
}

/// A tree whose leaves are numeric literals and whose inner nodes are
/// binary operators.
pub open spec fn wf_tree(e: ExprView) -> bool
    decreases e,
{
    match e {
        ExprView::Num(n) => is_number_literal(n),
        ExprView::Bin(k, l, r) => is_binary(k) && wf_tree(*l) && wf_tree(*r),
    }
}

/// The lexemes of a tree written in infix order, each operation inside its
/// own pair of parentheses.
pub open spec fn render(e: ExprView) -> Seq<Seq<char>>
    decreases e,
{
    match e {
        ExprView::Num(n) => seq![n],
        ExprView::Bin(k, l, r) => seq![symbol(OperandType::Open)] + render(*l) + seq![symbol(k)]
            + render(*r) + seq![symbol(OperandType::Close)],
    }
}

/// The tokens of a tree in postfix order.
pub open spec fn postfix_of(e: ExprView) -> Seq<TokenView>
    decreases e,
{
    match e {
        ExprView::Num(n) => seq![(OperandType::Number, n)],
        ExprView::Bin(k, l, r) => postfix_of(*l) + postfix_of(*r) + seq![op_token(k)],
    }
}

proof fn lemma_symbol_kind(k: OperandType)
    requires
        is_binary(k) || k is Open || k is Close,
    ensures
        lexeme_kind(symbol(k)) == Some(k),
{
    let s = symbol(k);
    assert(!is_number_literal(s)) by {
        assert(!('0' <= s[0] <= '9'));
    }
}

proof fn lemma_run_concat(st: Result<ShuntState, ConvertError>, a: Seq<Seq<char>>, b: Seq<Seq<char>>)
    ensures
        run_from(st, a + b) == run_from(run_from(st, a), b),
    decreases a.len(),
{
    if a.len() > 0 {
        assert((a + b).drop_first() == a.drop_first() + b);
        lemma_run_concat(step(st, a[0]), a.drop_first(), b);
    } else {
        assert(a + b == b);
    }
}

proof fn lemma_eval_concat(st: Option<Seq<ExprView>>, a: Seq<TokenView>, b: Seq<TokenView>)
    ensures
        eval_from(st, a + b) == eval_from(eval_from(st, a), b),
    decreases a.len(),
{
    if a.len() > 0 {
        assert((a + b).drop_first() == a.drop_first() + b);
        lemma_eval_concat(eval_step(st, a[0]), a.drop_first(), b);
    } else {
        assert(a + b == b);
    }
}

proof fn lemma_run_one(st: Result<ShuntState, ConvertError>, x: Seq<char>)
    ensures
        run_from(st, seq![x]) == step(st, x),
{
    reveal_with_fuel(run_from, 2);
    assert(seq![x].drop_first() == Seq::<Seq<char>>::empty());
}

proof fn lemma_eval_one(st: Option<Seq<ExprView>>, t: TokenView)
    ensures
        eval_from(st, seq![t]) == eval_step(st, t),
{
    reveal_with_fuel(eval_from, 2);
    assert(seq![t].drop_first() == Seq::<TokenView>::empty());
}

/// Converting the lexemes of a well-formed tree appends its postfix form to
/// the output and leaves the operator stack as it was.
proof fn lemma_render_converts(e: ExprView, out: Seq<TokenView>, stack: Seq<OperandType>)
    requires
        wf_tree(e),
    ensures
        run_from(Ok((out, stack)), render(e)) == Ok::<ShuntState, ConvertError>(
            (out + postfix_of(e), stack),
        ),
    decreases e,
{
    match e {
        ExprView::Num(n) => {
            lemma_run_one(Ok((out, stack)), n);
            assert(out.push((OperandType::Number, n)) == out + postfix_of(e));
        },
        ExprView::Bin(k, l, r) => {
            let open = seq![symbol(OperandType::Open)];
            let op = seq![symbol(k)];
            let close = seq![symbol(OperandType::Close)];
            lemma_symbol_kind(OperandType::Open);
            lemma_symbol_kind(k);
            lemma_symbol_kind(OperandType::Close);
            let s1 = stack.push(OperandType::Open);
            lemma_run_one(Ok((out, stack)), symbol(OperandType::Open));
            lemma_render_converts(*l, out, s1);
            let o2 = out + postfix_of(*l);
            lemma_run_one(Ok((o2, s1)), symbol(k));
            assert(pop_for(o2, s1, spec_priority(k)) == (o2, s1));
            let s2 = s1.push(k);
            lemma_render_converts(*r, o2, s2);
            let o3 = o2 + postfix_of(*r);
            lemma_run_one(Ok((o3, s2)), symbol(OperandType::Close));
            assert(s2.drop_last() == s1);
            assert(s1.drop_last() == stack);
            assert(pop_to_open(o3.push(op_token(k)), s1) == Ok::<ShuntState, ConvertError>(
                (o3.push(op_token(k)), stack),
            ));
            assert(pop_to_open(o3, s2) == pop_to_open(o3.push(op_token(k)), s1));
            lemma_run_concat(Ok((out, stack)), open, render(*l));
            lemma_run_concat(Ok((out, stack)), open + render(*l), op);
            lemma_run_concat(Ok((out, stack)), open + render(*l) + op, render(*r));
            lemma_run_concat(Ok((out, stack)), open + render(*l) + op + render(*r), close);
            assert(o3.push(op_token(k)) == out + postfix_of(e));
        },
    }
}

/// The stack machine pushes the tree of a well-formed postfix form.
proof fn lemma_postfix_evaluates(e: ExprView, s: Seq<ExprView>)
    requires
        wf_tree(e),
    ensures
        eval_from(Some(s), postfix_of(e)) == Some(s.push(e)),
    decreases e,
{
    match e {
        ExprView::Num(n) => {
            lemma_eval_one(Some(s), (OperandType::Number, n));
        },
        ExprView::Bin(k, l, r) => {
            lemma_postfix_evaluates(*l, s);
            lemma_postfix_evaluates(*r, s.push(*l));
            let s2 = s.push(*l).push(*r);
            lemma_eval_one(Some(s2), op_token(k));
            assert(s2.subrange(0, s2.len() - 2) == s);
            lemma_eval_concat(Some(s), postfix_of(*l), postfix_of(*r));
            lemma_eval_concat(Some(s), postfix_of(*l) + postfix_of(*r), seq![op_token(k)]);
        },
    }
}

/// Every well-formed expression, written in infix order with a pair of
/// parentheses round each operation, is converted and evaluated to its own
/// tree: the operand written left of an operator is its left operand.
pub proof fn law_parenthesized_round_trip(e: ExprView)
    requires
        wf_tree(e),
    ensures
        spec_postfix(seq![symbol(OperandType::Open)] + render(e) + seq![symbol(OperandType::Close)])
            == Ok::<Seq<TokenView>, ConvertError>(postfix_of(e)),
        spec_calculate(postfix_of(e)) == Ok::<Option<ExprView>, EvalError>(Some(e)),
{
    let open = seq![symbol(OperandType::Open)];
    let close = seq![symbol(OperandType::Close)];
    lemma_symbol_kind(OperandType::Open);
    lemma_symbol_kind(OperandType::Close);
    let s1 = Seq::<OperandType>::empty().push(OperandType::Open);
    lemma_run_one(start(), symbol(OperandType::Open));
    lemma_render_converts(e, Seq::empty(), s1);
    lemma_run_one(Ok((Seq::empty() + postfix_of(e), s1)), symbol(OperandType::Close));
    lemma_run_concat(start(), open, render(e));
    lemma_run_concat(start(), open + render(e), close);
    assert(Seq::<TokenView>::empty() + postfix_of(e) == postfix_of(e));
    assert(s1.drop_last() == Seq::<OperandType>::empty());
    lemma_postfix_evaluates(e, Seq::empty());
    assert(Seq::<ExprView>::empty().push(e).last() == e);
}

/// The tree that standard infix rules give to `a o1 b o2 c`: operators of
/// equal precedence group from the left, and Mul and Div bind tighter than
/// Add and Sub.
pub open spec fn infix_tree3(
    a: Seq<char>,
    o1: OperandType,
    b: Seq<char>,
    o2: OperandType,
    c: Seq<char>,
) -> ExprView {
    if spec_priority(o1) >= spec_priority(o2) {
        ExprView::Bin(
            o2,
            Box::new(ExprView::Bin(o1, Box::new(ExprView::Num(a)), Box::new(ExprView::Num(b)))),
            Box::new(ExprView::Num(c)),
        )
    } else {
        ExprView::Bin(
            o1,
            Box::new(ExprView::Num(a)),
            Box::new(ExprView::Bin(o2, Box::new(ExprView::Num(b)), Box::new(ExprView::Num(c)))),
        )
    }
}

/// Two binary operators between three numbers, inside the outer pair of
/// parentheses, are converted and evaluated as standard infix rules group
/// them: left to right within a precedence class, Mul and Div before Add
/// and Sub.
pub proof fn law_precedence_and_associativity(
    a: Seq<char>,
    o1: OperandType,
    b: Seq<char>,
    o2: OperandType,
    c: Seq<char>,
)
    requires
        is_number_literal(a),
        is_number_literal(b),
        is_number_literal(c),
        is_binary(o1),
        is_binary(o2),
    ensures
        spec_postfix(
            seq![symbol(OperandType::Open), a, symbol(o1), b, symbol(o2), c, symbol(OperandType::Close)],
        ) matches Ok(ts) && spec_calculate(ts) == Ok::<Option<ExprView>, EvalError>(
            Some(infix_tree3(a, o1, b, o2, c)),
        ),
{
    lemma_symbol_kind(OperandType::Open);
    lemma_symbol_kind(o1);
    lemma_symbol_kind(o2);
    lemma_symbol_kind(OperandType::Close);
    let lxs = seq![symbol(OperandType::Open), a, symbol(o1), b, symbol(o2), c, symbol(OperandType::Close)];
    reveal_with_fuel(run_from, 8);
    reveal_with_fuel(pop_for, 3);
    reveal_with_fuel(pop_to_open, 4);
    reveal_with_fuel(eval_from, 6);
    let na = (OperandType::Number, a);
    let nb = (OperandType::Number, b);
    let nc = (OperandType::Number, c);
    let ts = if spec_priority(o1) >= spec_priority(o2) {
        seq![na, nb, op_token(o1), nc, op_token(o2)]
    } else {
        seq![na, nb, nc, op_token(o2), op_token(o1)]
    };
    let op = symbol(OperandType::Open);
    let cl = symbol(OperandType::Close);
    let s1 = symbol(o1);
    let s2 = symbol(o2);
    assert(lxs.drop_first() == seq![a, s1, b, s2, c, cl]);
    assert(seq![a, s1, b, s2, c, cl].drop_first() == seq![s1, b, s2, c, cl]);
    assert(seq![s1, b, s2, c, cl].drop_first() == seq![b, s2, c, cl]);
    assert(seq![b, s2, c, cl].drop_first() == seq![s2, c, cl]);
    assert(seq![s2, c, cl].drop_first() == seq![c, cl]);
    assert(seq![c, cl].drop_first() == seq![cl]);
    assert(seq![cl].drop_first() == Seq::<Seq<char>>::empty());
    let e0 = Seq::<TokenView>::empty();
    let k0 = Seq::<OperandType>::empty();
    let st1 = step(start(), op);
    assert(st1 == Ok::<ShuntState, ConvertError>((e0, k0.push(OperandType::Open))));
    let st2 = step(st1, a);
    assert(st2 == Ok::<ShuntState, ConvertError>((e0.push(na), k0.push(OperandType::Open))));
    let st3 = step(st2, s1);
    assert(st3 == Ok::<ShuntState, ConvertError>((e0.push(na), k0.push(OperandType::Open).push(o1))));
    let st4 = step(st3, b);
    assert(st4 == Ok::<ShuntState, ConvertError>((e0.push(na).push(nb), k0.push(OperandType::Open).push(o1))));
    let st5 = step(st4, s2);
    let st6 = step(st5, c);
    let st7 = step(st6, cl);
    if spec_priority(o1) >= spec_priority(o2) {
        assert(k0.push(OperandType::Open).push(o1).drop_last() == k0.push(OperandType::Open));
        assert(st5 == Ok::<ShuntState, ConvertError>((e0.push(na).push(nb).push(op_token(o1)), k0.push(OperandType::Open).push(o2))));
        assert(k0.push(OperandType::Open).push(o2).drop_last() == k0.push(OperandType::Open));
        assert(k0.push(OperandType::Open).drop_last() == k0);
        let pre = e0.push(na).push(nb).push(op_token(o1)).push(nc);
        assert(st6 == Ok::<ShuntState, ConvertError>((pre, k0.push(OperandType::Open).push(o2))));
        assert(pop_to_open(pre, k0.push(OperandType::Open).push(o2)) == pop_to_open(pre.push(op_token(o2)), k0.push(OperandType::Open)));
        assert(ts == pre.push(op_token(o2)));
        assert(st7 == Ok::<ShuntState, ConvertError>((ts, k0)));
    } else {
        assert(st5 == Ok::<ShuntState, ConvertError>((e0.push(na).push(nb), k0.push(OperandType::Open).push(o1).push(o2))));
        assert(k0.push(OperandType::Open).push(o1).push(o2).drop_last() == k0.push(OperandType::Open).push(o1));
        assert(k0.push(OperandType::Open).push(o1).drop_last() == k0.push(OperandType::Open));
        assert(k0.push(OperandType::Open).drop_last() == k0);
        let pre = e0.push(na).push(nb).push(nc);
        let k2 = k0.push(OperandType::Open).push(o1).push(o2);
        assert(st6 == Ok::<ShuntState, ConvertError>((pre, k2)));
        assert(pop_to_open(pre, k2) == pop_to_open(pre.push(op_token(o2)), k0.push(OperandType::Open).push(o1)));
        assert(pop_to_open(pre.push(op_token(o2)), k0.push(OperandType::Open).push(o1)) == pop_to_open(pre.push(op_token(o2)).push(op_token(o1)), k0.push(OperandType::Open)));
        assert(ts == pre.push(op_token(o2)).push(op_token(o1)));
        assert(st7 == Ok::<ShuntState, ConvertError>((ts, k0)));
    }
    assert(run_from(start(), lxs) == st7);
    assert(spec_postfix(lxs) == Ok::<Seq<TokenView>, ConvertError>(ts));
    assert(spec_calculate(ts) == Ok::<Option<ExprView>, EvalError>(
        Some(infix_tree3(a, o1, b, o2, c)),
    ));
}

/// Input with no lexeme but the outer pair of parentheses converts to an
/// empty postfix sequence, which reduces to no value.
pub proof fn law_empty_input()
    ensures
        spec_postfix(seq![symbol(OperandType::Open), symbol(OperandType::Close)])
            == Ok::<Seq<TokenView>, ConvertError>(Seq::empty()),
        spec_calculate(Seq::empty()) == Ok::<Option<ExprView>, EvalError>(None),
{
    lemma_symbol_kind(OperandType::Open);
    lemma_symbol_kind(OperandType::Close);
    reveal_with_fuel(run_from, 3);
    assert(Seq::<OperandType>::empty().push(OperandType::Open).drop_last() == Seq::<OperandType>::empty());
}

/// Converting and evaluating depends on the characters of the line alone:
/// running it again on the same text gives the same outcome.
pub proof fn law_same_text_same_outcome(first: Seq<char>, again: Seq<char>)
    requires
        first == again,
    ensures
        spec_evaluate(first) == spec_evaluate(again),
{
}

/// A sequence of lexemes inside a pair of parentheses.
pub open spec fn paren(s: Seq<Seq<char>>) -> Seq<Seq<char>> {
    seq![symbol(OperandType::Open)] + s + seq![symbol(OperandType::Close)]
}

/// The precedence class of a tree's root; a number binds tightest.
pub open spec fn root_priority(e: ExprView) -> nat {
    match e {
        ExprView::Num(_) => 2,
        ExprView::Bin(k, _, _) => spec_priority(k),
    }
}

/// The lexemes of a tree in infix order with no more parentheses than
/// standard rules need: round a left operand that binds looser than its
/// operator, and round a right operand that binds no tighter.
pub open spec fn show(e: ExprView) -> Seq<Seq<char>>
    decreases e,
{
    match e {
        ExprView::Num(n) => seq![n],
        ExprView::Bin(k, l, r) => (if root_priority(*l) < spec_priority(k) {
            paren(show(*l))
        } else {
            show(*l)
        }) + seq![symbol(k)] + (if root_priority(*r) <= spec_priority(k) {
            paren(show(*r))
        } else {
            show(*r)
        }),
    }
}

/// The operators of a stack as the output receives them when they are
/// popped, top first.
pub open spec fn flushed(q: Seq<OperandType>) -> Seq<TokenView>
    decreases q.len(),
{
    if q.len() == 0 {
        Seq::empty()
    } else {
        seq![op_token(q.last())] + flushed(q.drop_last())
    }
}

pub open spec fn binary_at_least(q: Seq<OperandType>, p: nat) -> bool {
    forall|i: int| 0 <= i < q.len() ==> is_binary(#[trigger] q[i]) && spec_priority(q[i]) >= p
}

/// A stack under which operators of priority `p` may be pushed without
/// popping anything.
pub open spec fn stops_below(s: Seq<OperandType>, p: nat) -> bool {
    s.len() == 0 || s.last() is Open || spec_priority(s.last()) < p
}

proof fn lemma_flushed_prepend(k: OperandType, q: Seq<OperandType>)
    ensures
        flushed(seq![k] + q) == flushed(q) + seq![op_token(k)],
    decreases q.len(),
{
    if q.len() == 0 {
        assert(seq![k] + q == seq![k]);
        assert(seq![k].drop_last() == Seq::<OperandType>::empty());
        assert(flushed(Seq::<OperandType>::empty()) == Seq::<TokenView>::empty());
        assert(flushed(seq![k]) == seq![op_token(k)] + Seq::<TokenView>::empty());
        assert(seq![op_token(k)] + Seq::<TokenView>::empty() == Seq::<TokenView>::empty() + seq![op_token(k)]);
    } else {
        assert((seq![k] + q).last() == q.last());
        assert((seq![k] + q).drop_last() == seq![k] + q.drop_last());
        lemma_flushed_prepend(k, q.drop_last());
        assert(seq![op_token(q.last())] + (flushed(q.drop_last()) + seq![op_token(k)])
            == (seq![op_token(q.last())] + flushed(q.drop_last())) + seq![op_token(k)]);
    }
}

proof fn lemma_flush_for(out: Seq<TokenView>, s: Seq<OperandType>, q: Seq<OperandType>, p: nat)
    requires
        stops_below(s, p),
        binary_at_least(q, p),
    ensures
        pop_for(out, s + q, p) == (out + flushed(q), s),
    decreases q.len(),
{
    if q.len() == 0 {
        assert(s + q == s);
        assert(out + flushed(q) == out);
    } else {
        let q2 = q.drop_last();
        assert((s + q).last() == q.last());
        assert((s + q).drop_last() == s + q2);
        assert(is_binary(q[q.len() - 1]));
        lemma_flush_for(out.push(op_token(q.last())), s, q2, p);
        assert(out.push(op_token(q.last())) + flushed(q2) == out + flushed(q));
    }
}

proof fn lemma_flush_close(out: Seq<TokenView>, s: Seq<OperandType>, q: Seq<OperandType>)
    requires
        binary_at_least(q, 0),
    ensures
        pop_to_open(out, s.push(OperandType::Open) + q) == Ok::<ShuntState, ConvertError>(
            (out + flushed(q), s),
        ),
    decreases q.len(),
{
    let so = s.push(OperandType::Open);
    if q.len() == 0 {
        assert(so + q == so);
        assert(so.drop_last() == s);
        assert(out + flushed(q) == out);
    } else {
        let q2 = q.drop_last();
        assert((so + q).last() == q.last());
        assert((so + q).drop_last() == so + q2);
        assert(is_binary(q[q.len() - 1]));
        lemma_flush_close(out.push(op_token(q.last())), s, q2);
        assert(out.push(op_token(q.last())) + flushed(q2) == out + flushed(q));
    }
}

/// Converting the lexemes of a tree, bare or inside parentheses, from a
/// stack that stops below the tree's operators: part of its postfix form
/// reaches the output, and popping what is left on the stack gives the rest.
proof fn lemma_show_converts(
    e: ExprView,
    wrap: bool,
    out: Seq<TokenView>,
    s: Seq<OperandType>,
) -> (pq: (Seq<TokenView>, Seq<OperandType>))
    requires
        wf_tree(e),
        wrap || stops_below(s, root_priority(e)),
    ensures
        run_from(Ok((out, s)), if wrap { paren(show(e)) } else { show(e) })
            == Ok::<ShuntState, ConvertError>((out + pq.0, s + pq.1)),
        pq.0 + flushed(pq.1) == postfix_of(e),
        binary_at_least(pq.1, root_priority(e)),
        wrap ==> pq.1.len() == 0,
    decreases e, if wrap { 1int } else { 0int },
{
    if wrap {
        lemma_symbol_kind(OperandType::Open);
        lemma_symbol_kind(OperandType::Close);
        let so = s.push(OperandType::Open);
        lemma_run_one(Ok((out, s)), symbol(OperandType::Open));
        let pq1 = lemma_show_converts(e, false, out, so);
        let o1 = out + pq1.0;
        lemma_run_one(Ok((o1, so + pq1.1)), symbol(OperandType::Close));
        lemma_flush_close(o1, s, pq1.1);
        lemma_run_concat(Ok((out, s)), seq![symbol(OperandType::Open)], show(e));
        lemma_run_concat(
            Ok((out, s)),
            seq![symbol(OperandType::Open)] + show(e),
            seq![symbol(OperandType::Close)],
        );
        assert(o1 + flushed(pq1.1) == out + postfix_of(e));
        assert(s + Seq::<OperandType>::empty() == s);
        assert(postfix_of(e) + flushed(Seq::<OperandType>::empty()) == postfix_of(e));
        (postfix_of(e), Seq::empty())
    } else {
        match e {
            ExprView::Num(n) => {
                lemma_run_one(Ok((out, s)), n);
                assert(out.push((OperandType::Number, n)) == out + postfix_of(e));
                assert(s + Seq::<OperandType>::empty() == s);
                assert(postfix_of(e) + flushed(Seq::<OperandType>::empty()) == postfix_of(e));
                (postfix_of(e), Seq::empty())
            },
            ExprView::Bin(k, l, r) => {
                let pk = spec_priority(k);
                let wl = root_priority(*l) < pk;
                let wr = root_priority(*r) <= pk;
                let left = if wl { paren(show(*l)) } else { show(*l) };
                let right = if wr { paren(show(*r)) } else { show(*r) };
                let pql = lemma_show_converts(*l, wl, out, s);
                let ol = out + pql.0;
                lemma_symbol_kind(k);
                lemma_run_one(Ok((ol, s + pql.1)), symbol(k));
                lemma_flush_for(ol, s, pql.1, pk);
                let o2 = ol + flushed(pql.1);
                let sk = s.push(k);
                let pqr = lemma_show_converts(*r, wr, o2, sk);
                lemma_run_concat(Ok((out, s)), left, seq![symbol(k)]);
                lemma_run_concat(Ok((out, s)), left + seq![symbol(k)], right);
                let p = pql.0 + flushed(pql.1) + pqr.0;
                let q = seq![k] + pqr.1;
                assert(o2 + pqr.0 == out + p);
                assert(sk + pqr.1 == s + q);
                lemma_flushed_prepend(k, pqr.1);
                assert(p + flushed(q) == postfix_of(*l) + (pqr.0 + flushed(pqr.1)) + seq![op_token(k)]);
                assert forall|i: int| 0 <= i < q.len() implies is_binary(#[trigger] q[i])
                    && spec_priority(q[i]) >= root_priority(e) by {
                    if i > 0 {
                        assert(q[i] == pqr.1[i - 1]);
                    }
                }
                (p, q)
            },
        }
    }
}

/// Every well-formed expression, written in infix order with only the
/// parentheses that standard rules need, is converted and evaluated to its
/// own tree: operators of equal precedence group from the left, and Mul and
/// Div bind tighter than Add and Sub.
pub proof fn law_infix_semantics(e: ExprView)
    requires
        wf_tree(e),
    ensures
        spec_postfix(paren(show(e))) == Ok::<Seq<TokenView>, ConvertError>(postfix_of(e)),
        spec_calculate(postfix_of(e)) == Ok::<Option<ExprView>, EvalError>(Some(e)),
{
    let pq = lemma_show_converts(e, true, Seq::empty(), Seq::empty());
    assert(Seq::<TokenView>::empty() + pq.0 == pq.0);
    assert(pq.1 == Seq::<OperandType>::empty());
    assert(flushed(pq.1) == Seq::<TokenView>::empty());
    assert(pq.0 + flushed(pq.1) == pq.0);
    assert(Seq::<OperandType>::empty() + pq.1 == Seq::<OperandType>::empty());
    lemma_postfix_evaluates(e, Seq::empty());
    assert(Seq::<ExprView>::empty().push(e).last() == e);
}

} // verus!

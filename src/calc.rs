use vstd::prelude::*;
use crate::convert::{
    parse, spec_parse, token_views, ConvertError, ParseError, TokenView, LEXEME_PATTERN,
};
use crate::lexeme::copy_chars;
use crate::matcher::regex_valid;
use crate::token::{is_binary, OperandType, Token};

verus! {

/// The value that a postfix sequence denotes, as a tree: a numeric literal,
/// or a binary operator applied to a left and a right operand.
#[derive(Debug)]
pub enum Expr {
    Num(Vec<char>),
    Bin(OperandType, Box<Expr>, Box<Expr>),
}

/// The tree with each literal as its characters.
pub enum ExprView {
    Num(Seq<char>),
    Bin(OperandType, Box<ExprView>, Box<ExprView>),
}

impl Expr {
    pub open spec fn view(&self) -> ExprView
        decreases self,
    {
        match self {
            Expr::Num(v) => ExprView::Num(v@),
            Expr::Bin(k, l, r) => ExprView::Bin(*k, Box::new(l.view()), Box::new(r.view())),
        }
    }
}

/// An operator found too few operands on the value stack.
#[derive(Clone, Copy, Debug, PartialEq, Eq, Structural)]
pub enum EvalError {
    Underflow,
}

/// One step of the stack machine: a number is pushed; a binary operator
/// takes the top value as its right operand and the one below as its left,
/// and pushes the combination; a parenthesis does nothing. `None` where an
/// operator finds fewer than two values.
pub open spec fn eval_step(st: Option<Seq<ExprView>>, t: TokenView) -> Option<Seq<ExprView>> {
    match st {
        None => None,
        Some(s) => if t.0 is Number {
            Some(s.push(ExprView::Num(t.1)))
        } else if is_binary(t.0) {
            if s.len() < 2 {
                None
            } else {
                let right = s[s.len() - 1];
                let left = s[s.len() - 2];
                Some(s.subrange(0, s.len() - 2).push(ExprView::Bin(t.0, Box::new(left), Box::new(right))))
            }
        } else {
            Some(s)
        },
    }
}

/// The value stack after a sequence of tokens, from a given stack.
pub open spec fn eval_from(st: Option<Seq<ExprView>>, ts: Seq<TokenView>) -> Option<Seq<ExprView>>
    decreases ts.len(),
{
    if ts.len() == 0 {
        st
    } else {
        eval_from(eval_step(st, ts[0]), ts.drop_first())
    }
}

/// What a postfix sequence reduces to: an underflow, no value where the
/// stack ends empty, else the value on top of the stack.
pub open spec fn spec_calculate(ts: Seq<TokenView>) -> Result<Option<ExprView>, EvalError> {
    match eval_from(Some(Seq::empty()), ts) {
        None => Err(EvalError::Underflow),
        Some(s) => if s.len() == 0 {
            Ok(None)
        } else {
            Ok(Some(s.last()))
        },
    }
}

pub open spec fn expr_views(s: Seq<Expr>) -> Seq<ExprView> {
    s.map_values(|e: Expr| e@)
}

pub proof fn lemma_underflow_stays(ts: Seq<TokenView>)
    ensures
        eval_from(None, ts) == None::<Seq<ExprView>>,
    decreases ts.len(),
{
    if ts.len() > 0 {
        lemma_underflow_stays(ts.drop_first());
    }
}

/// Reduces a postfix sequence with a value stack to the tree of the value
/// left on top.
pub fn calculate(tokens: &Vec<Token>) -> (r: Result<Option<Expr>, EvalError>)
    ensures
        match (r, spec_calculate(token_views(tokens@))) {
            (Ok(None), Ok(None)) => true,
            (Ok(Some(e)), Ok(Some(v))) => e@ == v,
            (Err(e1), Err(e2)) => e1 == e2,
            _ => false,
        },
{
    let ghost all = token_views(tokens@);
    let mut numbers: Vec<Expr> = Vec::new();
    let mut i: usize = 0;
    assert(all.subrange(0, all.len() as int) == all);
    assert(expr_views(numbers@) == Seq::<ExprView>::empty());
    while i < tokens.len()
        invariant
            0 <= i <= tokens.len(),
            all == token_views(tokens@),
            eval_from(Some(expr_views(numbers@)), all.subrange(i as int, all.len() as int))
                == eval_from(Some(Seq::<ExprView>::empty()), all),
        decreases tokens.len() - i,
    {
        let ghost rest = all.subrange(i as int, all.len() as int);
        let ghost s0 = expr_views(numbers@);
        assert(rest.len() == tokens.len() - i);
        assert(rest[0] == tokens@[i as int]@);
        assert(rest.drop_first() == all.subrange(i + 1, all.len() as int));
        let ghost next = eval_step(Some(s0), rest[0]);
        assert(eval_from(Some(s0), rest) == eval_from(next, rest.drop_first()));
        let token = &tokens[i];
        match token.operand_type {
            OperandType::Number => {
                numbers.push(Expr::Num(copy_chars(&token.value)));
                assert(expr_views(numbers@) == s0.push(ExprView::Num(token.value@)));
            },
            OperandType::Open | OperandType::Close => {},
            k => {
                if numbers.len() < 2 {
                    proof {
                        lemma_underflow_stays(rest.drop_first());
                    }
                    return Err(EvalError::Underflow);
                }
                let right = numbers.pop().unwrap();
                let left = numbers.pop().unwrap();
                numbers.push(Expr::Bin(k, Box::new(left), Box::new(right)));
                assert(expr_views(numbers@) == s0.subrange(0, s0.len() - 2).push(
                    ExprView::Bin(k, Box::new(s0[s0.len() - 2]), Box::new(s0[s0.len() - 1])),
                ));
            },
        }
        i += 1;
    }
    let ghost fin = expr_views(numbers@);
    match numbers.pop() {
        None => Ok(None),
        Some(e) => {
            assert(fin.last() == e@);
            Ok(Some(e))
        },
    }
}

/// Why a line has no value.
#[derive(Debug)]
pub enum CalcError {
    /// The line could not be converted to postfix order.
    Parse(ParseError),
    /// The postfix sequence left an operator without two operands.
    Eval(EvalError),
}

/// The outcome of converting a line and reducing its postfix form: the
/// conversion's error, or what the stack machine gives.
pub open spec fn spec_evaluate(line: Seq<char>) -> Result<
    Result<Option<ExprView>, EvalError>,
    ConvertError,
> {
    match spec_parse(line) {
        Err(e) => Err(e),
        Ok(ts) => Ok(spec_calculate(ts)),
    }
}

/// Converts a line to postfix order and reduces it to the tree of its
/// value; `Ok(None)` where the line holds no number or operator.
pub fn evaluate(line: &str) -> (r: Result<Option<Expr>, CalcError>)
    ensures
        r matches Err(CalcError::Parse(ParseError::Lex(_))) <==> !regex_valid(LEXEME_PATTERN@),
        regex_valid(LEXEME_PATTERN@) ==> match spec_evaluate(line@) {
            Err(ConvertError::Unbalanced) => r matches Err(CalcError::Parse(ParseError::Unbalanced)),
            Err(ConvertError::InvalidLexeme) => r matches Err(
                CalcError::Parse(ParseError::InvalidLexeme),
            ),
            Ok(Err(EvalError::Underflow)) => r matches Err(CalcError::Eval(EvalError::Underflow)),
            Ok(Ok(None)) => r matches Ok(None),
            Ok(Ok(Some(v))) => r matches Ok(Some(e)) && e@ == v,
        },
{
    match parse(line) {
        Err(e) => Err(CalcError::Parse(e)),
        Ok(tokens) => match calculate(&tokens) {
            Err(e) => Err(CalcError::Eval(e)),
            Ok(v) => Ok(v),
        },
    }
}

} // verus!

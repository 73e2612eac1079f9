use vstd::prelude::*;
use vstd::string::*;
use crate::lexeme::{classify, copy_chars, lexeme_kind, lexeme_views};
use crate::matcher::{find_all, regex_find_all, regex_valid};
use crate::token::{priority, spec_priority, OperandType, Token};

verus! {

/// Why an infix expression has no postfix form.
#[derive(Clone, Copy, Debug, PartialEq, Eq, Structural)]
pub enum ConvertError {
    /// A `)` with no `(` to close, or a `(` that is never closed.
    Unbalanced,
    /// A lexeme that is neither a numeric literal nor an operator or
    /// parenthesis.
    InvalidLexeme,
}

/// Why a string could not be turned into a postfix sequence.
#[derive(Debug)]
pub enum ParseError {
    /// The lexical matcher could not be built.
    Lex(regex::Error),
    /// The lexemes did not form a balanced expression.
    Unbalanced,
    /// The matcher handed back a lexeme that is not a token.
    InvalidLexeme,
}

/// The matcher for lexemes: a numeric literal, or one operator or
/// parenthesis.
pub const LEXEME_PATTERN: &'static str = "((([0-9])+(\\.[0-9]+)?)|(\\+|\\-|\\*|/|\\(|\\)))";

/// A token as its kind and literal text.
pub type TokenView = (OperandType, Seq<char>);

/// The converter's state: the output so far and the operator stack, whose
/// top is its last element.
pub type ShuntState = (Seq<TokenView>, Seq<OperandType>);

pub open spec fn op_token(k: OperandType) -> TokenView {
    (k, Seq::empty())
}

/// On `)`: moves operators from the stack to the output up to the nearest
/// `(`, which is dropped.
pub open spec fn pop_to_open(out: Seq<TokenView>, stack: Seq<OperandType>) -> Result<
    ShuntState,
    ConvertError,
>
    decreases stack.len(),
{
    if stack.len() == 0 {
        Err(ConvertError::Unbalanced)
    } else if stack.last() is Open {
        Ok((out, stack.drop_last()))
    } else {
        pop_to_open(out.push(op_token(stack.last())), stack.drop_last())
    }
}

/// Before pushing an operator of priority `p`: moves to the output every
/// operator on top of the stack, above the nearest `(`, whose priority is at
/// least `p`.
pub open spec fn pop_for(out: Seq<TokenView>, stack: Seq<OperandType>, p: nat) -> ShuntState
    decreases stack.len(),
{
    if stack.len() == 0 || stack.last() is Open || spec_priority(stack.last()) < p {
        (out, stack)
    } else {
        pop_for(out.push(op_token(stack.last())), stack.drop_last(), p)
    }
}

/// One step of the shunting-yard method on one lexeme.
pub open spec fn step(st: Result<ShuntState, ConvertError>, lx: Seq<char>) -> Result<
    ShuntState,
    ConvertError,
> {
    match st {
        Err(e) => Err(e),
        Ok((out, stack)) => match lexeme_kind(lx) {
            None => Err(ConvertError::InvalidLexeme),
            Some(OperandType::Number) => Ok((out.push((OperandType::Number, lx)), stack)),
            Some(OperandType::Open) => Ok((out, stack.push(OperandType::Open))),
            Some(OperandType::Close) => pop_to_open(out, stack),
            Some(k) => {
                let (o2, s2) = pop_for(out, stack, spec_priority(k));
                Ok((o2, s2.push(k)))
            },
        },
    }
}

/// The steps over a sequence of lexemes, from a given state.
pub open spec fn run_from(st: Result<ShuntState, ConvertError>, lxs: Seq<Seq<char>>) -> Result<
    ShuntState,
    ConvertError,
>
    decreases lxs.len(),
{
    if lxs.len() == 0 {
        st
    } else {
        run_from(step(st, lxs[0]), lxs.drop_first())
    }
}

/// The converter's state before the first lexeme: no output, no operator.
pub open spec fn start() -> Result<ShuntState, ConvertError> {
    Ok((Seq::empty(), Seq::empty()))
}

/// The postfix form of a sequence of lexemes: the output once every lexeme
/// is consumed, where the operator stack is then empty.
pub open spec fn spec_postfix(lxs: Seq<Seq<char>>) -> Result<Seq<TokenView>, ConvertError> {
    match run_from(start(), lxs) {
        Err(e) => Err(e),
        Ok((out, stack)) => if stack.len() == 0 {
            Ok(out)
        } else {
            Err(ConvertError::Unbalanced)
        },
    }
}

/// The input inside the implicit outer pair of parentheses.
pub open spec fn wrapped(line: Seq<char>) -> Seq<char> {
    seq!['('] + line + seq![')']
}

pub open spec fn token_views(ts: Seq<Token>) -> Seq<TokenView> {
    ts.map_values(|t: Token| t@)
}

/// The postfix form of a line, where the matcher for lexemes can be built.
pub open spec fn spec_parse(line: Seq<char>) -> Result<Seq<TokenView>, ConvertError> {
    spec_postfix(regex_find_all(LEXEME_PATTERN@, wrapped(line)))
}

proof fn lemma_postfix_err(lxs: Seq<Seq<char>>, e: ConvertError)
    requires
        run_from(start(), lxs) == Err::<ShuntState, ConvertError>(e),
    ensures
        spec_postfix(lxs) == Err::<Seq<TokenView>, ConvertError>(e),
{
}

pub proof fn lemma_err_stays(e: ConvertError, lxs: Seq<Seq<char>>)
    ensures
        run_from(Err(e), lxs) == Err::<ShuntState, ConvertError>(e),
    decreases lxs.len(),
{
    if lxs.len() > 0 {
        lemma_err_stays(e, lxs.drop_first());
    }
}

/// Converts a sequence of lexemes in infix order to a sequence of tokens in
/// postfix order.
pub fn to_postfix(lexemes: &Vec<Vec<char>>) -> (r: Result<Vec<Token>, ConvertError>)
    ensures
        match r {
            Ok(v) => spec_postfix(lexeme_views(lexemes@)) == Ok::<Seq<TokenView>, ConvertError>(
                token_views(v@),
            ),
            Err(e) => spec_postfix(lexeme_views(lexemes@)) == Err::<Seq<TokenView>, ConvertError>(
                e,
            ),
        },
{
    let ghost all = lexeme_views(lexemes@);
    let ghost init = start();
    let mut stack: Vec<OperandType> = Vec::new();
    let mut tokens: Vec<Token> = Vec::new();
    let mut i: usize = 0;
    assert(all.subrange(0, all.len() as int) == all);
    assert(token_views(tokens@) == Seq::<TokenView>::empty());
    while i < lexemes.len()
        invariant
            0 <= i <= lexemes.len(),
            all == lexeme_views(lexemes@),
            init == start(),
            run_from(Ok((token_views(tokens@), stack@)), all.subrange(i as int, all.len() as int))
                == run_from(init, all),
        decreases lexemes.len() - i,
    {
        let ghost rest = all.subrange(i as int, all.len() as int);
        let ghost st0: ShuntState = (token_views(tokens@), stack@);
        assert(rest.len() == lexemes.len() - i);
        assert(rest[0] == lexemes@[i as int]@);
        assert(rest.drop_first() == all.subrange(i + 1, all.len() as int));
        let ghost tail = rest.drop_first();
        let ghost next = step(Ok(st0), rest[0]);
        assert(run_from(Ok(st0), rest) == run_from(next, tail));
        let lx = &lexemes[i];
        match classify(lx) {
            None => {
                proof {
                    lemma_err_stays(ConvertError::InvalidLexeme, tail);
                    lemma_postfix_err(all, ConvertError::InvalidLexeme);
                }
                return Err(ConvertError::InvalidLexeme);
            },
            Some(OperandType::Number) => {
                tokens.push(Token::new(OperandType::Number, copy_chars(lx)));
                assert(token_views(tokens@) == st0.0.push((OperandType::Number, lx@)));
            },
            Some(OperandType::Open) => {
                stack.push(OperandType::Open);
            },
            Some(OperandType::Close) => {
                loop
                    invariant_except_break
                        pop_to_open(st0.0, st0.1) == pop_to_open(token_views(tokens@), stack@),
                    invariant
                        next == pop_to_open(st0.0, st0.1),
                        run_from(next, tail) == run_from(init, all),
                        all == lexeme_views(lexemes@),
                        init == start(),
                    ensures
                        pop_to_open(st0.0, st0.1) == Ok::<ShuntState, ConvertError>(
                            (token_views(tokens@), stack@),
                        ),
                    decreases stack.len(),
                {
                    match stack.pop() {
                        None => {
                            proof {
                                lemma_err_stays(ConvertError::Unbalanced, tail);
                                lemma_postfix_err(all, ConvertError::Unbalanced);
                            }
                            return Err(ConvertError::Unbalanced);
                        },
                        Some(op) => {
                            if op == OperandType::Open {
                                break;
                            }
                            let ghost before = token_views(tokens@);
                            tokens.push(Token::new(op, Vec::new()));
                            assert(token_views(tokens@) == before.push(op_token(op)));
                        },
                    }
                }
            },
            Some(k) => {
                let p = priority(k);
                while stack.len() > 0 && stack[stack.len() - 1] != OperandType::Open && priority(
                    stack[stack.len() - 1],
                ) >= p
                    invariant
                        pop_for(st0.0, st0.1, spec_priority(k)) == pop_for(
                            token_views(tokens@),
                            stack@,
                            spec_priority(k),
                        ),
                        p as nat == spec_priority(k),
                    decreases stack.len(),
                {
                    let op = stack.pop().unwrap();
                    let ghost before = token_views(tokens@);
                    tokens.push(Token::new(op, Vec::new()));
                    assert(token_views(tokens@) == before.push(op_token(op)));
                }
                stack.push(k);
            },
        }
        i += 1;
    }
    if stack.len() > 0 {
        return Err(ConvertError::Unbalanced);
    }
    Ok(tokens)
}

/// Tokenizes a line and converts it to postfix order: the line is read
/// inside an implicit outer pair of parentheses, its lexemes are found by
/// the matcher for `LEXEME_PATTERN`, and anything between them is skipped.
pub fn parse(line: &str) -> (r: Result<Vec<Token>, ParseError>)
    ensures
        r matches Err(ParseError::Lex(_)) <==> !regex_valid(LEXEME_PATTERN@),
        regex_valid(LEXEME_PATTERN@) ==> match spec_parse(line@) {
            Ok(out) => r matches Ok(v) && token_views(v@) == out,
            Err(ConvertError::Unbalanced) => r matches Err(ParseError::Unbalanced),
            Err(ConvertError::InvalidLexeme) => r matches Err(ParseError::InvalidLexeme),
        },
{
    let mut text = String::from_str("(");
    text.append(line);
    text.append(")");
    proof {
        reveal_strlit("(");
        reveal_strlit(")");
        assert(text@ == wrapped(line@));
    }
    match find_all(LEXEME_PATTERN, text.as_str()) {
        Err(e) => Err(ParseError::Lex(e)),
        Ok(lexemes) => match to_postfix(&lexemes) {
            Ok(tokens) => Ok(tokens),
            Err(ConvertError::Unbalanced) => Err(ParseError::Unbalanced),
            Err(ConvertError::InvalidLexeme) => Err(ParseError::InvalidLexeme),
        },
    }
}

} // verus!

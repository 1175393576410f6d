//! Expressions: the values that a netlist gives to parameters.

use crate::number::{is_decimal, is_decimal_at};
use crate::text::{
    chars_of, lemma_run_length_is, run_length, skip_spaces, skip_whitespace_back, text_of,
    trimmed, trimmed_start,
};
use vstd::prelude::*;
use vstd::string::StrSliceExecFns;

verus! {

/// Why text is not an expression.
#[derive(Clone, Copy, Debug, PartialEq, Eq, Structural)]
pub enum ExpressionError {
    /// The digits of an imaginary number are not a decimal number.
    FailedToParseFloat,
    /// No operand stands where one is needed.
    UnknownOperand,
    /// No operator stands where one is needed.
    UnknownOperator,
    /// The parenthesis after a function's name is not closed.
    InvalidFunction,
    /// A variable is not well formed.
    InvalidVariable,
}

/// The binary operators.
#[derive(Clone, Copy, Debug, PartialEq, Eq, Structural)]
pub enum BinaryOperator {
    Add,
    Subtract,
    Multiply,
    Divide,
    Exponentiate,
    Phase,
}

/// How tightly an operator binds.
pub open spec fn rank(op: BinaryOperator) -> nat {
    match op {
        BinaryOperator::Phase => 4,
        BinaryOperator::Exponentiate => 3,
        BinaryOperator::Multiply => 2,
        BinaryOperator::Divide => 1,
        BinaryOperator::Add | BinaryOperator::Subtract => 0,
    }
}

/// How tightly an operator binds: phase above exponentiation above
/// multiplication above division above addition and subtraction.
pub fn precedence(op: BinaryOperator) -> (p: u8)
    ensures
        p == rank(op),
{
    match op {
        BinaryOperator::Phase => 4,
        BinaryOperator::Exponentiate => 3,
        BinaryOperator::Multiply => 2,
        BinaryOperator::Divide => 1,
        BinaryOperator::Add | BinaryOperator::Subtract => 0,
    }
}

/// An expression tree. Numbers are kept as the text that was read; the
/// text of a number is always a decimal number.
#[derive(Debug, PartialEq)]
pub enum Expression {
    /// An imaginary number, by the digits before or after its `i` or `j`.
    Imaginary(String),
    /// A real number, by its digits.
    Real(String),
    /// A variable, with the subscript after its first underscore if it has one.
    Variable { name: String, subscript: Option<String> },
    /// Two operands joined by an operator.
    Binop { op: BinaryOperator, lhs: Box<Expression>, rhs: Box<Expression> },
    /// An expression in parentheses.
    Bracketed(Box<Expression>),
    /// A function applied to arguments.
    Function { name: String, arguments: Vec<Expression> },
}

/// What an expression is: the same tree over plain text.
pub enum Term {
    Imaginary(Seq<char>),
    Real(Seq<char>),
    Variable { name: Seq<char>, subscript: Option<Seq<char>> },
    Binop { op: BinaryOperator, lhs: Box<Term>, rhs: Box<Term> },
    Bracketed(Box<Term>),
    Function { name: Seq<char>, arguments: Seq<Term> },
}

/// What an expression is.
pub open spec fn term_of(expression: Expression) -> Term
    decreases expression,
{
    match expression {
        Expression::Imaginary(digits) => Term::Imaginary(digits@),
        Expression::Real(digits) => Term::Real(digits@),
        Expression::Variable { name, subscript } => Term::Variable {
            name: name@,
            subscript: match subscript {
                Some(subscript) => Some(subscript@),
                None => None,
            },
        },
        Expression::Binop { op, lhs, rhs } => Term::Binop {
            op,
            lhs: Box::new(term_of(*lhs)),
            rhs: Box::new(term_of(*rhs)),
        },
        Expression::Bracketed(inner) => Term::Bracketed(Box::new(term_of(*inner))),
        Expression::Function { name, arguments } => Term::Function {
            name: name@,
            arguments: Seq::new(
                arguments.len() as nat,
                |i: int|
                    if 0 <= i < arguments.len() {
                        term_of(arguments[i])
                    } else {
                        arbitrary()
                    },
            ),
        },
    }
}

impl View for Expression {
    type V = Term;

    open spec fn view(&self) -> Term {
        term_of(*self)
    }
}

/// The tree of `lhs op rhs` with operators of lower rank moved to the
/// root: while an operand is itself a binary operation whose operator binds
/// less tightly than the root's, the tree is rotated so that this operator
/// becomes the root. The right operand is looked at first.
pub open spec fn reordered(op: BinaryOperator, left: Term, right: Term) -> Term
    decreases rank(op),
{
    if right is Binop && rank(right->op) < rank(op) {
        reordered(
            right->op,
            Term::Binop { op, lhs: Box::new(left), rhs: right->lhs },
            *right->rhs,
        )
    } else if left is Binop && rank(left->op) < rank(op) {
        reordered(
            left->op,
            *left->lhs,
            Term::Binop { op, lhs: left->rhs, rhs: Box::new(right) },
        )
    } else {
        Term::Binop { op, lhs: Box::new(left), rhs: Box::new(right) }
    }
}

/// The tree with `reordered` applied to every binary operation, operands first.
pub open spec fn by_precedence(term: Term) -> Term
    decreases term,
{
    match term {
        Term::Imaginary(_) | Term::Real(_) | Term::Variable { .. } => term,
        Term::Bracketed(inner) => Term::Bracketed(Box::new(by_precedence(*inner))),
        Term::Function { name, arguments } => Term::Function {
            name,
            arguments: Seq::new(
                arguments.len(),
                |i: int|
                    if 0 <= i < arguments.len() {
                        by_precedence(arguments[i])
                    } else {
                        arbitrary()
                    },
            ),
        },
        Term::Binop { op, lhs, rhs } => reordered(op, by_precedence(*lhs), by_precedence(*rhs)),
    }
}

/// Whether the expression is a binary operation whose operator binds less
/// tightly than `op`.
fn binds_less(expression: &Expression, op: BinaryOperator) -> (r: bool)
    ensures
        r == (expression@ is Binop && rank(expression@->op) < rank(op)),
{
    match expression {
        Expression::Binop { op: inner, .. } => precedence(*inner) < precedence(op),
        _ => false,
    }
}

/// Joins two operands by an operator and moves operators of lower rank to
/// the root of the tree.
pub fn reorder_binop(op: BinaryOperator, lhs: Expression, rhs: Expression) -> (r: Expression)
    ensures
        r@ == reordered(op, lhs@, rhs@),
    decreases rank(op),
{
    if binds_less(&rhs, op) {
        match rhs {
            Expression::Binop { op: rop, lhs: rlhs, rhs: rrhs } => {
                let left = Expression::Binop { op, lhs: Box::new(lhs), rhs: rlhs };
                reorder_binop(rop, left, *rrhs)
            },
            other => other,
        }
    } else if binds_less(&lhs, op) {
        match lhs {
            Expression::Binop { op: lop, lhs: llhs, rhs: lrhs } => {
                let right = Expression::Binop { op, lhs: lrhs, rhs: Box::new(rhs) };
                reorder_binop(lop, *llhs, right)
            },
            other => other,
        }
    } else {
        Expression::Binop { op, lhs: Box::new(lhs), rhs: Box::new(rhs) }
    }
}

/// Applies operator precedence throughout an expression.
pub fn apply_precedence(expr: Expression) -> (r: Expression)
    ensures
        r@ == by_precedence(expr@),
    decreases expr,
{
    match expr {
        Expression::Imaginary(digits) => Expression::Imaginary(digits),
        Expression::Real(digits) => Expression::Real(digits),
        Expression::Variable { name, subscript } => Expression::Variable { name, subscript },
        Expression::Bracketed(inner) => Expression::Bracketed(Box::new(apply_precedence(*inner))),
        Expression::Function { name, arguments } => {
            let ghost all = arguments@;
            let mut done: Vec<Expression> = Vec::new();
            for argument in it: arguments
                invariant
                    it.seq() == all,
                    forall|t: int| 0 <= t < all.len() ==> decreases_to!(expr => #[trigger] all[t]),
                    done.len() == it.index(),
                    forall|t: int|
                        0 <= t < it.index() ==> (#[trigger] done[t])@ == by_precedence(all[t]@),
            {
                done.push(apply_precedence(argument));
            }
            let r = Expression::Function { name, arguments: done };
            proof {
                assert(r@->arguments =~= by_precedence(expr@)->arguments);
            }
            r
        },
        Expression::Binop { op, lhs, rhs } => {
            let left = apply_precedence(*lhs);
            let right = apply_precedence(*rhs);
            reorder_binop(op, left, right)
        },
    }
}

/// A character of a name or number: an ASCII letter or digit, an
/// underscore, or any character beyond ASCII.
pub open spec fn is_token_char(c: char) -> bool {
    let u = c as u32;
    ||| 0x30 <= u <= 0x39
    ||| 0x41 <= u <= 0x5a
    ||| 0x61 <= u <= 0x7a
    ||| u == 0x5f
    ||| u > 127
}

/// The predicate of token characters.
pub open spec fn token_char() -> spec_fn(char) -> bool {
    |c: char| is_token_char(c)
}

/// The predicate of characters other than `stop`.
pub open spec fn other_than(stop: char) -> spec_fn(char) -> bool {
    |c: char| c != stop
}

/// The mark of an imaginary number.
pub open spec fn is_mark(c: char) -> bool {
    c == 'i' || c == 'j'
}

/// The predicate of characters that are no mark of an imaginary number.
pub open spec fn no_mark() -> spec_fn(char) -> bool {
    |c: char| !is_mark(c)
}

/// The result of reading something off the start of a text: what was read
/// and the text that is left.
pub type Parsed = Result<(Term, Seq<char>), ExpressionError>;

/// Where the parenthesis closes: the position and depth reached by walking
/// from position `i` at depth `depth` until the depth is zero or the text ends.
pub open spec fn scan_close(s: Seq<char>, i: int, depth: int) -> (int, int)
    decreases s.len() - i,
{
    if 0 <= i < s.len() && depth > 0 {
        scan_close(
            s,
            i + 1,
            if s[i] == '(' {
                depth + 1
            } else if s[i] == ')' {
                depth - 1
            } else {
                depth
            },
        )
    } else {
        (i, depth)
    }
}

/// The operator at the start of the text, after white space, and the text
/// after it. `**` and `^` both exponentiate.
pub open spec fn operator(s: Seq<char>) -> Option<(BinaryOperator, Seq<char>)> {
    let t = trimmed_start(s);
    if t.len() >= 2 && t[0] == '*' && t[1] == '*' {
        Some((BinaryOperator::Exponentiate, t.skip(2)))
    } else if t.len() >= 1 && t[0] == '^' {
        Some((BinaryOperator::Exponentiate, t.skip(1)))
    } else if t.len() >= 1 && t[0] == '+' {
        Some((BinaryOperator::Add, t.skip(1)))
    } else if t.len() >= 1 && t[0] == '-' {
        Some((BinaryOperator::Subtract, t.skip(1)))
    } else if t.len() >= 1 && t[0] == '*' {
        Some((BinaryOperator::Multiply, t.skip(1)))
    } else if t.len() >= 1 && t[0] == '/' {
        Some((BinaryOperator::Divide, t.skip(1)))
    } else {
        None
    }
}

/// The digits of an imaginary number whose text holds a mark: the text
/// without the mark, where the mark is the only one and stands last or
/// first, and the rest is a decimal number.
pub open spec fn imaginary(token: Seq<char>) -> Result<Seq<char>, ExpressionError> {
    if token.len() > 0 && is_mark(token.last()) && run_length(token.drop_last(), no_mark())
        == token.len() - 1 {
        if is_decimal(token.drop_last()) {
            Ok(token.drop_last())
        } else {
            Err(ExpressionError::FailedToParseFloat)
        }
    } else if token.len() > 0 && is_mark(token[0]) && run_length(token.drop_first(), no_mark())
        == token.len() - 1 {
        if is_decimal(token.drop_first()) {
            Ok(token.drop_first())
        } else {
            Err(ExpressionError::FailedToParseFloat)
        }
    } else {
        Err(ExpressionError::UnknownOperand)
    }
}

/// What a token without a call after it stands for: a variable with a
/// subscript where it holds an underscore, a real number where it is a
/// decimal number, an imaginary number where it holds a mark, and else a
/// variable without a subscript.
pub open spec fn atom(token: Seq<char>) -> Result<Term, ExpressionError> {
    let underscore = run_length(token, other_than('_'));
    if underscore < token.len() {
        Ok(
            Term::Variable {
                name: token.take(underscore as int),
                subscript: Some(token.skip(underscore as int + 1)),
            },
        )
    } else if is_decimal(token) {
        Ok(Term::Real(token))
    } else if run_length(token, no_mark()) < token.len() {
        match imaginary(token) {
            Ok(digits) => Ok(Term::Imaginary(digits)),
            Err(e) => Err(e),
        }
    } else {
        Ok(Term::Variable { name: token, subscript: None })
    }
}

/// An expression in parentheses at the start of a text that begins with
/// the opening parenthesis.
pub open spec fn bracketed(t: Seq<char>) -> Parsed
    decreases t.len(), 0nat, 0nat,
{
    let end = scan_close(t, 1, 1).0;
    if scan_close(t, 1, 1).1 != 0 || end < 2 || end > t.len() {
        Err(ExpressionError::UnknownOperand)
    } else {
        match expression(t.subrange(1, end - 1)) {
            Ok((inner, _)) => Ok((Term::Bracketed(Box::new(inner)), t.skip(end))),
            Err(e) => Err(e),
        }
    }
}

/// A function call: the name that was read, and after it a text that
/// begins with the opening parenthesis of the arguments.
pub open spec fn call(name: Seq<char>, rest: Seq<char>, bound: nat) -> Parsed
    decreases bound, 5nat, 0nat,
{
    let end = scan_close(rest, 1, 1).0;
    if scan_close(rest, 1, 1).1 != 0 || end < 2 || end > rest.len() {
        Err(ExpressionError::InvalidFunction)
    } else {
        match arguments(rest.subrange(1, end - 1), bound) {
            Ok(arguments) => Ok((Term::Function { name, arguments }, rest.skip(end))),
            Err(e) => Err(e),
        }
    }
}

/// A token at the start of a text: a function call where a parenthesis
/// follows the token, after white space, and an atom where none does.
pub open spec fn named(t: Seq<char>) -> Parsed
    decreases t.len(), 0nat, 0nat,
{
    let n = run_length(t, token_char());
    let token = t.take(n as int);
    let rest = trimmed_start(t.skip(n as int));
    if rest.len() > 0 && rest[0] == '(' {
        if t.len() == 0 {
            Err(ExpressionError::InvalidFunction)
        } else {
            call(token, rest, (t.len() - 1) as nat)
        }
    } else {
        match atom(token) {
            Ok(term) => Ok((term, rest)),
            Err(e) => Err(e),
        }
    }
}

/// The operand at the start of the text, after white space: an expression
/// in parentheses, a function call, or an atom.
pub open spec fn operand(s: Seq<char>) -> Parsed
    decreases s.len(), 1nat, 0nat,
{
    let t = trimmed_start(s);
    if t.len() == 0 || t.len() > s.len() {
        Err(ExpressionError::UnknownOperand)
    } else if t[0] == '(' {
        bracketed(t)
    } else {
        named(t)
    }
}

/// The arguments of a call: the text between its parentheses is cut at
/// every comma, and each piece, without the white space around it, is an
/// expression. The first piece that is none gives the error.
pub open spec fn arguments(s: Seq<char>, bound: nat) -> Result<Seq<Term>, ExpressionError>
    decreases bound, 4nat, s.len(),
{
    let comma = run_length(s, other_than(','));
    let piece = trimmed(s.take(comma as int));
    if piece.len() > bound {
        Err(ExpressionError::UnknownOperand)
    } else {
        match expression(piece) {
            Err(e) => Err(e),
            Ok((first, _)) => if comma >= s.len() {
                Ok(seq![first])
            } else {
                match arguments(s.skip(comma as int + 1), bound) {
                    Ok(others) => Ok(seq![first] + others),
                    Err(e) => Err(e),
                }
            },
        }
    }
}

/// Operands joined by operators, read from left to right: to the operand
/// `lhs` that was read, each further operator adds its operand on the right.
pub open spec fn operations(lhs: Term, rest: Seq<char>) -> Parsed
    decreases rest.len(), 1nat, 0nat,
{
    match operator(rest) {
        None => Ok((lhs, rest)),
        Some((op, after)) => {
            let after = trimmed_start(after);
            if after.len() >= rest.len() {
                Err(ExpressionError::UnknownOperator)
            } else {
                match operand(after) {
                    Err(e) => Err(e),
                    Ok((rhs, left)) => {
                        let left = trimmed_start(left);
                        if left.len() > after.len() {
                            Err(ExpressionError::UnknownOperator)
                        } else {
                            operations(
                                Term::Binop { op, lhs: Box::new(lhs), rhs: Box::new(rhs) },
                                left,
                            )
                        }
                    },
                }
            }
        },
    }
}

/// An operand followed by any number of operators with their operands.
pub open spec fn binop(s: Seq<char>) -> Parsed
    decreases s.len(), 2nat, 0nat,
{
    match operand(s) {
        Err(e) => Err(e),
        Ok((lhs, rest)) => {
            let rest = trimmed_start(rest);
            if rest.len() > s.len() {
                Err(ExpressionError::UnknownOperand)
            } else {
                operations(lhs, rest)
            }
        },
    }
}

/// The expression at the start of the text, with precedence applied, and
/// the text that is left after it.
pub open spec fn expression(s: Seq<char>) -> Parsed
    decreases s.len(), 3nat, 0nat,
{
    let t = trimmed_start(s);
    if t.len() > s.len() {
        Err(ExpressionError::UnknownOperand)
    } else {
        match binop(t) {
            Ok((term, rest)) => Ok((by_precedence(term), rest)),
            Err(e) => Err(e),
        }
    }
}

/// Whether `c` is a character of a name or number.
fn token_char_is(c: char) -> (r: bool)
    ensures
        r == is_token_char(c),
{
    let u = c as u32;
    (0x30 <= u && u <= 0x39) || (0x41 <= u && u <= 0x5a) || (0x61 <= u && u <= 0x7a) || u == 0x5f
        || u > 127
}

/// The position after the token characters that begin at `from`.
fn skip_token(chars: &Vec<char>, from: usize, to: usize) -> (end: usize)
    requires
        from <= to <= chars.len(),
    ensures
        from <= end <= to,
        end == from + run_length(chars@.subrange(from as int, to as int), token_char()),
{
    let mut i = from;
    while i < to && token_char_is(chars[i])
        invariant
            from <= i <= to <= chars.len(),
            forall|t: int| from <= t < i ==> is_token_char(#[trigger] chars[t]),
        decreases to - i,
    {
        i += 1;
    }
    proof {
        let part = chars@.subrange(from as int, to as int);
        assert forall|t: int| 0 <= t < i - from implies token_char()(#[trigger] part[t]) by {
            assert(part[t] == chars[from + t]);
        }
        lemma_run_length_is(part, token_char(), i - from);
    }
    i
}

/// The position of the first `stop` from `from` up to `to`, or `to` where
/// there is none.
pub(crate) fn find_char(chars: &Vec<char>, from: usize, to: usize, stop: char) -> (end: usize)
    requires
        from <= to <= chars.len(),
    ensures
        from <= end <= to,
        end == from + run_length(chars@.subrange(from as int, to as int), other_than(stop)),
{
    let mut i = from;
    while i < to && chars[i] != stop
        invariant
            from <= i <= to <= chars.len(),
            forall|t: int| from <= t < i ==> (#[trigger] chars[t]) != stop,
        decreases to - i,
    {
        i += 1;
    }
    proof {
        let part = chars@.subrange(from as int, to as int);
        assert forall|t: int| 0 <= t < i - from implies other_than(stop)(#[trigger] part[t]) by {
            assert(part[t] == chars[from + t]);
        }
        lemma_run_length_is(part, other_than(stop), i - from);
    }
    i
}

/// The position of the first mark of an imaginary number from `from` up to
/// `to`, or `to` where there is none.
fn find_mark(chars: &Vec<char>, from: usize, to: usize) -> (end: usize)
    requires
        from <= to <= chars.len(),
    ensures
        from <= end <= to,
        end == from + run_length(chars@.subrange(from as int, to as int), no_mark()),
{
    let mut i = from;
    while i < to && chars[i] != 'i' && chars[i] != 'j'
        invariant
            from <= i <= to <= chars.len(),
            forall|t: int| from <= t < i ==> !is_mark(#[trigger] chars[t]),
        decreases to - i,
    {
        i += 1;
    }
    proof {
        let part = chars@.subrange(from as int, to as int);
        assert forall|t: int| 0 <= t < i - from implies no_mark()(#[trigger] part[t]) by {
            assert(part[t] == chars[from + t]);
        }
        lemma_run_length_is(part, no_mark(), i - from);
    }
    i
}

/// Walks from the parenthesis at `open` to the position after the one
/// that closes it, or to `to`, and gives the position and the depth there.
fn close_at(chars: &Vec<char>, open: usize, to: usize) -> (r: (usize, usize))
    requires
        open < to <= chars.len(),
    ensures
        r.0 == open + scan_close(chars@.subrange(open as int, to as int), 1, 1).0,
        r.1 == scan_close(chars@.subrange(open as int, to as int), 1, 1).1,
        open + 1 <= r.0 <= to,
        r.1 == 0 ==> open + 2 <= r.0,
{
    let ghost s = chars@.subrange(open as int, to as int);
    let mut i = open + 1;
    let mut depth: usize = 1;
    while i < to && depth > 0
        invariant
            open + 1 <= i <= to <= chars.len(),
            s == chars@.subrange(open as int, to as int),
            depth <= i - open,
            depth == 0 ==> open + 2 <= i,
            scan_close(s, 1, 1) == scan_close(s, i - open, depth as int),
        decreases to - i,
    {
        assert(s[i - open] == chars[i as int]);
        if chars[i] == '(' {
            depth += 1;
        } else if chars[i] == ')' {
            depth -= 1;
        }
        i += 1;
    }
    (i, depth)
}

/// The expression that a token stands for when no call follows it.
fn atom_at(input: &str, chars: &Vec<char>, from: usize, to: usize) -> (r: Result<
    Expression,
    ExpressionError,
>)
    requires
        chars@ == input@,
        from <= to <= chars.len(),
    ensures
        match r {
            Ok(e) => atom(chars@.subrange(from as int, to as int)) == Ok::<Term, ExpressionError>(
                e@,
            ),
            Err(e) => atom(chars@.subrange(from as int, to as int)) == Err::<
                Term,
                ExpressionError,
            >(e),
        },
{
    let ghost token = chars@.subrange(from as int, to as int);
    let underscore = find_char(chars, from, to, '_');
    if underscore < to {
        proof {
            assert(token.take(underscore - from) =~= input@.subrange(
                from as int,
                underscore as int,
            ));
            assert(token.skip(underscore - from + 1) =~= input@.subrange(
                underscore + 1,
                to as int,
            ));
        }
        return Ok(
            Expression::Variable {
                name: text_of(input, from, underscore),
                subscript: Some(text_of(input, underscore + 1, to)),
            },
        );
    }
    if is_decimal_at(chars, from, to) {
        return Ok(Expression::Real(text_of(input, from, to)));
    }
    let mark = find_mark(chars, from, to);
    if mark < to {
        proof {
            assert(token.last() == chars[to - 1]);
            assert(token[0] == chars[from as int]);
            assert(token.drop_last() =~= chars@.subrange(from as int, to - 1));
            assert(token.drop_first() =~= chars@.subrange(from + 1, to as int));
        }
        let last = chars[to - 1];
        if (last == 'i' || last == 'j') && find_mark(chars, from, to - 1) == to - 1 {
            return if is_decimal_at(chars, from, to - 1) {
                Ok(Expression::Imaginary(text_of(input, from, to - 1)))
            } else {
                Err(ExpressionError::FailedToParseFloat)
            };
        }
        let first = chars[from];
        if (first == 'i' || first == 'j') && find_mark(chars, from + 1, to) == to {
            return if is_decimal_at(chars, from + 1, to) {
                Ok(Expression::Imaginary(text_of(input, from + 1, to)))
            } else {
                Err(ExpressionError::FailedToParseFloat)
            };
        }
        return Err(ExpressionError::UnknownOperand);
    }
    Ok(Expression::Variable { name: text_of(input, from, to), subscript: None })
}

/// The operator at `from`, after white space, and the position after it.
fn operator_at(chars: &Vec<char>, from: usize, to: usize) -> (r: Option<(BinaryOperator, usize)>)
    requires
        from <= to <= chars.len(),
    ensures
        match r {
            Some((op, pos)) => from < pos <= to && operator(
                chars@.subrange(from as int, to as int),
            ) == Some((op, chars@.subrange(pos as int, to as int))),
            None => operator(chars@.subrange(from as int, to as int)) is None,
        },
{
    let start = skip_spaces(chars, from, to);
    let ghost t = chars@.subrange(start as int, to as int);
    if start == to {
        return None;
    }
    proof {
        assert(t[0] == chars[start as int]);
        if start + 1 < to {
            assert(t[1] == chars[start + 1]);
            assert(t.skip(2) =~= chars@.subrange(start + 2, to as int));
        }
        assert(t.skip(1) =~= chars@.subrange(start + 1, to as int));
    }
    let c = chars[start];
    if c == '*' && start + 1 < to && chars[start + 1] == '*' {
        Some((BinaryOperator::Exponentiate, start + 2))
    } else if c == '^' {
        Some((BinaryOperator::Exponentiate, start + 1))
    } else if c == '+' {
        Some((BinaryOperator::Add, start + 1))
    } else if c == '-' {
        Some((BinaryOperator::Subtract, start + 1))
    } else if c == '*' {
        Some((BinaryOperator::Multiply, start + 1))
    } else if c == '/' {
        Some((BinaryOperator::Divide, start + 1))
    } else {
        None
    }
}

/// What was read, with the position where the rest begins, as a `Parsed`.
pub open spec fn parsed_at(
    r: Result<(Expression, usize), ExpressionError>,
    chars: Seq<char>,
    to: int,
) -> Parsed {
    match r {
        Ok((e, pos)) => Ok((e@, chars.subrange(pos as int, to))),
        Err(e) => Err(e),
    }
}

/// The position in a result, or `from` for an error.
pub open spec fn position_in(r: Result<(Expression, usize), ExpressionError>, from: usize) -> usize {
    match r {
        Ok((_, pos)) => pos,
        Err(_) => from,
    }
}

/// Reads an expression in parentheses; the opening one stands at `start`.
fn bracketed_at(input: &str, chars: &Vec<char>, start: usize, to: usize) -> (r: Result<
    (Expression, usize),
    ExpressionError,
>)
    requires
        chars@ == input@,
        start < to <= chars.len(),
    ensures
        parsed_at(r, chars@, to as int) == bracketed(chars@.subrange(start as int, to as int)),
        start <= position_in(r, start) <= to,
    decreases to - start, 0nat, 0nat,
{
    let ghost t = chars@.subrange(start as int, to as int);
    let (end, depth) = close_at(chars, start, to);
    if depth != 0 {
        return Err(ExpressionError::UnknownOperand);
    }
    proof {
        assert(t.subrange(1, end - start - 1) =~= chars@.subrange(start + 1, end - 1));
        assert(t.skip(end - start) =~= chars@.subrange(end as int, to as int));
    }
    match expression_at(input, chars, start + 1, end - 1) {
        Ok((inner, _)) => Ok((Expression::Bracketed(Box::new(inner)), end)),
        Err(e) => Err(e),
    }
}

/// Reads the arguments of a function call whose name stands at
/// `name_from..name_to` and whose opening parenthesis stands at `open`.
fn call_at(
    input: &str,
    chars: &Vec<char>,
    name_from: usize,
    name_to: usize,
    open: usize,
    to: usize,
    Ghost(bound): Ghost<nat>,
) -> (r: Result<(Expression, usize), ExpressionError>)
    requires
        chars@ == input@,
        name_from <= name_to <= open < to <= chars.len(),
        to - open <= bound + 1,
    ensures
        parsed_at(r, chars@, to as int) == call(
            chars@.subrange(name_from as int, name_to as int),
            chars@.subrange(open as int, to as int),
            bound,
        ),
        open <= position_in(r, open) <= to,
    decreases bound, 5nat, 0nat,
{
    let ghost rest = chars@.subrange(open as int, to as int);
    let (end, depth) = close_at(chars, open, to);
    if depth != 0 {
        return Err(ExpressionError::InvalidFunction);
    }
    proof {
        assert(rest.subrange(1, end - open - 1) =~= chars@.subrange(open + 1, end - 1));
        assert(rest.skip(end - open) =~= chars@.subrange(end as int, to as int));
    }
    match arguments_at(input, chars, open + 1, end - 1, Ghost(bound)) {
        Ok(list) => {
            let r = Expression::Function { name: text_of(input, name_from, name_to), arguments: list };
            proof {
                let expected = arguments(chars@.subrange(open + 1, end - 1), bound)->Ok_0;
                assert(r@->arguments =~= expected);
            }
            Ok((r, end))
        },
        Err(e) => Err(e),
    }
}

/// Reads a function call or an atom; its token begins at `start`.
fn named_at(input: &str, chars: &Vec<char>, start: usize, to: usize) -> (r: Result<
    (Expression, usize),
    ExpressionError,
>)
    requires
        chars@ == input@,
        start < to <= chars.len(),
    ensures
        parsed_at(r, chars@, to as int) == named(chars@.subrange(start as int, to as int)),
        start <= position_in(r, start) <= to,
    decreases to - start, 0nat, 0nat,
{
    let ghost t = chars@.subrange(start as int, to as int);
    let token_end = skip_token(chars, start, to);
    let rest = skip_spaces(chars, token_end, to);
    let ghost after = chars@.subrange(rest as int, to as int);
    proof {
        assert(t.take(token_end - start) =~= chars@.subrange(start as int, token_end as int));
        assert(t.skip(token_end - start) =~= chars@.subrange(token_end as int, to as int));
        if rest < to {
            assert(after[0] == chars[rest as int]);
        }
    }
    if rest < to && chars[rest] == '(' {
        call_at(input, chars, start, token_end, rest, to, Ghost((to - start - 1) as nat))
    } else {
        match atom_at(input, chars, start, token_end) {
            Ok(e) => Ok((e, rest)),
            Err(e) => Err(e),
        }
    }
}

/// Reads an operand from the characters `from..to`.
fn operand_at(input: &str, chars: &Vec<char>, from: usize, to: usize) -> (r: Result<
    (Expression, usize),
    ExpressionError,
>)
    requires
        chars@ == input@,
        from <= to <= chars.len(),
    ensures
        parsed_at(r, chars@, to as int) == operand(chars@.subrange(from as int, to as int)),
        from <= position_in(r, from) <= to,
    decreases to - from, 1nat, 0nat,
{
    let start = skip_spaces(chars, from, to);
    let ghost t = chars@.subrange(start as int, to as int);
    if start == to {
        return Err(ExpressionError::UnknownOperand);
    }
    proof {
        assert(t[0] == chars[start as int]);
    }
    if chars[start] == '(' {
        bracketed_at(input, chars, start, to)
    } else {
        named_at(input, chars, start, to)
    }
}

/// Reads the arguments of a call from the characters `from..to`, which
/// stand between the parentheses of the call.
fn arguments_at(
    input: &str,
    chars: &Vec<char>,
    from: usize,
    to: usize,
    Ghost(bound): Ghost<nat>,
) -> (r: Result<Vec<Expression>, ExpressionError>)
    requires
        chars@ == input@,
        from <= to <= chars.len(),
        to - from <= bound,
    ensures
        match r {
            Ok(v) => {
                let expected = arguments(chars@.subrange(from as int, to as int), bound);
                &&& expected is Ok
                &&& expected->Ok_0.len() == v.len()
                &&& forall|i: int| 0 <= i < v.len() ==> (#[trigger] v[i])@ == expected->Ok_0[i]
            },
            Err(e) => arguments(chars@.subrange(from as int, to as int), bound) == Err::<
                Seq<Term>,
                ExpressionError,
            >(e),
        },
    decreases bound, 4nat, 0nat,
{
    let ghost all = chars@.subrange(from as int, to as int);
    let mut done: Vec<Expression> = Vec::new();
    let ghost mut terms: Seq<Term> = Seq::empty();
    let mut cursor = from;
    proof {
        match arguments(all, bound) {
            Ok(others) => {
                assert(terms + others =~= others);
            },
            Err(_) => {},
        }
    }
    loop
        invariant
            chars@ == input@,
            from <= cursor <= to <= chars.len(),
            to - from <= bound,
            all == chars@.subrange(from as int, to as int),
            terms.len() == done.len(),
            forall|i: int| 0 <= i < done.len() ==> (#[trigger] done[i])@ == terms[i],
            match arguments(chars@.subrange(cursor as int, to as int), bound) {
                Ok(others) => arguments(all, bound) == Ok::<Seq<Term>, ExpressionError>(
                    terms + others,
                ),
                Err(e) => arguments(all, bound) == Err::<Seq<Term>, ExpressionError>(e),
            },
        decreases to - cursor,
    {
        let ghost s = chars@.subrange(cursor as int, to as int);
        let ghost before = terms;
        let comma = find_char(chars, cursor, to, ',');
        let a = skip_spaces(chars, cursor, comma);
        let b = skip_whitespace_back(chars, a, comma);
        let ghost piece = chars@.subrange(a as int, b as int);
        proof {
            assert(s.take(comma - cursor) =~= chars@.subrange(cursor as int, comma as int));
            assert(chars@.subrange(a as int, comma as int).take(b - a) =~= piece);
            assert(trimmed(s.take(comma - cursor)) == piece);
            assert(run_length(s, other_than(',')) == comma - cursor);
            assert(piece.len() <= bound);
        }
        match expression_at(input, chars, a, b) {
            Err(e) => {
                proof {
                    assert(expression(piece) == Err::<(Term, Seq<char>), ExpressionError>(e));
                    assert(arguments(s, bound) == Err::<Seq<Term>, ExpressionError>(e));
                }
                return Err(e);
            },
            Ok((first, _)) => {
                done.push(first);
                proof {
                    terms = terms.push(first@);
                    assert(expression(piece) is Ok);
                    assert(expression(piece)->Ok_0.0 == first@);
                }
                if comma >= to {
                    proof {
                        assert(arguments(s, bound) == Ok::<Seq<Term>, ExpressionError>(
                            seq![first@],
                        ));
                        assert(terms =~= before + seq![first@]);
                    }
                    return Ok(done);
                }
                proof {
                    assert(s.skip(comma - cursor + 1) =~= chars@.subrange(comma + 1, to as int));
                    let tail = arguments(chars@.subrange(comma + 1, to as int), bound);
                    match tail {
                        Ok(others) => {
                            assert(arguments(s, bound) == Ok::<Seq<Term>, ExpressionError>(
                                seq![first@] + others,
                            ));
                            assert(terms + others =~= before + (seq![first@] + others));
                        },
                        Err(e) => {
                            assert(arguments(s, bound) == Err::<Seq<Term>, ExpressionError>(e));
                        },
                    }
                }
                cursor = comma + 1;
            },
        }
    }
}

/// Reads operators and their operands from the characters `from..to` and
/// joins them to the operand `lhs` that was read before.
fn operations_at(input: &str, chars: &Vec<char>, lhs: Expression, from: usize, to: usize) -> (r:
    Result<(Expression, usize), ExpressionError>)
    requires
        chars@ == input@,
        from <= to <= chars.len(),
    ensures
        parsed_at(r, chars@, to as int) == operations(lhs@, chars@.subrange(from as int, to as int)),
        from <= position_in(r, from) <= to,
    decreases to - from, 1nat, 0nat,
{
    match operator_at(chars, from, to) {
        None => Ok((lhs, from)),
        Some((op, after)) => {
            let start = skip_spaces(chars, after, to);
            match operand_at(input, chars, start, to) {
                Err(e) => Err(e),
                Ok((rhs, left)) => {
                    let left = skip_spaces(chars, left, to);
                    let joined = Expression::Binop { op, lhs: Box::new(lhs), rhs: Box::new(rhs) };
                    operations_at(input, chars, joined, left, to)
                },
            }
        },
    }
}

/// Reads an operand and the operations that follow it from the characters `from..to`.
fn binop_at(input: &str, chars: &Vec<char>, from: usize, to: usize) -> (r: Result<
    (Expression, usize),
    ExpressionError,
>)
    requires
        chars@ == input@,
        from <= to <= chars.len(),
    ensures
        parsed_at(r, chars@, to as int) == binop(chars@.subrange(from as int, to as int)),
        from <= position_in(r, from) <= to,
    decreases to - from, 2nat, 0nat,
{
    match operand_at(input, chars, from, to) {
        Err(e) => Err(e),
        Ok((lhs, rest)) => {
            let rest = skip_spaces(chars, rest, to);
            operations_at(input, chars, lhs, rest, to)
        },
    }
}

/// Reads an expression from the characters `from..to`.
pub(crate) fn expression_at(input: &str, chars: &Vec<char>, from: usize, to: usize) -> (r: Result<
    (Expression, usize),
    ExpressionError,
>)
    requires
        chars@ == input@,
        from <= to <= chars.len(),
    ensures
        parsed_at(r, chars@, to as int) == expression(chars@.subrange(from as int, to as int)),
        from <= position_in(r, from) <= to,
    decreases to - from, 3nat, 0nat,
{
    let start = skip_spaces(chars, from, to);
    match binop_at(input, chars, start, to) {
        Ok((e, rest)) => Ok((apply_precedence(e), rest)),
        Err(e) => Err(e),
    }
}

/// `rest` is what is left of `input` after some characters were read off its start.
pub open spec fn is_rest_of(rest: Seq<char>, input: Seq<char>) -> bool {
    rest.len() <= input.len() && rest == input.skip(input.len() - rest.len())
}

/// The text without the white space at its start.
pub fn take_whitespace(input: &str) -> (rest: &str)
    ensures
        rest@ == trimmed_start(input@),
        is_rest_of(rest@, input@),
{
    let chars = chars_of(input);
    let pos = skip_spaces(&chars, 0, chars.len());
    proof {
        assert(chars@.subrange(0, chars.len() as int) =~= input@);
        assert(input@.subrange(pos as int, chars.len() as int) =~= input@.skip(pos as int));
    }
    input.substring_char(pos, chars.len())
}

/// Reads an operator off the start of the text, after white space: `**`
/// or `^` for exponentiation, `+`, `-`, `*`, `/`. Fails with
/// `UnknownOperator` where none of them stands there.
pub fn take_operator(input: &str) -> (r: Result<(BinaryOperator, &str), ExpressionError>)
    ensures
        match r {
            Ok((op, rest)) => operator(input@) == Some((op, rest@)) && is_rest_of(rest@, input@),
            Err(e) => e == ExpressionError::UnknownOperator && operator(input@) is None,
        },
{
    let chars = chars_of(input);
    proof {
        assert(chars@.subrange(0, chars.len() as int) =~= input@);
    }
    match operator_at(&chars, 0, chars.len()) {
        Some((op, pos)) => {
            proof {
                assert(input@.subrange(pos as int, chars.len() as int) =~= input@.skip(pos as int));
            }
            Ok((op, input.substring_char(pos, chars.len())))
        },
        None => Err(ExpressionError::UnknownOperator),
    }
}

/// The result of a reader by positions, with the rest as text.
fn with_rest<'a>(
    input: &'a str,
    Ghost(chars): Ghost<Seq<char>>,
    r: Result<(Expression, usize), ExpressionError>,
) -> (out: Result<(Expression, &'a str), ExpressionError>)
    requires
        chars == input@,
        position_in(r, 0) <= chars.len(),
    ensures
        match out {
            Ok((e, rest)) => parsed_at(r, chars, chars.len() as int) == Ok::<
                (Term, Seq<char>),
                ExpressionError,
            >((e@, rest@)) && is_rest_of(rest@, input@),
            Err(e) => parsed_at(r, chars, chars.len() as int) == Err::<
                (Term, Seq<char>),
                ExpressionError,
            >(e),
        },
{
    match r {
        Ok((e, pos)) => {
            proof {
                assert(input@.subrange(pos as int, chars.len() as int) =~= input@.skip(pos as int));
            }
            let n = input.unicode_len();
            Ok((e, input.substring_char(pos, n)))
        },
        Err(e) => Err(e),
    }
}

/// Reads an operand off the start of the text, after white space: an
/// expression in parentheses, a function call, a variable or a number.
pub fn take_operand(input: &str) -> (r: Result<(Expression, &str), ExpressionError>)
    ensures
        match r {
            Ok((e, rest)) => operand(input@) == Ok::<(Term, Seq<char>), ExpressionError>(
                (e@, rest@),
            ) && is_rest_of(rest@, input@),
            Err(e) => operand(input@) == Err::<(Term, Seq<char>), ExpressionError>(e),
        },
{
    let chars = chars_of(input);
    proof {
        assert(chars@.subrange(0, chars.len() as int) =~= input@);
    }
    let r = operand_at(input, &chars, 0, chars.len());
    with_rest(input, Ghost(chars@), r)
}

/// Reads an operand and the operators and operands that follow it, joined
/// from left to right.
pub fn take_binop(input: &str) -> (r: Result<(Expression, &str), ExpressionError>)
    ensures
        match r {
            Ok((e, rest)) => binop(input@) == Ok::<(Term, Seq<char>), ExpressionError>(
                (e@, rest@),
            ) && is_rest_of(rest@, input@),
            Err(e) => binop(input@) == Err::<(Term, Seq<char>), ExpressionError>(e),
        },
{
    let chars = chars_of(input);
    proof {
        assert(chars@.subrange(0, chars.len() as int) =~= input@);
    }
    let r = binop_at(input, &chars, 0, chars.len());
    with_rest(input, Ghost(chars@), r)
}

/// Reads an expression off the start of the text and applies operator
/// precedence to it. Gives the expression and the text after it.
pub fn parse_expr(input: &str) -> (r: Result<(Expression, &str), ExpressionError>)
    ensures
        match r {
            Ok((e, rest)) => expression(input@) == Ok::<(Term, Seq<char>), ExpressionError>(
                (e@, rest@),
            ) && is_rest_of(rest@, input@),
            Err(e) => expression(input@) == Err::<(Term, Seq<char>), ExpressionError>(e),
        },
{
    let chars = chars_of(input);
    proof {
        assert(chars@.subrange(0, chars.len() as int) =~= input@);
    }
    let r = expression_at(input, &chars, 0, chars.len());
    with_rest(input, Ghost(chars@), r)
}

} // verus!

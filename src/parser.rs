//! The filter language: infix text to a command tree.
//!
//! An expression is split at the first logical connective it holds, trying in
//! order `") AND ("`, `") OR ("`, `" AND "` and `" OR "`; what is left is a
//! terminal `attribute operator literal`.

use vstd::prelude::*;

use crate::command::{
    Command, CompositeCommand, DataType, LogicalOperator, Operator, SingleCommand, Value,
};
use crate::literal::{literal_type, type_literal};
use crate::text::{chars_of, find_from, find_pattern, slice_chars, string_of};

verus! {

/// Why a filter expression was rejected.
#[derive(PartialEq, Debug, Clone)]
pub enum ParseError {
    /// A terminal that is not three tokens separated by single spaces.
    MalformedTerminal(String),
    /// An operator token outside `eq gt lt ge le ne`.
    UnknownOperator(String),
}

/// Whether the fault is an arity fault, and the text it concerns.
pub open spec fn fault_of(e: ParseError) -> (bool, Seq<char>) {
    match e {
        ParseError::MalformedTerminal(t) => (true, t@),
        ParseError::UnknownOperator(t) => (false, t@),
    }
}

impl ParseError {
    /// A description of the fault.
    pub fn message(&self) -> (r: String)
        ensures
            r@ == (match self {
                ParseError::MalformedTerminal(t) => "malformed terminal: "@ + t@,
                ParseError::UnknownOperator(t) => "unknown operator: "@ + t@,
            }),
    {
        match self {
            ParseError::MalformedTerminal(t) => {
                let mut r = String::from_str("malformed terminal: ");
                r.append(t.as_str());
                r
            },
            ParseError::UnknownOperator(t) => {
                let mut r = String::from_str("unknown operator: ");
                r.append(t.as_str());
                r
            },
        }
    }
}

pub open spec fn and_group() -> Seq<char> {
    seq![')', ' ', 'A', 'N', 'D', ' ', '(']
}

pub open spec fn or_group() -> Seq<char> {
    seq![')', ' ', 'O', 'R', ' ', '(']
}

pub open spec fn and_plain() -> Seq<char> {
    seq![' ', 'A', 'N', 'D', ' ']
}

pub open spec fn or_plain() -> Seq<char> {
    seq![' ', 'O', 'R', ' ']
}

/// `s` without one leading `(`.
pub open spec fn strip_open(s: Seq<char>) -> Seq<char> {
    if s.len() > 0 && s[0] == '(' {
        s.drop_first()
    } else {
        s
    }
}

/// `s` without one trailing `)`.
pub open spec fn strip_close(s: Seq<char>) -> Seq<char> {
    if s.len() > 0 && s[s.len() - 1] == ')' {
        s.drop_last()
    } else {
        s
    }
}

/// The two sides around the first occurrence of `pat`: a leading `(` is
/// dropped from the left side and, for a grouped connective, a trailing `)`
/// from the right side.
pub open spec fn sides(e: Seq<char>, pat: Seq<char>, grouped: bool) -> (Seq<char>, Seq<char>) {
    let p = find_from(e, pat, 0)->Some_0;
    let right = e.subrange(p + pat.len(), e.len() as int);
    (strip_open(e.subrange(0, p)), if grouped {
        strip_close(right)
    } else {
        right
    })
}

/// The connective an expression is split at, with its two sides; `None` for
/// a terminal.
pub open spec fn decide(e: Seq<char>) -> Option<(LogicalOperator, Seq<char>, Seq<char>)> {
    if find_from(e, and_group(), 0) is Some {
        Some((LogicalOperator::And, sides(e, and_group(), true).0, sides(e, and_group(), true).1))
    } else if find_from(e, or_group(), 0) is Some {
        Some((LogicalOperator::Or, sides(e, or_group(), true).0, sides(e, or_group(), true).1))
    } else if find_from(e, and_plain(), 0) is Some {
        Some((LogicalOperator::And, sides(e, and_plain(), false).0, sides(e, and_plain(), false).1))
    } else if find_from(e, or_plain(), 0) is Some {
        Some((LogicalOperator::Or, sides(e, or_plain(), false).0, sides(e, or_plain(), false).1))
    } else {
        None
    }
}

/// The three space-separated tokens of a terminal, if it has exactly three.
pub open spec fn tokens(e: Seq<char>) -> Option<(Seq<char>, Seq<char>, Seq<char>)> {
    match find_from(e, seq![' '], 0) {
        Some(pa) => match find_from(e, seq![' '], pa + 1) {
            Some(pb) => if find_from(e, seq![' '], pb + 1) is None {
                Some((e.subrange(0, pa), e.subrange(pa + 1, pb), e.subrange(pb + 1, e.len() as int)))
            } else {
                None
            },
            None => None,
        },
        None => None,
    }
}

/// The operator a token stands for.
pub open spec fn operator_of(t: Seq<char>) -> Option<Operator> {
    if t == seq!['e', 'q'] {
        Some(Operator::EqualTo)
    } else if t == seq!['g', 't'] {
        Some(Operator::GreaterThan)
    } else if t == seq!['l', 't'] {
        Some(Operator::LessThan)
    } else if t == seq!['g', 'e'] {
        Some(Operator::GreaterThanOrEqualTo)
    } else if t == seq!['l', 'e'] {
        Some(Operator::LessThanOrEqualTo)
    } else if t == seq!['n', 'e'] {
        Some(Operator::NotEqualTo)
    } else {
        None
    }
}

/// The fault of a terminal, if any.
pub open spec fn terminal_fault(e: Seq<char>) -> Option<(bool, Seq<char>)> {
    match tokens(e) {
        None => Some((true, e)),
        Some((_, op, _)) => if operator_of(op) is None {
            Some((false, op))
        } else {
            None
        },
    }
}

/// `c` is the single command that the terminal `e` denotes.
pub open spec fn terminal_denotes(e: Seq<char>, c: Command) -> bool {
    match tokens(e) {
        None => false,
        Some((a, op, lit)) => match c {
            Command::SingleCommand(sc) => sc.attribute@ == a && operator_of(op) == Some(sc.operator)
                && sc.value.value@ == lit && sc.value.data_type == literal_type(lit),
            _ => false,
        },
    }
}

/// The first fault met when parsing `e`, the left side before the right.
pub open spec fn parse_fault(e: Seq<char>) -> Option<(bool, Seq<char>)>
    decreases e.len(),
{
    match decide(e) {
        Some((_, l, r)) => if l.len() + r.len() < e.len() {
            match parse_fault(l) {
                Some(f) => Some(f),
                None => parse_fault(r),
            }
        } else {
            None
        },
        None => terminal_fault(e),
    }
}

/// `c` is the command tree that `e` parses into.
pub open spec fn denotes(e: Seq<char>, c: Command) -> bool
    decreases e.len(),
{
    match decide(e) {
        Some((op, l, r)) => if l.len() + r.len() < e.len() {
            match c {
                Command::CompositeCommand(cc) => cc.logical_operator == op && cc.commands.len() == 2
                    && denotes(l, cc.commands@[0]) && denotes(r, cc.commands@[1]),
                _ => false,
            }
        } else {
            false
        },
        None => terminal_denotes(e, c),
    }
}

/// What parsing `e` returns: the command it denotes, or its first fault.
pub open spec fn parse_outcome(e: Seq<char>, r: Result<Command, ParseError>) -> bool {
    match r {
        Ok(c) => parse_fault(e) is None && denotes(e, c),
        Err(err) => parse_fault(e) == Some(fault_of(err)),
    }
}

/// The two sides of a split are together shorter than the expression.
pub proof fn lemma_decide_shrinks(e: Seq<char>)
    ensures
        decide(e) matches Some((_, l, r)) ==> l.len() + r.len() < e.len(),
{
    crate::text::lemma_find_from(e, and_group(), 0);
    crate::text::lemma_find_from(e, or_group(), 0);
    crate::text::lemma_find_from(e, and_plain(), 0);
    crate::text::lemma_find_from(e, or_plain(), 0);
}

fn split_sides(e: &Vec<char>, pat: &Vec<char>, p: usize, grouped: bool) -> (r: (Vec<char>, Vec<char>))
    requires
        find_from(e@, pat@, 0) == Some(p as int),
        p + pat.len() <= e.len(),
    ensures
        r.0@ == sides(e@, pat@, grouped).0,
        r.1@ == sides(e@, pat@, grouped).1,
{
    let lo: usize = if p > 0 && e[0] == '(' { 1 } else { 0 };
    let left = slice_chars(e, lo, p);
    let start = p + pat.len();
    let hi: usize = if grouped && start < e.len() && e[e.len() - 1] == ')' {
        e.len() - 1
    } else {
        e.len()
    };
    let right = slice_chars(e, start, hi);
    assert(left@ =~= sides(e@, pat@, grouped).0);
    assert(right@ =~= sides(e@, pat@, grouped).1);
    (left, right)
}

fn decide_exec(e: &Vec<char>) -> (r: Option<(LogicalOperator, Vec<char>, Vec<char>)>)
    ensures
        match r {
            Some((op, l, rt)) => decide(e@) == Some((op, l@, rt@)),
            None => decide(e@) is None,
        },
{
    let and_g = vec![')', ' ', 'A', 'N', 'D', ' ', '('];
    let or_g = vec![')', ' ', 'O', 'R', ' ', '('];
    let and_p = vec![' ', 'A', 'N', 'D', ' '];
    let or_p = vec![' ', 'O', 'R', ' '];
    assert(and_g@ =~= and_group());
    assert(or_g@ =~= or_group());
    assert(and_p@ =~= and_plain());
    assert(or_p@ =~= or_plain());
    if let Some(p) = find_pattern(e, &and_g, 0) {
        let (l, r) = split_sides(e, &and_g, p, true);
        return Some((LogicalOperator::And, l, r));
    }
    if let Some(p) = find_pattern(e, &or_g, 0) {
        let (l, r) = split_sides(e, &or_g, p, true);
        return Some((LogicalOperator::Or, l, r));
    }
    if let Some(p) = find_pattern(e, &and_p, 0) {
        let (l, r) = split_sides(e, &and_p, p, false);
        return Some((LogicalOperator::And, l, r));
    }
    if let Some(p) = find_pattern(e, &or_p, 0) {
        let (l, r) = split_sides(e, &or_p, p, false);
        return Some((LogicalOperator::Or, l, r));
    }
    None
}

fn operator_exec(t: &Vec<char>) -> (r: Option<Operator>)
    ensures
        r == operator_of(t@),
{
    if t.len() != 2 {
        return None;
    }
    let a = t[0];
    let b = t[1];
    let r = if a == 'e' && b == 'q' {
        Some(Operator::EqualTo)
    } else if a == 'g' && b == 't' {
        Some(Operator::GreaterThan)
    } else if a == 'l' && b == 't' {
        Some(Operator::LessThan)
    } else if a == 'g' && b == 'e' {
        Some(Operator::GreaterThanOrEqualTo)
    } else if a == 'l' && b == 'e' {
        Some(Operator::LessThanOrEqualTo)
    } else if a == 'n' && b == 'e' {
        Some(Operator::NotEqualTo)
    } else {
        None
    };
    assert(t@ =~= seq![a, b]);
    r
}

/// Parses a terminal `attribute operator literal`.
pub fn terminal_expression_to_simple_command(expression: String) -> (r: Result<Command, ParseError>)
    ensures
        match r {
            Ok(c) => terminal_fault(expression@) is None && terminal_denotes(expression@, c),
            Err(err) => terminal_fault(expression@) == Some(fault_of(err)),
        },
{
    let e = chars_of(expression.as_str());
    let space = vec![' '];
    assert(space@ =~= seq![' ']);
    let pa = match find_pattern(&e, &space, 0) {
        Some(p) => p,
        None => return Err(ParseError::MalformedTerminal(expression)),
    };
    let pb = match find_pattern(&e, &space, pa + 1) {
        Some(p) => p,
        None => return Err(ParseError::MalformedTerminal(expression)),
    };
    if find_pattern(&e, &space, pb + 1).is_some() {
        return Err(ParseError::MalformedTerminal(expression));
    }
    let attribute = slice_chars(&e, 0, pa);
    let op = slice_chars(&e, pa + 1, pb);
    let literal = slice_chars(&e, pb + 1, e.len());
    let operator = match operator_exec(&op) {
        Some(o) => o,
        None => return Err(ParseError::UnknownOperator(string_of(op.as_slice()))),
    };
    let value = string_of(literal.as_slice());
    let data_type = type_literal(&value);
    Ok(
        Command::SingleCommand(
            SingleCommand::new(string_of(attribute.as_slice()), operator, Value::new(value, data_type)),
        ),
    )
}

/// Parses both sides and joins them under `operation`.
pub fn compound_expression_to_composite_command(
    operation: LogicalOperator,
    left_expression: String,
    right_expression: String,
) -> (r: Result<Command, ParseError>)
    ensures
        match r {
            Ok(c) => parse_fault(left_expression@) is None && parse_fault(right_expression@) is None
                && match c {
                Command::CompositeCommand(cc) => cc.logical_operator == operation
                    && cc.commands.len() == 2 && denotes(left_expression@, cc.commands@[0])
                    && denotes(right_expression@, cc.commands@[1]),
                _ => false,
            },
            Err(err) => Some(fault_of(err)) == match parse_fault(left_expression@) {
                Some(f) => Some(f),
                None => parse_fault(right_expression@),
            },
        },
    decreases left_expression@.len() + right_expression@.len(), 2int,
{
    let left = parse(left_expression)?;
    let right = parse(right_expression)?;
    let mut commands: Vec<Command> = Vec::new();
    commands.push(left);
    commands.push(right);
    Ok(Command::CompositeCommand(CompositeCommand::new(operation, commands)))
}

/// Parses a filter expression into a command tree.
pub fn parse(expression: String) -> (r: Result<Command, ParseError>)
    ensures
        parse_outcome(expression@, r),
    decreases expression@.len(), 1int,
{
    let e = chars_of(expression.as_str());
    proof {
        lemma_decide_shrinks(e@);
    }
    match decide_exec(&e) {
        Some((op, l, r)) => {
            let left = string_of(l.as_slice());
            let right = string_of(r.as_slice());
            compound_expression_to_composite_command(op, left, right)
        },
        None => terminal_expression_to_simple_command(expression),
    }
}

/// A fragment of a filter expression that interprets to a command.
pub trait Expression {
    fn interpret(&self) -> Result<Command, ParseError>;
}

/// Two expressions joined by `AND`.
pub struct AndExpression {
    pub left_expression: String,
    pub right_expression: String,
}

/// Two expressions joined by `OR`.
pub struct OrExpression {
    pub left_expression: String,
    pub right_expression: String,
}

/// A terminal `attribute operator literal`.
pub struct TerminalExpression {
    pub expression: String,
}

impl AndExpression {
    pub fn new(left_expression: String, right_expression: String) -> (r: Self)
        ensures
            r.left_expression@ == left_expression@,
            r.right_expression@ == right_expression@,
    {
        AndExpression { left_expression, right_expression }
    }
}

impl OrExpression {
    pub fn new(left_expression: String, right_expression: String) -> (r: Self)
        ensures
            r.left_expression@ == left_expression@,
            r.right_expression@ == right_expression@,
    {
        OrExpression { left_expression, right_expression }
    }
}

impl TerminalExpression {
    pub fn new(expression: String) -> (r: Self)
        ensures
            r.expression@ == expression@,
    {
        TerminalExpression { expression }
    }
}

impl Expression for AndExpression {
    fn interpret(&self) -> Result<Command, ParseError> {
        compound_expression_to_composite_command(
            LogicalOperator::And,
            self.left_expression.clone(),
            self.right_expression.clone(),
        )
    }
}

impl Expression for OrExpression {
    fn interpret(&self) -> Result<Command, ParseError> {
        compound_expression_to_composite_command(
            LogicalOperator::Or,
            self.left_expression.clone(),
            self.right_expression.clone(),
        )
    }
}

impl Expression for TerminalExpression {
    fn interpret(&self) -> Result<Command, ParseError> {
        terminal_expression_to_simple_command(self.expression.clone())
    }
}

/// A parsed command is well formed.
pub proof fn lemma_denotes_well_formed(e: Seq<char>, c: Command)
    requires
        denotes(e, c),
    ensures
        crate::command::well_formed(c),
    decreases e.len(),
{
    match decide(e) {
        Some((op, l, r)) => {
            let cc = c->CompositeCommand_0;
            lemma_denotes_well_formed(l, cc.commands@[0]);
            lemma_denotes_well_formed(r, cc.commands@[1]);
            crate::command::lemma_all_well_formed(cc.commands@);
        },
        None => {},
    }
}

} // verus!

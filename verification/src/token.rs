//! Tokens, as the scanner hands them over, and what they say.

use vstd::prelude::*;

verus! {

/// One token of a program. Every token carries the row and the column at
/// which it stood in the source; they serve diagnostics only.
#[derive(Debug, PartialEq, Eq)]
pub enum Token {
    /// An integer literal, as written.
    Number(String, usize, usize),
    /// A variable name.
    Identifier(String, usize, usize),
    /// The body of a conditional, already grouped into one token.
    Block(Vec<Token>, usize, usize),
    Plus(usize, usize),
    Minus(usize, usize),
    Mult(usize, usize),
    Div(usize, usize),
    Pow(usize, usize),
    Assign(usize, usize),
    Greater(usize, usize),
    Less(usize, usize),
    Equal(usize, usize),
    If(usize, usize),
    Print(usize, usize),
    /// A lexeme that the scanner could not read.
    Invalid(String, usize, usize),
    /// A lexeme that the scanner read and evaluation has no rule for.
    Other(String, usize, usize),
}

/// What a token says: its kind, with each text as a sequence of characters
/// and a block as the sequence of what its tokens say. Positions are kept
/// only where a failure reports them.
pub enum Instr {
    Number(Seq<char>),
    Identifier(Seq<char>),
    Block(Seq<Instr>),
    Plus,
    Minus,
    Mult,
    Div,
    Pow,
    Assign,
    Greater,
    Less,
    Equal,
    If,
    Print,
    Invalid(Seq<char>, int, int),
    Other(Seq<char>, int, int),
}

impl View for Token {
    type V = Instr;

    open spec fn view(&self) -> Instr
        decreases self,
    {
        match self {
            Token::Number(text, _, _) => Instr::Number(text@),
            Token::Identifier(name, _, _) => Instr::Identifier(name@),
            Token::Block(body, _, _) => Instr::Block(program(body@)),
            Token::Plus(_, _) => Instr::Plus,
            Token::Minus(_, _) => Instr::Minus,
            Token::Mult(_, _) => Instr::Mult,
            Token::Div(_, _) => Instr::Div,
            Token::Pow(_, _) => Instr::Pow,
            Token::Assign(_, _) => Instr::Assign,
            Token::Greater(_, _) => Instr::Greater,
            Token::Less(_, _) => Instr::Less,
            Token::Equal(_, _) => Instr::Equal,
            Token::If(_, _) => Instr::If,
            Token::Print(_, _) => Instr::Print,
            Token::Invalid(text, row, column) => Instr::Invalid(text@, *row as int, *column as int),
            Token::Other(text, row, column) => Instr::Other(text@, *row as int, *column as int),
        }
    }
}

/// What a sequence of tokens says, token by token.
pub open spec fn program(tokens: Seq<Token>) -> Seq<Instr>
    decreases tokens,
{
    if tokens.len() == 0 {
        Seq::empty()
    } else {
        program(tokens.drop_last()).push(tokens.last()@)
    }
}

/// How deep blocks nest inside an instruction: a block counts one more than
/// its body, everything else counts nothing.
pub open spec fn nesting_of(instr: Instr) -> nat
    decreases instr,
{
    match instr {
        Instr::Block(body) => 1 + nesting(body),
        _ => 0,
    }
}

/// How deep blocks nest inside a program: the deepest of its instructions.
pub open spec fn nesting(instrs: Seq<Instr>) -> nat
    decreases instrs,
{
    if instrs.len() == 0 {
        0
    } else {
        let before = nesting(instrs.drop_last());
        let last = nesting_of(instrs.last());
        if before >= last {
            before
        } else {
            last
        }
    }
}

/// A program says as many instructions as it has tokens, each what its token
/// says.
pub proof fn lemma_program_index(tokens: Seq<Token>)
    ensures
        program(tokens).len() == tokens.len(),
        forall|i: int| 0 <= i < tokens.len() ==> (#[trigger] program(tokens)[i]) == tokens[i]@,
    decreases tokens.len(),
{
    if tokens.len() > 0 {
        let before = tokens.drop_last();
        lemma_program_index(before);
        assert(program(tokens) == program(before).push(tokens.last()@));
        assert forall|i: int| 0 <= i < tokens.len() implies (#[trigger] program(tokens)[i])
            == tokens[i]@ by {
            if i < before.len() {
                assert(program(before)[i] == before[i]@);
                assert(before[i] == tokens[i]);
            }
        }
    }
}

/// No instruction of a program nests deeper than the program, and neither
/// does any of its prefixes.
pub proof fn lemma_nesting_bounds(instrs: Seq<Instr>)
    ensures
        forall|i: int| 0 <= i < instrs.len() ==> nesting_of(#[trigger] instrs[i]) <= nesting(instrs),
        forall|n: int| 0 <= n <= instrs.len() ==> nesting(#[trigger] instrs.take(n)) <= nesting(instrs),
    decreases instrs.len(),
{
    if instrs.len() > 0 {
        let before = instrs.drop_last();
        lemma_nesting_bounds(before);
        assert forall|i: int| 0 <= i < instrs.len() implies nesting_of(#[trigger] instrs[i])
            <= nesting(instrs) by {
            if i < before.len() {
                assert(before[i] == instrs[i]);
            }
        }
        assert forall|n: int| 0 <= n <= instrs.len() implies nesting(#[trigger] instrs.take(n))
            <= nesting(instrs) by {
            if n < instrs.len() {
                assert(instrs.take(n) =~= before.take(n));
            } else {
                assert(instrs.take(n) =~= instrs);
            }
        }
    } else {
        assert forall|n: int| 0 <= n <= instrs.len() implies nesting(#[trigger] instrs.take(n))
            <= nesting(instrs) by {
            assert(instrs.take(n) =~= instrs);
        }
    }
}

} // verus!

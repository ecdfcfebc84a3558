use crate::bytes::{append_bytes, le_bytes, pad_len, push_le_bytes, push_zeros, repeat, zeros};
use crate::symbols::resolve_all;
use crate::text::str_eq;
use crate::token::{tokens_view, Op, Token, TokenV};
use vstd::prelude::*;

verus! {

/// The magic number that prefixes the output unless switched off.
pub const MAGIC: u32 = 0xC091FA2B;

/// Why a token sequence does not compile.
#[derive(Debug, Clone, Copy, PartialEq, Eq, Structural)]
pub enum CompileError {
    /// `block` while a block is open.
    NestedBlock,
    MissingBlockName,
    /// `endblock` with no open block.
    EndBlockOutsideBlock,
    /// `rept` while a repeated region is open.
    NestedRept,
    MissingReptCount,
    /// `endrept` with no open repeated region.
    EndReptOutsideRept,
    /// The tokens end inside a repeated region.
    UnclosedRept,
    /// A field width that is not a multiple of 8 in 8..=64.
    InvalidWidth,
    MissingFieldName,
    MissingAssign,
    MissingValue,
    MissingOperator,
    MissingCloseBracket,
    MissingTerminator,
    DivisionByZero,
    Underflow,
    Overflow,
    MissingAlignWidth,
    ZeroAlign,
    UnknownCommand,
    /// A reference to a field that no earlier declaration resolved.
    UnresolvedReference,
    /// A token that cannot begin a statement.
    UnexpectedToken,
}

/// The token sequence, a cursor into it, and whether the output gets the magic prefix.
#[derive(Debug)]
pub struct Program {
    pub index: usize,
    pub list: Vec<Token>,
    pub magic: bool,
}

/// The state of the compiling pass.
pub struct PassState {
    pub index: int,
    pub toks: Seq<TokenV>,
    pub magic: bool,
    /// The name of the open block.
    pub block: Option<Seq<char>>,
    /// In a repeated region: its count, and the output set aside before it.
    pub rept: Option<(nat, Seq<u8>)>,
    /// The current output buffer.
    pub out: Seq<u8>,
}

pub open spec fn tok_at(toks: Seq<TokenV>, k: int) -> Option<TokenV> {
    if 0 <= k < toks.len() {
        Some(toks[k])
    } else {
        None
    }
}

/// A number operand: a literal, else an unresolved reference, else missing.
pub open spec fn operand(t: Option<TokenV>, missing: CompileError) -> Result<usize, CompileError> {
    match t {
        Some(TokenV::Value(v)) => Ok(v),
        Some(TokenV::PathSubst(_, _)) => Err(CompileError::UnresolvedReference),
        _ => Err(missing),
    }
}

/// Unsigned arithmetic that fails rather than wrap or divide by zero.
pub open spec fn apply_op(op: Op, a: usize, b: usize) -> Result<usize, CompileError> {
    match op {
        Op::Add => if a + b <= usize::MAX {
            Ok((a + b) as usize)
        } else {
            Err(CompileError::Overflow)
        },
        Op::Sub => if a >= b {
            Ok((a - b) as usize)
        } else {
            Err(CompileError::Underflow)
        },
        Op::Mul => if a * b <= usize::MAX {
            Ok((a * b) as usize)
        } else {
            Err(CompileError::Overflow)
        },
        Op::Div => if b == 0 {
            Err(CompileError::DivisionByZero)
        } else {
            Ok((a / b) as usize)
        },
    }
}

/// The value expression that starts at `k`: a literal or `[ lhs op rhs ]`.
/// Gives its value and the position of its last token.
pub open spec fn value_expr(toks: Seq<TokenV>, k: int) -> Result<(usize, int), CompileError> {
    match tok_at(toks, k) {
        Some(TokenV::BracketOpen) => match operand(tok_at(toks, k + 1), CompileError::MissingValue) {
            Err(e) => Err(e),
            Ok(lhs) => match tok_at(toks, k + 2) {
                Some(TokenV::Operation(op)) => match operand(
                    tok_at(toks, k + 3),
                    CompileError::MissingValue,
                ) {
                    Err(e) => Err(e),
                    Ok(rhs) => match apply_op(op, lhs, rhs) {
                        Err(e) => Err(e),
                        Ok(v) => if tok_at(toks, k + 4) == Some(TokenV::BracketClose) {
                            Ok((v, k + 4))
                        } else {
                            Err(CompileError::MissingCloseBracket)
                        },
                    },
                },
                _ => Err(CompileError::MissingOperator),
            },
        },
        t => match operand(t, CompileError::MissingValue) {
            Err(e) => Err(e),
            Ok(v) => Ok((v, k)),
        },
    }
}

pub open spec fn valid_width(w: u8) -> bool {
    w % 8 == 0 && 8 <= w <= 64
}

/// A field declaration `int<w> name : expr ;` at the cursor. Outside a block
/// it is written out all the same, and nothing can refer to it.
pub open spec fn field_step(s: PassState, w: u8) -> Result<PassState, CompileError> {
    if !valid_width(w) {
        Err(CompileError::InvalidWidth)
    } else {
        match tok_at(s.toks, s.index + 1) {
            Some(TokenV::Label(_)) => if tok_at(s.toks, s.index + 2) != Some(TokenV::Assign) {
                Err(CompileError::MissingAssign)
            } else {
                match value_expr(s.toks, s.index + 3) {
                    Err(e) => Err(e),
                    Ok((v, last)) => if tok_at(s.toks, last + 1) != Some(TokenV::EndLn) {
                        Err(CompileError::MissingTerminator)
                    } else {
                        Ok(
                            PassState {
                                index: last + 2,
                                out: s.out + le_bytes(v as nat, (w / 8) as nat),
                                ..s
                            },
                        )
                    },
                }
            },
            _ => Err(CompileError::MissingFieldName),
        }
    }
}

/// A `!` directive at the cursor.
pub open spec fn command_step(s: PassState, c: Seq<char>) -> Result<PassState, CompileError> {
    if c == "align"@ {
        match operand(tok_at(s.toks, s.index + 1), CompileError::MissingAlignWidth) {
            Err(e) => Err(e),
            Ok(a) => if a == 0 {
                Err(CompileError::ZeroAlign)
            } else {
                Ok(
                    PassState {
                        index: s.index + 2,
                        out: s.out + zeros(pad_len(s.out.len(), a as nat)),
                        ..s
                    },
                )
            },
        }
    } else if c == "magic"@ {
        Ok(PassState { index: s.index + 1, magic: true, ..s })
    } else if c == "nomagic"@ {
        Ok(PassState { index: s.index + 1, magic: false, ..s })
    } else {
        Err(CompileError::UnknownCommand)
    }
}

/// One statement of the pass, from the token at the cursor.
pub open spec fn step(s: PassState) -> Result<PassState, CompileError> {
    match tok_at(s.toks, s.index) {
        Some(TokenV::BlockStart) => if s.block is Some {
            Err(CompileError::NestedBlock)
        } else {
            match tok_at(s.toks, s.index + 1) {
                Some(TokenV::Label(n)) => Ok(PassState { index: s.index + 2, block: Some(n), ..s }),
                _ => Err(CompileError::MissingBlockName),
            }
        },
        Some(TokenV::BlockEnd) => if s.block is None {
            Err(CompileError::EndBlockOutsideBlock)
        } else {
            Ok(PassState { index: s.index + 1, block: None, ..s })
        },
        Some(TokenV::ReptStart) => if s.rept is Some {
            Err(CompileError::NestedRept)
        } else {
            match operand(tok_at(s.toks, s.index + 1), CompileError::MissingReptCount) {
                Err(e) => Err(e),
                Ok(n) => Ok(
                    PassState {
                        index: s.index + 2,
                        rept: Some((n as nat, s.out)),
                        out: Seq::empty(),
                        ..s
                    },
                ),
            }
        },
        Some(TokenV::ReptEnd) => match s.rept {
            None => Err(CompileError::EndReptOutsideRept),
            Some((n, saved)) => Ok(
                PassState { index: s.index + 1, rept: None, out: saved + repeat(s.out, n), ..s },
            ),
        },
        Some(TokenV::Integer(w)) => field_step(s, w),
        Some(TokenV::Command(c)) => command_step(s, c),
        Some(TokenV::PathSubst(_, _)) => Err(CompileError::UnresolvedReference),
        _ => Err(CompileError::UnexpectedToken),
    }
}

/// Every statement moves the cursor forward and keeps the number of tokens.
pub proof fn lemma_step_progress(s: PassState)
    requires
        0 <= s.index < s.toks.len(),
        step(s) is Ok,
    ensures
        step(s)->Ok_0.index > s.index,
        step(s)->Ok_0.toks.len() == s.toks.len(),
{
}

/// The pass from `s` to the end of the tokens.
pub open spec fn run(s: PassState) -> Result<PassState, CompileError>
    decreases s.toks.len() - s.index,
    via run_decreases
{
    if s.index < 0 || s.index >= s.toks.len() {
        Ok(s)
    } else {
        match step(s) {
            Err(e) => Err(e),
            Ok(t) => run(t),
        }
    }
}

#[via_fn]
proof fn run_decreases(s: PassState) {
    if 0 <= s.index < s.toks.len() && step(s) is Ok {
        lemma_step_progress(s);
    }
}

/// The four bytes of the magic number, least significant first.
pub open spec fn magic_bytes() -> Seq<u8> {
    le_bytes(MAGIC as nat, 4)
}

/// The bytes of a finished pass.
pub open spec fn finish(s: PassState) -> Result<Seq<u8>, CompileError> {
    if s.rept is Some {
        Err(CompileError::UnclosedRept)
    } else if s.magic {
        Ok(magic_bytes() + s.out)
    } else {
        Ok(s.out)
    }
}

pub open spec fn start(toks: Seq<TokenV>, index: int, magic: bool) -> PassState {
    PassState { index, toks, magic, block: None, rept: None, out: Seq::empty() }
}

/// The bytes that the tokens compile to, from the cursor `index` on, once
/// every reference that names a declared field holds that field's value.
pub open spec fn compile(toks: Seq<TokenV>, index: int, magic: bool) -> Result<Seq<u8>, CompileError> {
    match run(start(resolve_all(toks), index, magic)) {
        Err(e) => Err(e),
        Ok(f) => finish(f),
    }
}

/// The directives that `!` introduces.
enum Directive {
    Align,
    Magic,
    NoMagic,
    Unknown,
}

/// The mutable state of the pass besides the program itself.
struct Pass {
    block: Option<String>,
    rept: Option<usize>,
    saved: Vec<u8>,
    out: Vec<u8>,
}

spec fn state_of(p: Program, pass: Pass) -> PassState {
    PassState {
        index: p.index as int,
        toks: tokens_view(p.list@),
        magic: p.magic,
        block: match pass.block {
            Some(b) => Some(b@),
            None => None,
        },
        rept: match pass.rept {
            Some(n) => Some((n as nat, pass.saved@)),
            None => None,
        },
        out: pass.out@,
    }
}

impl Program {
    /// An empty program at its first token, with the magic prefix on.
    pub fn new() -> (r: Self)
        ensures
            r.index == 0,
            r.list@.len() == 0,
            r.magic,
    {
        Program { index: 0, list: Vec::new(), magic: true }
    }

    /// The token at `i + off`, if there is one.
    pub(crate) fn peek(&self, i: usize, off: usize) -> (r: Option<&Token>)
        ensures
            match r {
                Some(t) => tok_at(tokens_view(self.list@), i + off) == Some(t@),
                None => tok_at(tokens_view(self.list@), i + off) is None,
            },
    {
        if off < self.list.len() && i < self.list.len() - off {
            Some(&self.list[i + off])
        } else {
            None
        }
    }

    fn operand_at(&self, i: usize, off: usize, missing: CompileError) -> (r: Result<
        usize,
        CompileError,
    >)
        ensures
            r == operand(tok_at(tokens_view(self.list@), i + off), missing),
    {
        match self.peek(i, off) {
            Some(Token::Value(v)) => Ok(*v),
            Some(Token::PathSubst(_, _)) => Err(CompileError::UnresolvedReference),
            _ => Err(missing),
        }
    }

    /// The value expression that starts at `i + 3`.
    pub(crate) fn value_at(&self, i: usize) -> (r: Result<(usize, usize), CompileError>)
        requires
            self.list@.len() <= usize::MAX,
        ensures
            match r {
                Ok((v, last)) => value_expr(tokens_view(self.list@), i + 3) == Ok::<
                    (usize, int),
                    CompileError,
                >((v, last as int)) && last < self.list@.len(),
                Err(e) => value_expr(tokens_view(self.list@), i + 3) == Err::<
                    (usize, int),
                    CompileError,
                >(e),
            },
    {
        let is_bracket = match self.peek(i, 3) {
            Some(Token::BracketOpen) => true,
            _ => false,
        };
        if !is_bracket {
            return match self.operand_at(i, 3, CompileError::MissingValue) {
                Ok(v) => Ok((v, i + 3)),
                Err(e) => Err(e),
            };
        }
        let lhs = self.operand_at(i, 4, CompileError::MissingValue)?;
        let op = match self.peek(i, 5) {
            Some(Token::Operation(op)) => *op,
            _ => return Err(CompileError::MissingOperator),
        };
        let rhs = self.operand_at(i, 6, CompileError::MissingValue)?;
        let v = match op {
            Op::Add => match lhs.checked_add(rhs) {
                Some(v) => v,
                None => return Err(CompileError::Overflow),
            },
            Op::Sub => if lhs >= rhs {
                lhs - rhs
            } else {
                return Err(CompileError::Underflow);
            },
            Op::Mul => match lhs.checked_mul(rhs) {
                Some(v) => v,
                None => return Err(CompileError::Overflow),
            },
            Op::Div => if rhs == 0 {
                return Err(CompileError::DivisionByZero);
            } else {
                lhs / rhs
            },
        };
        match self.peek(i, 7) {
            Some(Token::BracketClose) => {
                assert(i + 7 < self.list@.len());
                Ok((v, i + 7))
            },
            _ => Err(CompileError::MissingCloseBracket),
        }
    }

    /// A field declaration at the cursor, of width `w`.
    fn field(&mut self, pass: &mut Pass, w: u8) -> (r: Result<(), CompileError>)
        requires
            old(self).list@.len() <= usize::MAX,
        ensures
            match field_step(state_of(*old(self), *old(pass)), w) {
                Ok(t) => r is Ok && state_of(*final(self), *final(pass)) == t,
                Err(e) => r == Err::<(), CompileError>(e),
            },
    {
        if !(w % 8 == 0 && 8 <= w && w <= 64) {
            return Err(CompileError::InvalidWidth);
        }
        let i = self.index;
        let has_name = match self.peek(i, 1) {
            Some(Token::Label(_)) => true,
            _ => false,
        };
        if !has_name {
            return Err(CompileError::MissingFieldName);
        }
        let is_assign = match self.peek(i, 2) {
            Some(Token::Assign) => true,
            _ => false,
        };
        if !is_assign {
            return Err(CompileError::MissingAssign);
        }
        let (v, last) = match self.value_at(i) {
            Ok(p) => p,
            Err(e) => return Err(e),
        };
        let is_end = match self.peek(last, 1) {
            Some(Token::EndLn) => true,
            _ => false,
        };
        if !is_end {
            return Err(CompileError::MissingTerminator);
        }
        push_le_bytes(&mut pass.out, v as u64, (w / 8) as usize);
        self.index = last + 2;
        Ok(())
    }

    /// A `!` directive at the cursor.
    fn command(&mut self, pass: &mut Pass, d: Directive) -> (r: Result<(), CompileError>)
        requires
            old(self).list@.len() <= usize::MAX,
            old(self).index < old(self).list@.len(),
            old(self).list@[old(self).index as int]@ matches TokenV::Command(c) && match d {
                Directive::Align => c == "align"@,
                Directive::Magic => c != "align"@ && c == "magic"@,
                Directive::NoMagic => c != "align"@ && c != "magic"@ && c == "nomagic"@,
                Directive::Unknown => c != "align"@ && c != "magic"@ && c != "nomagic"@,
            },
        ensures
            match step(state_of(*old(self), *old(pass))) {
                Ok(t) => r is Ok && state_of(*final(self), *final(pass)) == t,
                Err(e) => r == Err::<(), CompileError>(e),
            },
    {
        let i = self.index;
        match d {
            Directive::Align => {
                let a = match self.operand_at(i, 1, CompileError::MissingAlignWidth) {
                    Ok(a) => a,
                    Err(e) => return Err(e),
                };
                if a == 0 {
                    return Err(CompileError::ZeroAlign);
                }
                let pad = (a - pass.out.len() % a) % a;
                push_zeros(&mut pass.out, pad);
                self.index = i + 2;
                Ok(())
            },
            Directive::Magic => {
                self.magic = true;
                self.index = i + 1;
                Ok(())
            },
            Directive::NoMagic => {
                self.magic = false;
                self.index = i + 1;
                Ok(())
            },
            Directive::Unknown => Err(CompileError::UnknownCommand),
        }
    }

    /// The end of a repeated region at the cursor.
    fn rept_end(&mut self, pass: &mut Pass) -> (r: Result<(), CompileError>)
        requires
            old(self).list@.len() <= usize::MAX,
            old(self).index < old(self).list@.len(),
            old(self).list@[old(self).index as int]@ == TokenV::ReptEnd,
        ensures
            match step(state_of(*old(self), *old(pass))) {
                Ok(t) => r is Ok && state_of(*final(self), *final(pass)) == t,
                Err(e) => r == Err::<(), CompileError>(e),
            },
    {
        let count = match pass.rept {
            Some(c) => c,
            None => return Err(CompileError::EndReptOutsideRept),
        };
        let mut buf: Vec<u8> = Vec::new();
        append_bytes(&mut buf, &pass.saved);
        let mut j: usize = 0;
        while j < count
            invariant
                j <= count,
                buf@ == pass.saved@ + repeat(pass.out@, j as nat),
            decreases count - j,
        {
            append_bytes(&mut buf, &pass.out);
            j = j + 1;
            assert(buf@ =~= pass.saved@ + repeat(pass.out@, j as nat));
        }
        pass.out = buf;
        pass.saved = Vec::new();
        pass.rept = None;
        self.index = self.index + 1;
        Ok(())
    }

    /// One statement of the pass, from the token at the cursor.
    fn step_exec(&mut self, pass: &mut Pass) -> (r: Result<(), CompileError>)
        requires
            old(self).list@.len() <= usize::MAX,
            old(self).index < old(self).list@.len(),
        ensures
            match step(state_of(*old(self), *old(pass))) {
                Ok(t) => r is Ok && state_of(*final(self), *final(pass)) == t,
                Err(e) => r == Err::<(), CompileError>(e),
            },
    {
        let i = self.index;
        match &self.list[i] {
            Token::BlockStart => {
                if pass.block.is_some() {
                    return Err(CompileError::NestedBlock);
                }
                let name = match self.peek(i, 1) {
                    Some(Token::Label(nm)) => nm.clone(),
                    _ => return Err(CompileError::MissingBlockName),
                };
                pass.block = Some(name);
                self.index = i + 2;
                Ok(())
            },
            Token::BlockEnd => {
                if pass.block.is_none() {
                    return Err(CompileError::EndBlockOutsideBlock);
                }
                pass.block = None;
                self.index = i + 1;
                Ok(())
            },
            Token::ReptStart => {
                if pass.rept.is_some() {
                    return Err(CompileError::NestedRept);
                }
                let count = match self.operand_at(i, 1, CompileError::MissingReptCount) {
                    Ok(c) => c,
                    Err(e) => return Err(e),
                };
                pass.saved = Vec::new();
                pass.saved.append(&mut pass.out);
                pass.rept = Some(count);
                self.index = i + 2;
                Ok(())
            },
            Token::ReptEnd => self.rept_end(pass),
            Token::Integer(w) => {
                let w = *w;
                self.field(pass, w)
            },
            Token::Command(c) => {
                let d = if str_eq(c.as_str(), "align") {
                    Directive::Align
                } else if str_eq(c.as_str(), "magic") {
                    Directive::Magic
                } else if str_eq(c.as_str(), "nomagic") {
                    Directive::NoMagic
                } else {
                    Directive::Unknown
                };
                self.command(pass, d)
            },
            Token::PathSubst(_, _) => Err(CompileError::UnresolvedReference),
            _ => Err(CompileError::UnexpectedToken),
        }
    }

    /// Compiles the tokens from the cursor on into bytes: the magic prefix
    /// when it is on at the end, then every field, padding and repeated
    /// region in source order. References are first resolved in the token
    /// list itself, whether they stand before or after their declaration;
    /// one left unresolved fails the pass.
    pub fn parse(&mut self) -> (r: Result<Vec<u8>, CompileError>)
        ensures
            match r {
                Ok(b) => compile(tokens_view(old(self).list@), old(self).index as int, old(self).magic)
                    == Ok::<Seq<u8>, CompileError>(b@),
                Err(e) => compile(tokens_view(old(self).list@), old(self).index as int, old(self).magic)
                    == Err::<Seq<u8>, CompileError>(e),
            },
            r is Ok ==> ({
                let f = run(
                    start(resolve_all(tokens_view(old(self).list@)), old(self).index as int, old(self).magic),
                )->Ok_0;
                &&& tokens_view(final(self).list@) == f.toks
                &&& final(self).index as int == f.index
                &&& final(self).magic == f.magic
            }),
    {
        self.resolve_references();
        let ghost init = start(tokens_view(self.list@), self.index as int, self.magic);
        let mut pass = Pass { block: None, rept: None, saved: Vec::new(), out: Vec::new() };
        assert(state_of(*self, pass) == init) by {
            assert(pass.out@ =~= Seq::<u8>::empty());
        }
        while self.index < self.list.len()
            invariant
                init == start(
                    resolve_all(tokens_view(old(self).list@)),
                    old(self).index as int,
                    old(self).magic,
                ),
                run(state_of(*self, pass)) == run(init),
            decreases self.list@.len() - self.index,
        {
            let ghost cur = state_of(*self, pass);
            match self.step_exec(&mut pass) {
                Ok(()) => {},
                Err(e) => {
                    assert(run(cur) == Err::<PassState, CompileError>(e));
                    return Err(e);
                },
            }
            proof {
                lemma_step_progress(cur);
            }
        }
        if pass.rept.is_some() {
            return Err(CompileError::UnclosedRept);
        }
        let mut bytes: Vec<u8> = Vec::new();
        if self.magic {
            push_le_bytes(&mut bytes, MAGIC as u64, 4);
        }
        append_bytes(&mut bytes, &pass.out);
        Ok(bytes)
    }
}

} // verus!

use crate::program::Program;
use crate::text::str_eq;
use crate::token::{tokens_view, Op, Token, TokenV};
use vstd::prelude::*;

verus! {

/// Why a source word could not be turned into tokens.
#[derive(Debug, Clone, Copy, PartialEq, Eq, Structural)]
pub enum LexError {
    /// `int` followed by something other than a width that fits in a byte.
    InvalidWidth,
    /// A number that is malformed or does not fit in a `usize`.
    InvalidLiteral,
    /// A `v$` reference without a `.` between block and field.
    MissingPathSeparator,
}

/// Whether `char::is_numeric` holds of `c`: `c` is in one of Unicode's
/// number categories.
pub uninterp spec fn numeric_char(c: char) -> bool;

/// Relies on `char::is_numeric`: its result depends on the character alone.
#[verifier::external_body]
fn is_numeric(c: char) -> (r: bool)
    ensures
        r == numeric_char(c),
{
    c.is_numeric()
}

/// Whether a word that starts with `c` is read as a decimal literal: an
/// ASCII digit, or a character outside ASCII that `char::is_numeric` holds of.
pub open spec fn starts_number(c: char) -> bool {
    if (c as u32) < 128 {
        '0' as u32 <= c as u32 <= '9' as u32
    } else {
        numeric_char(c)
    }
}

/// Whether `c` is a digit in base 10 or 16.
pub open spec fn is_digit(c: char, base: nat) -> bool {
    ('0' as u32 <= c as u32 <= '9' as u32) || (base == 16 && (('a' as u32 <= c as u32 <= 'f' as u32)
        || ('A' as u32 <= c as u32 <= 'F' as u32)))
}

/// The value of a digit character.
pub open spec fn digit_value(c: char) -> nat {
    if '0' as u32 <= c as u32 <= '9' as u32 {
        (c as u32 - '0' as u32) as nat
    } else if 'a' as u32 <= c as u32 <= 'f' as u32 {
        (c as u32 - 'a' as u32 + 10) as nat
    } else {
        (c as u32 - 'A' as u32 + 10) as nat
    }
}

pub open spec fn all_digits(s: Seq<char>, base: nat) -> bool {
    forall|i: int| 0 <= i < s.len() ==> is_digit(#[trigger] s[i], base)
}

/// The number that the digits of `s` spell in `base`.
pub open spec fn digits_value(s: Seq<char>, base: nat) -> nat
    decreases s.len(),
{
    if s.len() == 0 {
        0
    } else {
        digits_value(s.drop_last(), base) * base + digit_value(s.last())
    }
}

/// A non-empty run of digits whose value is at most `max`.
pub open spec fn parse_number(s: Seq<char>, base: nat, max: nat) -> Option<nat> {
    if s.len() > 0 && all_digits(s, base) && digits_value(s, base) <= max {
        Some(digits_value(s, base))
    } else {
        None
    }
}

/// The value of the first variable named `name`.
pub open spec fn env_lookup(env: Seq<(Seq<char>, Seq<char>)>, name: Seq<char>) -> Option<Seq<char>>
    decreases env.len(),
{
    if env.len() == 0 {
        None
    } else if env[0].0 == name {
        Some(env[0].1)
    } else {
        env_lookup(env.drop_first(), name)
    }
}

/// The position of the first `.` in `s`, or its length.
pub open spec fn dot_pos(s: Seq<char>) -> nat
    decreases s.len(),
{
    if s.len() == 0 || s[0] == '.' {
        0
    } else {
        1 + dot_pos(s.drop_first())
    }
}

/// The token that a bare word stands for, if any.
pub open spec fn classify(s: Seq<char>) -> Result<Option<TokenV>, LexError> {
    if s.len() == 0 {
        Ok(None)
    } else if s == "block"@ {
        Ok(Some(TokenV::BlockStart))
    } else if s == "endblock"@ {
        Ok(Some(TokenV::BlockEnd))
    } else if s.len() >= 3 && s[0] == 'i' && s[1] == 'n' && s[2] == 't' {
        match parse_number(s.skip(3), 10, 255) {
            Some(n) => Ok(Some(TokenV::Integer(n as u8))),
            None => Err(LexError::InvalidWidth),
        }
    } else if s[0] == '!' {
        Ok(Some(TokenV::Command(s.skip(1))))
    } else if s.len() == 1 && s[0] == ':' {
        Ok(Some(TokenV::Assign))
    } else if s.len() == 1 && s[0] == ';' {
        Ok(Some(TokenV::EndLn))
    } else if s.len() >= 2 && s[0] == '0' && s[1] == 'x' {
        match parse_number(s.skip(2), 16, usize::MAX as nat) {
            Some(n) => Ok(Some(TokenV::Value(n as usize))),
            None => Err(LexError::InvalidLiteral),
        }
    } else if starts_number(s[0]) {
        match parse_number(s, 10, usize::MAX as nat) {
            Some(n) => Ok(Some(TokenV::Value(n as usize))),
            None => Err(LexError::InvalidLiteral),
        }
    } else if s.len() == 1 && s[0] == '+' {
        Ok(Some(TokenV::Operation(Op::Add)))
    } else if s.len() == 1 && s[0] == '-' {
        Ok(Some(TokenV::Operation(Op::Sub)))
    } else if s.len() == 1 && s[0] == '*' {
        Ok(Some(TokenV::Operation(Op::Mul)))
    } else if s.len() == 1 && s[0] == '/' {
        Ok(Some(TokenV::Operation(Op::Div)))
    } else if s == "rept"@ {
        Ok(Some(TokenV::ReptStart))
    } else if s == "endrept"@ {
        Ok(Some(TokenV::ReptEnd))
    } else {
        Ok(Some(TokenV::Label(s)))
    }
}

pub open spec fn has_marker(s: Seq<char>, c: char) -> bool {
    s.len() >= 2 && s[0] == c && s[1] == '$'
}

/// The reference token of `block.field`.
pub open spec fn path_token(rest: Seq<char>) -> Result<Option<TokenV>, LexError> {
    let d = dot_pos(rest) as int;
    if d == rest.len() {
        Err(LexError::MissingPathSeparator)
    } else {
        Ok(Some(TokenV::PathSubst(rest.take(d), rest.skip(d + 1))))
    }
}

/// The text of a word after environment substitution.
pub open spec fn env_text(s: Seq<char>, env: Seq<(Seq<char>, Seq<char>)>) -> Seq<char> {
    if has_marker(s, 'e') {
        match env_lookup(env, s.skip(2)) {
            Some(v) => v,
            None => s,
        }
    } else {
        s
    }
}

pub open spec fn opt_seq(t: Option<TokenV>) -> Seq<TokenV> {
    match t {
        Some(t) => seq![t],
        None => Seq::empty(),
    }
}

/// A word split into: whether it opens with `[`, the text in between,
/// whether it ends with `]` (before any `;`), and whether it ends with `;`.
pub open spec fn word_parts(w: Seq<char>) -> (bool, Seq<char>, bool, bool) {
    let open = w.len() > 0 && w[0] == '[';
    let s1 = if open {
        w.skip(1)
    } else {
        w
    };
    let semi = s1.len() > 0 && s1.last() == ';';
    let s2 = if semi {
        s1.drop_last()
    } else {
        s1
    };
    let close = s2.len() > 0 && s2.last() == ']';
    let s3 = if close {
        s2.drop_last()
    } else {
        s2
    };
    (open, s3, close, semi)
}

/// The token of the text between a word's brackets and terminator. Text that
/// is empty only after environment substitution is an empty label.
pub open spec fn core_token(s: Seq<char>, env: Seq<(Seq<char>, Seq<char>)>) -> Result<
    Option<TokenV>,
    LexError,
> {
    if has_marker(s, 'v') {
        path_token(s.skip(2))
    } else {
        let t = env_text(s, env);
        if t.len() == 0 && s.len() > 0 {
            Ok(Some(TokenV::Label(t)))
        } else {
            classify(t)
        }
    }
}

/// The tokens of one source word: an optional leading `[`, the word's own
/// token, then a trailing `]` and a trailing `;` in that order.
pub open spec fn lex_word(w: Seq<char>, env: Seq<(Seq<char>, Seq<char>)>) -> Result<
    Seq<TokenV>,
    LexError,
> {
    let (open, s, close, semi) = word_parts(w);
    match core_token(s, env) {
        Err(e) => Err(e),
        Ok(t) => Ok(
            (if open {
                seq![TokenV::BracketOpen]
            } else {
                Seq::empty()
            }) + opt_seq(t) + (if close {
                seq![TokenV::BracketClose]
            } else {
                Seq::empty()
            }) + (if semi {
                seq![TokenV::EndLn]
            } else {
                Seq::empty()
            }),
        ),
    }
}

/// The tokens of the first `n` words, and whether a comment is open after them.
pub open spec fn lex_prefix(words: Seq<Seq<char>>, env: Seq<(Seq<char>, Seq<char>)>, n: nat) -> (
    Result<Seq<TokenV>, LexError>,
    bool,
)
    decreases n,
{
    if n == 0 || n > words.len() {
        (Ok(Seq::empty()), false)
    } else {
        let (r, com) = lex_prefix(words, env, (n - 1) as nat);
        let w = words[n - 1];
        if w == "##"@ {
            (r, !com)
        } else if com {
            (r, com)
        } else {
            match r {
                Err(e) => (Err(e), com),
                Ok(ts) => match lex_word(w, env) {
                    Err(e) => (Err(e), com),
                    Ok(t) => (Ok(ts + t), com),
                },
            }
        }
    }
}

/// The tokens of a word sequence; `##` words open and close comments.
pub open spec fn lex(words: Seq<Seq<char>>, env: Seq<(Seq<char>, Seq<char>)>) -> Result<
    Seq<TokenV>,
    LexError,
> {
    lex_prefix(words, env, words.len()).0
}

pub open spec fn words_view(words: Seq<&str>) -> Seq<Seq<char>> {
    words.map_values(|w: &str| w@)
}

pub open spec fn env_view(env: Seq<(String, String)>) -> Seq<(Seq<char>, Seq<char>)> {
    env.map_values(|p: (String, String)| (p.0@, p.1@))
}

/// A prefix of a run of digits is worth no more than the whole run.
proof fn lemma_digits_value_prefix(s: Seq<char>, base: nat, j: int)
    requires
        base >= 1,
        all_digits(s, base),
        0 <= j <= s.len(),
    ensures
        digits_value(s.take(j), base) <= digits_value(s, base),
    decreases s.len(),
{
    if j == s.len() {
        assert(s.take(j) =~= s);
    } else {
        let t = s.drop_last();
        assert(all_digits(t, base));
        lemma_digits_value_prefix(t, base, j);
        assert(t.take(j) =~= s.take(j));
        let a = digits_value(t, base);
        assert(a <= a * base + digit_value(s.last())) by (nonlinear_arith)
            requires
                base >= 1,
        ;
    }
}

fn digit_exec(c: char, base: usize) -> (r: Option<usize>)
    requires
        base == 10 || base == 16,
    ensures
        match r {
            Some(d) => is_digit(c, base as nat) && d == digit_value(c) && d < base,
            None => !is_digit(c, base as nat),
        },
{
    let u = c as u32;
    if '0' as u32 <= u && u <= '9' as u32 {
        Some((u - '0' as u32) as usize)
    } else if base == 16 && 'a' as u32 <= u && u <= 'f' as u32 {
        Some((u - 'a' as u32 + 10) as usize)
    } else if base == 16 && 'A' as u32 <= u && u <= 'F' as u32 {
        Some((u - 'A' as u32 + 10) as usize)
    } else {
        None
    }
}

/// Reads a non-empty run of digits of value at most `max`.
fn parse_number_exec(s: &str, base: usize, max: usize) -> (r: Option<usize>)
    requires
        base == 10 || base == 16,
    ensures
        match r {
            Some(v) => parse_number(s@, base as nat, max as nat) == Some(v as nat),
            None => parse_number(s@, base as nat, max as nat) is None,
        },
{
    let n = s.unicode_len();
    if n == 0 {
        return None;
    }
    let mut acc: usize = 0;
    let mut i: usize = 0;
    while i < n
        invariant
            n == s@.len(),
            i <= n,
            base == 10 || base == 16,
            acc as nat == digits_value(s@.take(i as int), base as nat),
            acc <= max,
            all_digits(s@.take(i as int), base as nat),
        decreases n - i,
    {
        let c = s.get_char(i);
        let ghost next_prefix = s@.take(i + 1);
        assert(next_prefix.drop_last() =~= s@.take(i as int));
        let d = match digit_exec(c, base) {
            Some(d) => d,
            None => {
                assert(!is_digit(s@[i as int], base as nat));
                return None;
            },
        };
        let next = match acc.checked_mul(base) {
            Some(m) => m.checked_add(d),
            None => None,
        };
        let ok = match next {
            Some(x) => x <= max,
            None => false,
        };
        if !ok {
            proof {
                if all_digits(s@, base as nat) {
                    lemma_digits_value_prefix(s@, base as nat, i + 1);
                }
            }
            return None;
        }
        acc = next.unwrap();
        i = i + 1;
        assert(all_digits(s@.take(i as int), base as nat));
    }
    assert(s@.take(n as int) =~= s@);
    Some(acc)
}

/// The position of the first variable named `name`.
fn env_find(env: &Vec<(String, String)>, name: &str) -> (r: Option<usize>)
    ensures
        match r {
            Some(k) => k < env@.len() && env_lookup(env_view(env@), name@) == Some(
                env_view(env@)[k as int].1,
            ),
            None => env_lookup(env_view(env@), name@) is None,
        },
{
    let ghost ev = env_view(env@);
    let mut k: usize = 0;
    assert(ev.skip(0) =~= ev);
    while k < env.len()
        invariant
            k <= env@.len(),
            ev == env_view(env@),
            env_lookup(ev, name@) == env_lookup(ev.skip(k as int), name@),
        decreases env@.len() - k,
    {
        assert(ev.skip(k as int).drop_first() =~= ev.skip(k + 1));
        if str_eq(env[k].0.as_str(), name) {
            return Some(k);
        }
        k = k + 1;
    }
    None
}

proof fn lemma_dot_pos_bound(s: Seq<char>)
    ensures
        dot_pos(s) <= s.len(),
    decreases s.len(),
{
    if s.len() > 0 && s[0] != '.' {
        lemma_dot_pos_bound(s.drop_first());
    }
}

/// The position of the first `.` in `s`, or its length.
fn dot_index(s: &str) -> (r: usize)
    ensures
        r as nat == dot_pos(s@),
{
    let n = s.unicode_len();
    let mut i: usize = 0;
    assert(s@.skip(0) =~= s@);
    while i < n && s.get_char(i) != '.'
        invariant
            n == s@.len(),
            i <= n,
            dot_pos(s@) == i + dot_pos(s@.skip(i as int)),
        decreases n - i,
    {
        assert(s@.skip(i as int).drop_first() =~= s@.skip(i + 1));
        i = i + 1;
    }
    i
}

/// The token that a bare word stands for, if any.
fn classify_exec(s: &str) -> (r: Result<Option<Token>, LexError>)
    ensures
        match r {
            Ok(Some(t)) => classify(s@) == Ok::<Option<TokenV>, LexError>(Some(t@)),
            Ok(None) => classify(s@) == Ok::<Option<TokenV>, LexError>(None),
            Err(e) => classify(s@) == Err::<Option<TokenV>, LexError>(e),
        },
{
    let n = s.unicode_len();
    if n == 0 {
        return Ok(None);
    }
    let c0 = s.get_char(0);
    if str_eq(s, "block") {
        Ok(Some(Token::BlockStart))
    } else if str_eq(s, "endblock") {
        Ok(Some(Token::BlockEnd))
    } else if n >= 3 && c0 == 'i' && s.get_char(1) == 'n' && s.get_char(2) == 't' {
        match parse_number_exec(s.substring_char(3, n), 10, 255) {
            Some(w) => Ok(Some(Token::Integer(w as u8))),
            None => Err(LexError::InvalidWidth),
        }
    } else if c0 == '!' {
        Ok(Some(Token::Command(String::from_str(s.substring_char(1, n)))))
    } else if n == 1 && c0 == ':' {
        Ok(Some(Token::Assign))
    } else if n == 1 && c0 == ';' {
        Ok(Some(Token::EndLn))
    } else if n >= 2 && c0 == '0' && s.get_char(1) == 'x' {
        match parse_number_exec(s.substring_char(2, n), 16, usize::MAX) {
            Some(v) => Ok(Some(Token::Value(v))),
            None => Err(LexError::InvalidLiteral),
        }
    } else if if (c0 as u32) < 128 {
        '0' <= c0 && c0 <= '9'
    } else {
        is_numeric(c0)
    } {
        match parse_number_exec(s, 10, usize::MAX) {
            Some(v) => Ok(Some(Token::Value(v))),
            None => Err(LexError::InvalidLiteral),
        }
    } else if n == 1 && c0 == '+' {
        Ok(Some(Token::Operation(Op::Add)))
    } else if n == 1 && c0 == '-' {
        Ok(Some(Token::Operation(Op::Sub)))
    } else if n == 1 && c0 == '*' {
        Ok(Some(Token::Operation(Op::Mul)))
    } else if n == 1 && c0 == '/' {
        Ok(Some(Token::Operation(Op::Div)))
    } else if str_eq(s, "rept") {
        Ok(Some(Token::ReptStart))
    } else if str_eq(s, "endrept") {
        Ok(Some(Token::ReptEnd))
    } else {
        Ok(Some(Token::Label(String::from_str(s))))
    }
}

/// The reference token of `block.field`.
fn path_token_exec(rest: &str) -> (r: Result<Token, LexError>)
    ensures
        match r {
            Ok(t) => path_token(rest@) == Ok::<Option<TokenV>, LexError>(Some(t@)),
            Err(e) => path_token(rest@) == Err::<Option<TokenV>, LexError>(e),
        },
{
    let n = rest.unicode_len();
    let d = dot_index(rest);
    proof {
        lemma_dot_pos_bound(rest@);
    }
    if d >= n {
        return Err(LexError::MissingPathSeparator);
    }
    let block = String::from_str(rest.substring_char(0, d));
    let field = String::from_str(rest.substring_char(d + 1, n));
    Ok(Token::PathSubst(block, field))
}

/// Splits off a word's leading `[` and its trailing `]` and `;`.
fn split_word(w: &str) -> (r: (bool, &str, bool, bool))
    ensures
        (r.0, r.1@, r.2, r.3) == word_parts(w@),
{
    let n0 = w.unicode_len();
    let open = n0 > 0 && w.get_char(0) == '[';
    let s1 = if open {
        w.substring_char(1, n0)
    } else {
        w
    };
    let n1 = s1.unicode_len();
    let semi = n1 > 0 && s1.get_char(n1 - 1) == ';';
    let s2 = if semi {
        s1.substring_char(0, n1 - 1)
    } else {
        s1
    };
    let n2 = s2.unicode_len();
    let close = n2 > 0 && s2.get_char(n2 - 1) == ']';
    let s3 = if close {
        s2.substring_char(0, n2 - 1)
    } else {
        s2
    };
    (open, s3, close, semi)
}

/// The token of the text between a word's brackets and terminator.
fn core_token_exec(s: &str, env: &Vec<(String, String)>) -> (r: Result<Option<Token>, LexError>)
    ensures
        match r {
            Ok(Some(t)) => core_token(s@, env_view(env@)) == Ok::<Option<TokenV>, LexError>(
                Some(t@),
            ),
            Ok(None) => core_token(s@, env_view(env@)) == Ok::<Option<TokenV>, LexError>(None),
            Err(e) => core_token(s@, env_view(env@)) == Err::<Option<TokenV>, LexError>(e),
        },
{
    let n = s.unicode_len();
    if n >= 2 && s.get_char(0) == 'v' && s.get_char(1) == '$' {
        return match path_token_exec(s.substring_char(2, n)) {
            Ok(t) => Ok(Some(t)),
            Err(e) => Err(e),
        };
    }
    let found = if n >= 2 && s.get_char(0) == 'e' && s.get_char(1) == '$' {
        env_find(env, s.substring_char(2, n))
    } else {
        None
    };
    let text = match found {
        Some(k) => env[k].1.as_str(),
        None => s,
    };
    assert(text@ == env_text(s@, env_view(env@)));
    if n > 0 && text.unicode_len() == 0 {
        let empty = String::new();
        assert(text@ =~= empty@);
        return Ok(Some(Token::Label(empty)));
    }
    classify_exec(text)
}

/// Appends the tokens of one source word to `out`.
fn lex_word_exec(w: &str, env: &Vec<(String, String)>, out: &mut Vec<Token>) -> (r: Result<
    (),
    LexError,
>)
    ensures
        match lex_word(w@, env_view(env@)) {
            Ok(ts) => r is Ok && tokens_view(final(out)@) == tokens_view(old(out)@) + ts,
            Err(e) => r == Err::<(), LexError>(e),
        },
{
    let (open, s, close, semi) = split_word(w);
    let core = match core_token_exec(s, env) {
        Ok(t) => t,
        Err(e) => return Err(e),
    };
    let ghost before = tokens_view(out@);
    if open {
        out.push(Token::BracketOpen);
    }
    match core {
        Some(t) => out.push(t),
        None => {},
    }
    if close {
        out.push(Token::BracketClose);
    }
    if semi {
        out.push(Token::EndLn);
    }
    proof {
        let ts = lex_word(w@, env_view(env@))->Ok_0;
        assert(tokens_view(out@) =~= before + ts);
    }
    Ok(())
}

/// Once a word fails, the whole sequence fails with its error.
proof fn lemma_lex_error_persists(
    words: Seq<Seq<char>>,
    env: Seq<(Seq<char>, Seq<char>)>,
    i: nat,
    n: nat,
)
    requires
        i <= n <= words.len(),
        lex_prefix(words, env, i).0 is Err,
    ensures
        lex_prefix(words, env, n).0 == lex_prefix(words, env, i).0,
    decreases n - i,
{
    if i < n {
        lemma_lex_error_persists(words, env, i, (n - 1) as nat);
    }
}

impl Program {
    /// Appends the tokens of the source words to the token list. `env`
    /// holds the environment variables (name, value) that `e$NAME` words
    /// read; the first pair with a name counts.
    pub fn lexer(&mut self, item: Vec<&str>, env: &Vec<(String, String)>) -> (r: Result<
        (),
        LexError,
    >)
        ensures
            final(self).index == old(self).index,
            final(self).magic == old(self).magic,
            match lex(words_view(item@), env_view(env@)) {
                Ok(ts) => r is Ok && tokens_view(final(self).list@) == tokens_view(old(self).list@)
                    + ts,
                Err(e) => r == Err::<(), LexError>(e),
            },
    {
        let ghost words = words_view(item@);
        let ghost ev = env_view(env@);
        let mut in_com = false;
        let mut i: usize = 0;
        while i < item.len()
            invariant
                i <= item@.len(),
                words == words_view(item@),
                ev == env_view(env@),
                self.index == old(self).index,
                self.magic == old(self).magic,
                lex_prefix(words, ev, i as nat).0 is Ok,
                tokens_view(self.list@) == tokens_view(old(self).list@) + lex_prefix(
                    words,
                    ev,
                    i as nat,
                ).0->Ok_0,
                in_com == lex_prefix(words, ev, i as nat).1,
            decreases item@.len() - i,
        {
            let w = item[i];
            if str_eq(w, "##") {
                in_com = !in_com;
            } else if !in_com {
                match lex_word_exec(w, env, &mut self.list) {
                    Ok(()) => {},
                    Err(e) => {
                        proof {
                            lemma_lex_error_persists(words, ev, (i + 1) as nat, words.len());
                        }
                        return Err(e);
                    },
                }
            }
            i = i + 1;
            assert(tokens_view(self.list@) =~= tokens_view(old(self).list@) + lex_prefix(
                words,
                ev,
                i as nat,
            ).0->Ok_0);
        }
        Ok(())
    }
}

} // verus!

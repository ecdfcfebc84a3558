use crate::bytes::{
    lemma_le_bytes_truncates, lemma_pad_len_minimal, lemma_repeat_copies, le_bytes, le_value,
    pad_len, repeat, zeros,
};
use crate::program::{
    valid_width, compile, magic_bytes, run, start, step, tok_at, value_expr, CompileError, PassState,
};
use crate::lexer::{dot_pos, lex_word, path_token, word_parts};
use crate::symbols::{
    lemma_resolve_keeps, lookup, resolve_all, resolve_rounds, substitute,
    symbols,
};
use crate::token::TokenV;
use vstd::arithmetic::power::pow;
use vstd::prelude::*;

verus! {

/// A field declaration `int<w> name : expr ;` that compiles appends exactly
/// the `w / 8` lowest bytes of its value, least significant first: the bytes
/// encode the value modulo `256^(w/8)`.
pub proof fn lemma_field_emits_le_bytes(s: PassState, w: u8)
    requires
        tok_at(s.toks, s.index) == Some(TokenV::Integer(w)),
        step(s) is Ok,
    ensures
        value_expr(s.toks, s.index + 3) is Ok,
        ({
            let v = value_expr(s.toks, s.index + 3)->Ok_0.0;
            let added = le_bytes(v as nat, (w / 8) as nat);
            &&& step(s)->Ok_0.out == s.out + added
            &&& added.len() == w / 8
            &&& le_value(added) == v as nat % (pow(256, (w / 8) as nat) as nat)
            &&& forall|i: int|
                0 <= i < w / 8 ==> #[trigger] added[i] == (v as nat / (pow(256, i as nat) as nat))
                    % 256
        }),
{
    let v = value_expr(s.toks, s.index + 3)->Ok_0.0;
    lemma_le_bytes_truncates(v as nat, (w / 8) as nat);
}

/// `!align a` that compiles pads the current buffer with the fewest zero
/// bytes that make its length a multiple of `a`: fewer than `a` of them.
pub proof fn lemma_align_pads_minimally(s: PassState)
    requires
        tok_at(s.toks, s.index) == Some(TokenV::Command("align"@)),
        step(s) is Ok,
    ensures
        tok_at(s.toks, s.index + 1) matches Some(TokenV::Value(a)) && a > 0 && ({
            let p = pad_len(s.out.len(), a as nat);
            &&& step(s)->Ok_0.out == s.out + zeros(p)
            &&& step(s)->Ok_0.out.len() % (a as nat) == 0
            &&& p < a
            &&& forall|q: nat| q < p ==> #[trigger] ((s.out.len() + q) % (a as nat)) != 0
        }),
{
    if let Some(TokenV::Value(a)) = tok_at(s.toks, s.index + 1) {
        lemma_pad_len_minimal(s.out.len(), a as nat);
    }
}

/// `rept n` sets the output so far aside and starts an empty region.
pub proof fn lemma_rept_start_sets_aside(s: PassState)
    requires
        tok_at(s.toks, s.index) == Some(TokenV::ReptStart),
        step(s) is Ok,
    ensures
        tok_at(s.toks, s.index + 1) matches Some(TokenV::Value(n)) && step(s)->Ok_0.rept == Some(
            (n as nat, s.out),
        ),
        step(s)->Ok_0.out == Seq::<u8>::empty(),
{
}

/// `endrept` after a region whose bytes are `r` puts back the output set
/// aside, followed by exactly `n` copies of `r`; none when `n` is zero.
pub proof fn lemma_rept_end_repeats(s: PassState)
    requires
        tok_at(s.toks, s.index) == Some(TokenV::ReptEnd),
        s.rept is Some,
    ensures
        ({
            let (n, saved) = s.rept->Some_0;
            let t = step(s)->Ok_0;
            &&& step(s) is Ok
            &&& t.rept is None
            &&& t.out == saved + repeat(s.out, n)
            &&& t.out.len() == saved.len() + n * s.out.len()
            &&& forall|k: int, j: int|
                0 <= k < n && 0 <= j < s.out.len() ==> #[trigger] t.out[saved.len() + k
                    * s.out.len() + j] == s.out[j]
            &&& n == 0 ==> t.out == saved
        }),
{
    let (n, saved) = s.rept->Some_0;
    lemma_repeat_copies(s.out, n);
    let t = step(s)->Ok_0;
    assert forall|k: int, j: int| 0 <= k < n && 0 <= j < s.out.len() implies #[trigger] t.out[saved.len() + k
        * s.out.len() + j] == s.out[j] by {
        assert(0 <= k * s.out.len() && k * s.out.len() + j < n * s.out.len()) by (nonlinear_arith)
            requires
                0 <= k < n,
                0 <= j < s.out.len(),
        ;
        assert(repeat(s.out, n)[k * s.out.len() + j] == s.out[j]);
    }
    if n == 0 {
        assert(t.out =~= saved);
    }
}

/// No `!magic` or `!nomagic` at or after the cursor: what the flag is now, it
/// is at the end of a pass that succeeds.
pub open spec fn no_command_from(toks: Seq<TokenV>, from: int, c: Seq<char>) -> bool {
    forall|k: int| from <= k < toks.len() ==> toks[k] != TokenV::Command(c)
}

/// A pass that meets no directive that flips the magic flag ends with the
/// flag it started with.
pub proof fn lemma_run_keeps_magic(s: PassState)
    requires
        0 <= s.index,
        no_command_from(s.toks, s.index, if s.magic { "nomagic"@ } else { "magic"@ }),
        run(s) is Ok,
    ensures
        run(s)->Ok_0.magic == s.magic,
    decreases s.toks.len() - s.index,
{
    if s.index < s.toks.len() {
        let t = step(s)->Ok_0;
        crate::program::lemma_step_progress(s);
        assert(t.magic == s.magic);
        assert forall|k: int| t.index <= k < t.toks.len() implies t.toks[k] != TokenV::Command(
            if t.magic { "nomagic"@ } else { "magic"@ },
        ) by {
            assert(s.index <= k);
        }
        lemma_run_keeps_magic(t);
    }
}

/// `!nomagic` with no `!magic` after it: the output that a successful
/// compilation gives carries no magic prefix.
pub proof fn lemma_nomagic_drops_prefix(toks: Seq<TokenV>, index: int, magic: bool, at: int)
    requires
        0 <= index <= at,
        compile(toks, index, magic) is Ok,
        tok_at(toks, at) == Some(TokenV::Command("nomagic"@)),
        no_command_from(toks, at + 1, "magic"@),
    ensures
        !run(start(resolve_all(toks), index, magic))->Ok_0.magic,
        compile(toks, index, magic)->Ok_0 == run(start(resolve_all(toks), index, magic))->Ok_0.out,
{
    let r = resolve_all(toks);
    lemma_resolve_keeps(toks, toks.len());
    assert(tok_at(r, at) == Some(TokenV::Command("nomagic"@)));
    assert forall|k: int| at + 1 <= k < r.len() implies r[k] != TokenV::Command("magic"@) by {
        assert(toks[k] != TokenV::Command("magic"@));
    }
    lemma_run_reaches(start(r, index, magic), at);
}

/// The pass that succeeds from `s` passes through the directive at `at`
/// (a `Command` is never an argument of a statement that compiles), and what
/// follows holds of the flag from there on.
proof fn lemma_run_reaches(s: PassState, at: int)
    requires
        0 <= s.index <= at,
        run(s) is Ok,
        tok_at(s.toks, at) == Some(TokenV::Command("nomagic"@)),
        no_command_from(s.toks, at + 1, "magic"@),
    ensures
        !run(s)->Ok_0.magic,
    decreases s.toks.len() - s.index,
{
    let t = step(s)->Ok_0;
    if s.index == at {
        reveal_strlit("nomagic");
        reveal_strlit("align");
        reveal_strlit("magic");
        assert("nomagic"@.len() == 7 && "align"@.len() == 5 && "magic"@.len() == 5);
        assert("nomagic"@ != "align"@ && "nomagic"@ != "magic"@);
        assert(t.magic == false);
        assert(t.index == at + 1);
        assert forall|k: int| t.index <= k < t.toks.len() implies t.toks[k] != TokenV::Command(
            "magic"@,
        ) by {}
        assert(run(t) == run(s));
        lemma_run_keeps_magic(t);
    } else {
        lemma_command_never_argument(s, at);
        crate::program::lemma_step_progress(s);
        assert(t.toks[at] == s.toks[at]);
        assert forall|k: int| at + 1 <= k < t.toks.len() implies t.toks[k] != TokenV::Command(
            "magic"@,
        ) by {}
        lemma_run_reaches(t, at);
    }
}

/// A statement that compiles ends before any `Command` that follows its start.
proof fn lemma_command_never_argument(s: PassState, at: int)
    requires
        0 <= s.index < at,
        tok_at(s.toks, at) matches Some(TokenV::Command(_)),
        step(s) is Ok,
    ensures
        step(s)->Ok_0.index <= at,
{
}

/// Without `!nomagic` and with the flag on, a successful compilation starts
/// with the magic bytes `2B FA 91 C0`.
pub proof fn lemma_default_magic_prefix(toks: Seq<TokenV>, index: int)
    requires
        0 <= index,
        no_command_from(toks, index, "nomagic"@),
        compile(toks, index, true) is Ok,
    ensures
        compile(toks, index, true)->Ok_0 == magic_bytes() + run(
            start(resolve_all(toks), index, true),
        )->Ok_0.out,
        magic_bytes() == seq![0x2Bu8, 0xFAu8, 0x91u8, 0xC0u8],
{
    let r = resolve_all(toks);
    lemma_resolve_keeps(toks, toks.len());
    assert forall|k: int| index <= k < r.len() implies r[k] != TokenV::Command("nomagic"@) by {
        assert(toks[k] != TokenV::Command("nomagic"@));
    }
    lemma_run_keeps_magic(start(r, index, true));
    reveal_with_fuel(le_bytes, 5);
    assert(magic_bytes() =~= seq![0x2Bu8, 0xFAu8, 0x91u8, 0xC0u8]);
}

/// A `block` inside an open block, or a `rept` inside an open repeated
/// region, fails the whole pass.
pub proof fn lemma_nesting_rejected(s: PassState)
    requires
        0 <= s.index,
    ensures
        tok_at(s.toks, s.index) == Some(TokenV::BlockStart) && s.block is Some ==> run(s) == Err::<
            PassState,
            CompileError,
        >(CompileError::NestedBlock),
        tok_at(s.toks, s.index) == Some(TokenV::ReptStart) && s.rept is Some ==> run(s) == Err::<
            PassState,
            CompileError,
        >(CompileError::NestedRept),
{
}

proof fn lemma_dot_pos_after(b: Seq<char>, rest: Seq<char>)
    requires
        forall|i: int| 0 <= i < b.len() ==> b[i] != '.',
        rest.len() > 0 && rest[0] == '.',
    ensures
        dot_pos(b + rest) == b.len(),
    decreases b.len(),
{
    if b.len() > 0 {
        assert((b + rest).drop_first() =~= b.drop_first() + rest);
        lemma_dot_pos_after(b.drop_first(), rest);
    } else {
        assert(b + rest =~= rest);
    }
}

/// The source word `v$b.f`, with no `.` in `b` and no `]` or `;` ending `f`,
/// is the single reference token to field `f` of block `b`.
pub proof fn lemma_reference_word(b: Seq<char>, f: Seq<char>, env: Seq<(Seq<char>, Seq<char>)>)
    requires
        forall|i: int| 0 <= i < b.len() ==> b[i] != '.',
        f.len() > 0 ==> f.last() != ';' && f.last() != ']',
    ensures
        lex_word(seq!['v', '$'] + b + seq!['.'] + f, env) == Ok::<Seq<TokenV>, crate::lexer::LexError>(
            seq![TokenV::PathSubst(b, f)],
        ),
{
    let w = seq!['v', '$'] + b + seq!['.'] + f;
    let rest = b + seq!['.'] + f;
    assert(w.last() == if f.len() > 0 { f.last() } else { '.' });
    assert(word_parts(w) == (false, w, false, false));
    assert(w.skip(2) =~= rest);
    assert(b + (seq!['.'] + f) =~= rest);
    lemma_dot_pos_after(b, seq!['.'] + f);
    assert(rest.take(b.len() as int) =~= b);
    assert(rest.skip(b.len() as int + 1) =~= f);
    assert(path_token(rest) == Ok::<Option<TokenV>, crate::lexer::LexError>(
        Some(TokenV::PathSubst(b, f)),
    ));
    assert(seq![TokenV::PathSubst(b, f)] =~= Seq::<TokenV>::empty() + seq![TokenV::PathSubst(b, f)]
        + Seq::<TokenV>::empty() + Seq::<TokenV>::empty());
}

/// Where the table of the whole token list gives field `f` of block `b` the
/// value `v`, every reference `v$b.f` becomes `v`, whether it stands before
/// or after the declaration.
pub proof fn lemma_reference_either_order(toks: Seq<TokenV>, b: Seq<char>, f: Seq<char>, v: usize)
    requires
        lookup(symbols(toks, toks.len()).1, b, f) == Some(v),
    ensures
        forall|k: int|
            0 <= k < toks.len() && toks[k] == TokenV::PathSubst(b, f) ==> #[trigger] resolve_all(
                toks,
            )[k] == TokenV::Value(v),
{
    assert forall|k: int| 0 <= k < toks.len() && toks[k] == TokenV::PathSubst(b, f) implies #[trigger] resolve_all(
        toks,
    )[k] == TokenV::Value(v) by {
        let table = symbols(toks, toks.len()).1;
        let next = substitute(toks, table);
        assert(next[k] == TokenV::Value(v));
        assert(next != toks);
        lemma_resolve_keeps(next, (toks.len() - 1) as nat);
        assert(resolve_all(toks) == resolve_rounds(next, (toks.len() - 1) as nat));
    }
}

/// Between `block b` and the next `block` or `endblock`, `b` is the open block.
proof fn lemma_block_open(toks: Seq<TokenV>, j: int, i: nat, b: Seq<char>)
    requires
        0 <= j,
        j + 1 < i <= toks.len(),
        toks[j] == TokenV::BlockStart,
        toks[j + 1] == TokenV::Label(b),
        forall|m: int| j + 1 <= m < i ==> !(#[trigger] toks[m] is BlockStart) && !(toks[m] is BlockEnd),
    ensures
        symbols(toks, i).0 == Some(b),
    decreases i,
{
    if i > j + 2 {
        lemma_block_open(toks, j, (i - 1) as nat, b);
        assert(!(toks[i - 1] is BlockStart) && !(toks[i - 1] is BlockEnd));
    } else {
        assert(symbols(toks, (j + 1) as nat).0 == Some(b));
        assert(!(toks[j + 1] is BlockStart) && !(toks[j + 1] is BlockEnd));
    }
}

/// A declaration `int<w> f : v ;` with a literal value inside `block b`
/// enters the table: just after it, the table gives `v` for `f` in `b`.
pub proof fn lemma_declaration_recorded(toks: Seq<TokenV>, j: int, d: int, b: Seq<char>, f: Seq<char>, v: usize)
    requires
        0 <= j,
        j + 1 < d,
        d + 3 < toks.len(),
        toks[j] == TokenV::BlockStart,
        toks[j + 1] == TokenV::Label(b),
        forall|m: int| j + 1 <= m < d ==> !(#[trigger] toks[m] is BlockStart) && !(toks[m] is BlockEnd),
        toks[d] is Integer,
        toks[d + 1] == TokenV::Label(f),
        toks[d + 2] == TokenV::Assign,
        toks[d + 3] == TokenV::Value(v),
    ensures
        lookup(symbols(toks, (d + 1) as nat).1, b, f) == Some(v),
{
    lemma_block_open(toks, j, d as nat, b);
    let t = symbols(toks, (d + 1) as nat).1;
    assert(t.last() == (b, Some(f), v));
}

/// The tokens from `i` on hold the literal declarations `int<ws[j]> _ : vs[j] ;`,
/// one after another.
pub open spec fn decls_at(toks: Seq<TokenV>, i: int, ws: Seq<u8>, vs: Seq<usize>) -> bool {
    &&& ws.len() == vs.len()
    &&& 0 <= i
    &&& i + 5 * ws.len() <= toks.len()
    &&& forall|j: int|
        0 <= j < ws.len() ==> {
            &&& #[trigger] toks[i + 5 * j] == TokenV::Integer(ws[j])
            &&& valid_width(ws[j])
            &&& toks[i + 5 * j + 1] is Label
            &&& toks[i + 5 * j + 2] == TokenV::Assign
            &&& toks[i + 5 * j + 3] == TokenV::Value(vs[j])
            &&& toks[i + 5 * j + 4] == TokenV::EndLn
        }
}

/// The bytes of those declarations: each value's `ws[j] / 8` lowest bytes,
/// least significant first, in order.
pub open spec fn decl_bytes(ws: Seq<u8>, vs: Seq<usize>) -> Seq<u8>
    decreases ws.len(),
{
    if ws.len() == 0 || vs.len() == 0 {
        Seq::empty()
    } else {
        le_bytes(vs[0] as nat, (ws[0] / 8) as nat) + decl_bytes(ws.drop_first(), vs.drop_first())
    }
}

/// A run of literal declarations appends their bytes, in order, and moves the
/// cursor past them.
pub proof fn lemma_run_decls(s: PassState, ws: Seq<u8>, vs: Seq<usize>)
    requires
        decls_at(s.toks, s.index, ws, vs),
    ensures
        run(s) == run(
            PassState { index: s.index + 5 * ws.len(), out: s.out + decl_bytes(ws, vs), ..s },
        ),
    decreases ws.len(),
{
    if ws.len() == 0 {
        assert(s.out + decl_bytes(ws, vs) =~= s.out);
        assert(PassState { index: s.index + 5 * ws.len(), out: s.out + decl_bytes(ws, vs), ..s }
            == s);
    } else {
        assert(s.toks[s.index + 5 * 0] == TokenV::Integer(ws[0]));
        let t = step(s)->Ok_0;
        assert(step(s) is Ok);
        assert(t == PassState {
            index: s.index + 5,
            out: s.out + le_bytes(vs[0] as nat, (ws[0] / 8) as nat),
            ..s
        });
        assert(decls_at(t.toks, t.index, ws.drop_first(), vs.drop_first())) by {
            assert forall|j: int| 0 <= j < ws.len() - 1 implies #[trigger] t.toks[t.index + 5 * j]
                == TokenV::Integer(ws.drop_first()[j]) by {
                assert(s.toks[s.index + 5 * (j + 1)] == TokenV::Integer(ws[j + 1]));
            }
            assert forall|j: int| 0 <= j < ws.len() - 1 implies {
                &&& valid_width(ws.drop_first()[j])
                &&& t.toks[t.index + 5 * j + 1] is Label
                &&& t.toks[t.index + 5 * j + 2] == TokenV::Assign
                &&& t.toks[t.index + 5 * j + 3] == TokenV::Value(vs.drop_first()[j])
                &&& t.toks[t.index + 5 * j + 4] == TokenV::EndLn
            } by {
                assert(s.toks[s.index + 5 * (j + 1)] == TokenV::Integer(ws[j + 1]));
            }
        }
        lemma_run_decls(t, ws.drop_first(), vs.drop_first());
        assert(t.out + decl_bytes(ws.drop_first(), vs.drop_first()) =~= s.out + decl_bytes(ws, vs));
    }
}

/// Tokens without references are their own resolution.
pub proof fn lemma_resolve_no_refs(toks: Seq<TokenV>)
    requires
        forall|k: int| 0 <= k < toks.len() ==> !(#[trigger] toks[k] is PathSubst),
    ensures
        resolve_all(toks) == toks,
{
    lemma_resolve_keeps(toks, toks.len());
    assert(resolve_all(toks) =~= toks);
}

/// A source `block b` followed by literal declarations and `endblock`
/// compiles to the magic prefix and then each value's `w / 8` lowest bytes,
/// least significant first, in source order.
pub proof fn lemma_block_of_fields(toks: Seq<TokenV>, ws: Seq<u8>, vs: Seq<usize>)
    requires
        toks.len() == 5 * ws.len() + 3,
        toks[0] == TokenV::BlockStart,
        toks[1] is Label,
        decls_at(toks, 2, ws, vs),
        toks[toks.len() - 1] == TokenV::BlockEnd,
    ensures
        compile(toks, 0, true) == Ok::<Seq<u8>, CompileError>(magic_bytes() + decl_bytes(ws, vs)),
{
    assert forall|k: int| 0 <= k < toks.len() implies !(#[trigger] toks[k] is PathSubst) by {
        if 2 <= k < toks.len() - 1 {
            let j = (k - 2) / 5;
            assert(toks[2 + 5 * j] == TokenV::Integer(ws[j]));
        }
    }
    lemma_resolve_no_refs(toks);
    let s0 = start(toks, 0, true);
    let s1 = step(s0)->Ok_0;
    assert(step(s0) is Ok);
    lemma_run_decls(s1, ws, vs);
    let s2 = PassState { index: s1.index + 5 * ws.len(), out: s1.out + decl_bytes(ws, vs), ..s1 };
    let s3 = step(s2)->Ok_0;
    assert(step(s2) is Ok);
    assert(run(s3) == Ok::<PassState, CompileError>(s3));
    assert(s1.out + decl_bytes(ws, vs) =~= decl_bytes(ws, vs));
}

/// Literal declarations hold no reference.
proof fn lemma_decls_no_refs(toks: Seq<TokenV>, i: int, ws: Seq<u8>, vs: Seq<usize>, k: int)
    requires
        decls_at(toks, i, ws, vs),
        i <= k < i + 5 * ws.len(),
    ensures
        !(toks[k] is PathSubst),
{
    let j = (k - i) / 5;
    assert(toks[i + 5 * j] == TokenV::Integer(ws[j]));
}

/// In a block, `!align w` between literal declarations with bytes `d` and
/// `e` compiles to the magic prefix, `d`, the fewest zero bytes that bring
/// `d` to a multiple of `w` (fewer than `w`), then `e`.
pub proof fn lemma_align_in_source(
    toks: Seq<TokenV>,
    w: usize,
    wd: Seq<u8>,
    vd: Seq<usize>,
    we: Seq<u8>,
    ve: Seq<usize>,
)
    requires
        w > 0,
        toks.len() == 5 * (wd.len() + we.len()) + 5,
        toks[0] == TokenV::BlockStart,
        toks[1] is Label,
        decls_at(toks, 2, wd, vd),
        toks[2 + 5 * (wd.len() as int)] == TokenV::Command("align"@),
        toks[3 + 5 * (wd.len() as int)] == TokenV::Value(w),
        decls_at(toks, 4 + 5 * (wd.len() as int), we, ve),
        toks[toks.len() - 1] == TokenV::BlockEnd,
    ensures
        compile(toks, 0, true) == Ok::<Seq<u8>, CompileError>(
            magic_bytes() + decl_bytes(wd, vd) + zeros(pad_len(decl_bytes(wd, vd).len(), w as nat))
                + decl_bytes(we, ve),
        ),
        (decl_bytes(wd, vd).len() + pad_len(decl_bytes(wd, vd).len(), w as nat)) % (w as nat) == 0,
        pad_len(decl_bytes(wd, vd).len(), w as nat) < w,
        forall|p: nat|
            p < pad_len(decl_bytes(wd, vd).len(), w as nat) ==> #[trigger] ((decl_bytes(wd, vd).len()
                + p) % (w as nat)) != 0,
{
    let p = 2 + 5 * (wd.len() as int);
    assert forall|k: int| 0 <= k < toks.len() implies !(#[trigger] toks[k] is PathSubst) by {
        if 2 <= k < p {
            lemma_decls_no_refs(toks, 2, wd, vd, k);
        } else if p + 2 <= k < toks.len() - 1 {
            lemma_decls_no_refs(toks, p + 2, we, ve, k);
        }
    }
    lemma_resolve_no_refs(toks);
    lemma_pad_len_minimal(decl_bytes(wd, vd).len(), w as nat);
    let s0 = start(toks, 0, true);
    let s1 = step(s0)->Ok_0;
    assert(step(s0) is Ok);
    lemma_run_decls(s1, wd, vd);
    let s2 = PassState { index: s1.index + 5 * (wd.len() as int), out: s1.out + decl_bytes(wd, vd), ..s1 };
    assert(s2.out =~= decl_bytes(wd, vd));
    let s3 = step(s2)->Ok_0;
    assert(step(s2) is Ok);
    lemma_run_decls(s3, we, ve);
    let s4 = PassState { index: s3.index + 5 * we.len(), out: s3.out + decl_bytes(we, ve), ..s3 };
    let s5 = step(s4)->Ok_0;
    assert(step(s4) is Ok);
    assert(run(s5) == Ok::<PassState, CompileError>(s5));
    assert(magic_bytes() + s5.out =~= magic_bytes() + decl_bytes(wd, vd) + zeros(
        pad_len(decl_bytes(wd, vd).len(), w as nat),
    ) + decl_bytes(we, ve));
}

/// Rounds of resolution leave tokens without references as they are.
proof fn lemma_rounds_no_refs(toks: Seq<TokenV>, fuel: nat)
    requires
        forall|k: int| 0 <= k < toks.len() ==> !(#[trigger] toks[k] is PathSubst),
    ensures
        resolve_rounds(toks, fuel) == toks,
{
    if fuel > 0 {
        let next = substitute(toks, symbols(toks, toks.len()).1);
        assert(next =~= toks);
    }
}

/// When the table of the whole source holds every field that a reference
/// names, the source compiles exactly as the same source with each
/// reference written as the literal value of its field, wherever the
/// reference stands.
pub proof fn lemma_references_as_literals(toks: Seq<TokenV>, index: int, magic: bool)
    requires
        forall|k: int|
            0 <= k < toks.len() && #[trigger] toks[k] is PathSubst ==> lookup(
                symbols(toks, toks.len()).1,
                toks[k]->PathSubst_0,
                toks[k]->PathSubst_1,
            ) is Some,
    ensures
        resolve_all(toks) == substitute(toks, symbols(toks, toks.len()).1),
        compile(toks, index, magic) == compile(
            substitute(toks, symbols(toks, toks.len()).1),
            index,
            magic,
        ),
{
    let next = substitute(toks, symbols(toks, toks.len()).1);
    assert forall|k: int| 0 <= k < next.len() implies !(#[trigger] next[k] is PathSubst) by {
        if toks[k] is PathSubst {
            assert(lookup(symbols(toks, toks.len()).1, toks[k]->PathSubst_0, toks[k]->PathSubst_1) is Some);
        }
    }
    if next == toks {
        if toks.len() > 0 {
            assert(resolve_all(toks) == toks);
        }
    } else {
        lemma_rounds_no_refs(next, (toks.len() - 1) as nat);
    }
    lemma_resolve_no_refs(next);
}

/// A statement that writes only field bytes or opens or closes a block.
pub enum Stmt {
    /// `int<w> _ : v ;`
    Decl(u8, usize),
    /// `block b`
    Open(Seq<char>),
    /// `endblock`
    Close,
}

pub open spec fn stmt_len(st: Stmt) -> int {
    match st {
        Stmt::Decl(_, _) => 5,
        Stmt::Open(_) => 2,
        Stmt::Close => 1,
    }
}

/// The tokens at `i` spell the statement `st`.
pub open spec fn stmt_at(toks: Seq<TokenV>, i: int, st: Stmt) -> bool {
    &&& 0 <= i
    &&& i + stmt_len(st) <= toks.len()
    &&& match st {
        Stmt::Decl(w, v) => {
            &&& toks[i] == TokenV::Integer(w)
            &&& valid_width(w)
            &&& toks[i + 1] is Label
            &&& toks[i + 2] == TokenV::Assign
            &&& toks[i + 3] == TokenV::Value(v)
            &&& toks[i + 4] == TokenV::EndLn
        },
        Stmt::Open(b) => toks[i] == TokenV::BlockStart && toks[i + 1] == TokenV::Label(b),
        Stmt::Close => toks[i] == TokenV::BlockEnd,
    }
}

pub open spec fn stmts_len(items: Seq<Stmt>) -> int
    decreases items.len(),
{
    if items.len() == 0 {
        0
    } else {
        stmt_len(items[0]) + stmts_len(items.drop_first())
    }
}

/// The tokens from `i` on spell the statements `items`, one after another.
pub open spec fn stmts_at(toks: Seq<TokenV>, i: int, items: Seq<Stmt>) -> bool
    decreases items.len(),
{
    items.len() == 0 || (stmt_at(toks, i, items[0]) && stmts_at(
        toks,
        i + stmt_len(items[0]),
        items.drop_first(),
    ))
}

/// The bytes that the statements write.
pub open spec fn stmts_bytes(items: Seq<Stmt>) -> Seq<u8>
    decreases items.len(),
{
    if items.len() == 0 {
        Seq::empty()
    } else {
        (match items[0] {
            Stmt::Decl(w, v) => le_bytes(v as nat, (w / 8) as nat),
            _ => Seq::empty(),
        }) + stmts_bytes(items.drop_first())
    }
}

pub open spec fn open_after(open: Option<Seq<char>>, st: Stmt) -> Option<Seq<char>> {
    match st {
        Stmt::Open(b) => Some(b),
        Stmt::Close => None,
        Stmt::Decl(_, _) => open,
    }
}

/// The open block after the statements, from `open` before them.
pub open spec fn block_after(open: Option<Seq<char>>, items: Seq<Stmt>) -> Option<Seq<char>>
    decreases items.len(),
{
    if items.len() == 0 {
        open
    } else {
        block_after(open_after(open, items[0]), items.drop_first())
    }
}

/// No block opens inside another, and none closes unopened.
pub open spec fn blocks_ok(open: Option<Seq<char>>, items: Seq<Stmt>) -> bool
    decreases items.len(),
{
    items.len() == 0 || ((match items[0] {
        Stmt::Open(_) => open is None,
        Stmt::Close => open is Some,
        Stmt::Decl(_, _) => true,
    }) && blocks_ok(open_after(open, items[0]), items.drop_first()))
}

/// A run of such statements writes their bytes, in order, and moves the
/// cursor past them.
pub proof fn lemma_run_stmts(s: PassState, items: Seq<Stmt>)
    requires
        stmts_at(s.toks, s.index, items),
        blocks_ok(s.block, items),
    ensures
        run(s) == run(
            PassState {
                index: s.index + stmts_len(items),
                out: s.out + stmts_bytes(items),
                block: block_after(s.block, items),
                ..s
            },
        ),
    decreases items.len(),
{
    if items.len() == 0 {
        assert(s.out + stmts_bytes(items) =~= s.out);
        assert(PassState {
            index: s.index + stmts_len(items),
            out: s.out + stmts_bytes(items),
            block: block_after(s.block, items),
            ..s
        } == s);
    } else {
        let st = items[0];
        let bytes = match st {
            Stmt::Decl(w, v) => le_bytes(v as nat, (w / 8) as nat),
            _ => Seq::empty(),
        };
        let t = step(s)->Ok_0;
        assert(step(s) is Ok);
        assert(t.out =~= s.out + bytes);
        assert(t == PassState {
            index: s.index + stmt_len(st),
            out: s.out + bytes,
            block: open_after(s.block, st),
            ..s
        });
        lemma_run_stmts(t, items.drop_first());
        assert(t.out + stmts_bytes(items.drop_first()) =~= s.out + stmts_bytes(items));
    }
}

/// Statements hold no reference.
proof fn lemma_stmts_no_refs(toks: Seq<TokenV>, i: int, items: Seq<Stmt>, k: int)
    requires
        stmts_at(toks, i, items),
        i <= k < i + stmts_len(items),
    ensures
        !(toks[k] is PathSubst),
    decreases items.len(),
{
    if k >= i + stmt_len(items[0]) {
        lemma_stmts_no_refs(toks, i + stmt_len(items[0]), items.drop_first(), k);
    }
}

/// `rept n ... endrept` among field declarations and blocks opened and
/// closed anywhere: the statements before it write `a`, those inside `r`,
/// those after `c`, and the source compiles to the magic prefix, `a`,
/// exactly `n` copies of `r`, then `c`.
pub proof fn lemma_rept_among_statements(
    toks: Seq<TokenV>,
    n: usize,
    a: Seq<Stmt>,
    r: Seq<Stmt>,
    c: Seq<Stmt>,
)
    requires
        toks.len() == stmts_len(a) + stmts_len(r) + stmts_len(c) + 3,
        stmts_at(toks, 0, a),
        toks[stmts_len(a)] == TokenV::ReptStart,
        toks[stmts_len(a) + 1] == TokenV::Value(n),
        stmts_at(toks, stmts_len(a) + 2, r),
        toks[stmts_len(a) + 2 + stmts_len(r)] == TokenV::ReptEnd,
        stmts_at(toks, stmts_len(a) + 3 + stmts_len(r), c),
        blocks_ok(None, a),
        blocks_ok(block_after(None, a), r),
        blocks_ok(block_after(block_after(None, a), r), c),
    ensures
        compile(toks, 0, true) == Ok::<Seq<u8>, CompileError>(
            magic_bytes() + stmts_bytes(a) + repeat(stmts_bytes(r), n as nat) + stmts_bytes(c),
        ),
{
    let p = stmts_len(a);
    let q = p + 2 + stmts_len(r);
    lemma_stmts_len_nonneg(a);
    lemma_stmts_len_nonneg(r);
    lemma_stmts_len_nonneg(c);
    assert forall|k: int| 0 <= k < toks.len() implies !(#[trigger] toks[k] is PathSubst) by {
        if k < p {
            lemma_stmts_no_refs(toks, 0, a, k);
        } else if p + 2 <= k < q {
            lemma_stmts_no_refs(toks, p + 2, r, k);
        } else if q + 1 <= k {
            lemma_stmts_no_refs(toks, q + 1, c, k);
        }
    }
    lemma_resolve_no_refs(toks);
    let s0 = start(toks, 0, true);
    lemma_run_stmts(s0, a);
    let s1 = PassState { index: p, out: s0.out + stmts_bytes(a), block: block_after(None, a), ..s0 };
    let s2 = step(s1)->Ok_0;
    assert(step(s1) is Ok);
    lemma_run_stmts(s2, r);
    let s3 = PassState {
        index: s2.index + stmts_len(r),
        out: s2.out + stmts_bytes(r),
        block: block_after(s2.block, r),
        ..s2
    };
    let s4 = step(s3)->Ok_0;
    assert(step(s3) is Ok);
    lemma_run_stmts(s4, c);
    let s5 = PassState {
        index: s4.index + stmts_len(c),
        out: s4.out + stmts_bytes(c),
        block: block_after(s4.block, c),
        ..s4
    };
    assert(run(s5) == Ok::<PassState, CompileError>(s5));
    assert(s0.out + stmts_bytes(a) =~= stmts_bytes(a));
    assert(s2.out + stmts_bytes(r) =~= stmts_bytes(r));
    assert(magic_bytes() + s5.out =~= magic_bytes() + stmts_bytes(a) + repeat(
        stmts_bytes(r),
        n as nat,
    ) + stmts_bytes(c));
}

proof fn lemma_stmts_len_nonneg(items: Seq<Stmt>)
    ensures
        stmts_len(items) >= 0,
    decreases items.len(),
{
    if items.len() > 0 {
        lemma_stmts_len_nonneg(items.drop_first());
    }
}

} // verus!

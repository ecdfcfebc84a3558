use crate::program::{tok_at, value_expr, Program};
use crate::text::str_eq;
use crate::token::{tokens_view, Token, TokenV};
use vstd::prelude::*;

verus! {

/// An entry of the symbol table: `(block, Some(field), value)` records a
/// field's value; `(block, None, _)` marks where `block` was (re)opened, so
/// that its earlier fields no longer count.
pub type EntryV = (Seq<char>, Option<Seq<char>>, usize);

/// What the token at `i` adds to the table, and the open block after it.
pub open spec fn scan_at(toks: Seq<TokenV>, i: int, cur: Option<Seq<char>>) -> (
    Option<Seq<char>>,
    Seq<EntryV>,
) {
    match toks[i] {
        TokenV::BlockStart => match tok_at(toks, i + 1) {
            Some(TokenV::Label(b)) => (Some(b), seq![(b, None, 0usize)]),
            _ => (cur, Seq::empty()),
        },
        TokenV::BlockEnd => (None, Seq::empty()),
        TokenV::Integer(_) => match (cur, tok_at(toks, i + 1)) {
            (Some(b), Some(TokenV::Label(f))) => if tok_at(toks, i + 2) == Some(TokenV::Assign)
                && value_expr(toks, i + 3) is Ok {
                (cur, seq![(b, Some(f), value_expr(toks, i + 3)->Ok_0.0)])
            } else {
                (cur, Seq::empty())
            },
            _ => (cur, Seq::empty()),
        },
        _ => (cur, Seq::empty()),
    }
}

/// The table built from the first `n` tokens, and the block open after them.
/// A declaration counts once its value is a literal or a bracketed
/// expression over literals.
pub open spec fn symbols(toks: Seq<TokenV>, n: nat) -> (Option<Seq<char>>, Seq<EntryV>)
    decreases n,
{
    if n == 0 || n > toks.len() {
        (None, Seq::empty())
    } else {
        let (cur, t) = symbols(toks, (n - 1) as nat);
        let (c2, add) = scan_at(toks, n - 1, cur);
        (c2, t + add)
    }
}

/// The value of `field` in the last opening of `block`, if it has one.
pub open spec fn lookup(table: Seq<EntryV>, block: Seq<char>, field: Seq<char>) -> Option<usize>
    decreases table.len(),
{
    if table.len() == 0 {
        None
    } else {
        let e = table.last();
        if e.0 == block && e.1 is None {
            None
        } else if e.0 == block && e.1 == Some(field) {
            Some(e.2)
        } else {
            lookup(table.drop_last(), block, field)
        }
    }
}

/// `toks` with every reference whose field the table holds replaced by its value.
pub open spec fn substitute(toks: Seq<TokenV>, table: Seq<EntryV>) -> Seq<TokenV> {
    Seq::new(
        toks.len(),
        |k: int|
            match toks[k] {
                TokenV::PathSubst(b, f) => match lookup(table, b, f) {
                    Some(v) => TokenV::Value(v),
                    None => toks[k],
                },
                t => t,
            },
    )
}

/// Rounds of substitution, each against the table of the tokens as they
/// stand, until a round changes nothing or `fuel` rounds have run.
pub open spec fn resolve_rounds(toks: Seq<TokenV>, fuel: nat) -> Seq<TokenV>
    decreases fuel,
{
    if fuel == 0 {
        toks
    } else {
        let next = substitute(toks, symbols(toks, toks.len()).1);
        if next == toks {
            toks
        } else {
            resolve_rounds(next, (fuel - 1) as nat)
        }
    }
}

/// The tokens with every reference resolved that can be, wherever it stands
/// relative to the declaration it names. Each round that changes something
/// removes a reference, so as many rounds as tokens reach the end.
pub open spec fn resolve_all(toks: Seq<TokenV>) -> Seq<TokenV> {
    resolve_rounds(toks, toks.len())
}

pub open spec fn table_view(t: Seq<(String, Option<String>, usize)>) -> Seq<EntryV> {
    t.map_values(
        |e: (String, Option<String>, usize)|
            (
                e.0@,
                match e.1 {
                    Some(f) => Some(f@),
                    None => None,
                },
                e.2,
            ),
    )
}

/// The value of `field` in the last opening of `block`, if it has one.
fn lookup_exec(table: &Vec<(String, Option<String>, usize)>, block: &String, field: &String) -> (r:
    Option<usize>)
    ensures
        r == lookup(table_view(table@), block@, field@),
{
    let ghost tv = table_view(table@);
    let mut k: usize = table.len();
    assert(tv.take(k as int) =~= tv);
    while k > 0
        invariant
            k <= table@.len(),
            tv == table_view(table@),
            lookup(tv, block@, field@) == lookup(tv.take(k as int), block@, field@),
        decreases k,
    {
        let e = &table[k - 1];
        assert(tv.take(k as int).drop_last() =~= tv.take(k - 1));
        if str_eq(e.0.as_str(), block.as_str()) {
            match &e.1 {
                None => return None,
                Some(f) => {
                    if str_eq(f.as_str(), field.as_str()) {
                        return Some(e.2);
                    }
                },
            }
        }
        k = k - 1;
    }
    None
}

impl Program {
    /// The symbol table of the whole token list.
    fn scan_symbols(&self) -> (r: Vec<(String, Option<String>, usize)>)
        ensures
            table_view(r@) == symbols(tokens_view(self.list@), self.list@.len()).1,
    {
        let ghost toks = tokens_view(self.list@);
        let mut table: Vec<(String, Option<String>, usize)> = Vec::new();
        let mut cur: Option<String> = None;
        let mut i: usize = 0;
        assert(table_view(table@) =~= Seq::<EntryV>::empty());
        while i < self.list.len()
            invariant
                toks == tokens_view(self.list@),
                i <= self.list@.len(),
                table_view(table@) == symbols(toks, i as nat).1,
                (match cur {
                    Some(c) => Some(c@),
                    None => None,
                }) == symbols(toks, i as nat).0,
            decreases self.list@.len() - i,
        {
            match &self.list[i] {
                Token::BlockStart => {
                    let name = match self.peek(i, 1) {
                        Some(Token::Label(b)) => Some(b.clone()),
                        _ => None,
                    };
                    match name {
                        Some(b) => {
                            table.push((b.clone(), None, 0));
                            cur = Some(b);
                        },
                        None => {},
                    }
                },
                Token::BlockEnd => {
                    cur = None;
                },
                Token::Integer(_) => {
                    let field = match self.peek(i, 1) {
                        Some(Token::Label(f)) => Some(f.clone()),
                        _ => None,
                    };
                    let is_assign = match self.peek(i, 2) {
                        Some(Token::Assign) => true,
                        _ => false,
                    };
                    match (&cur, field) {
                        (Some(b), Some(f)) => {
                            if is_assign {
                                match self.value_at(i) {
                                    Ok((v, _)) => {
                                        table.push((b.clone(), Some(f), v));
                                    },
                                    Err(_) => {},
                                }
                            }
                        },
                        _ => {},
                    }
                },
                _ => {},
            }
            i = i + 1;
            assert(table_view(table@) =~= symbols(toks, i as nat).1);
        }
        table
    }

    /// Replaces each reference that the table holds by its value; tells
    /// whether anything changed.
    fn substitute_exec(&mut self, table: &Vec<(String, Option<String>, usize)>) -> (changed: bool)
        ensures
            tokens_view(final(self).list@) == substitute(
                tokens_view(old(self).list@),
                table_view(table@),
            ),
            changed == (tokens_view(final(self).list@) != tokens_view(old(self).list@)),
            final(self).index == old(self).index,
            final(self).magic == old(self).magic,
    {
        let ghost orig = tokens_view(self.list@);
        let ghost target = substitute(orig, table_view(table@));
        let ghost mut witness: int = 0;
        let mut changed = false;
        let mut k: usize = 0;
        while k < self.list.len()
            invariant
                self.list@.len() == orig.len(),
                target == substitute(orig, table_view(table@)),
                self.index == old(self).index,
                self.magic == old(self).magic,
                forall|j: int|
                    0 <= j < self.list@.len() ==> #[trigger] self.list@[j]@ == (if j < k {
                        target[j]
                    } else {
                        orig[j]
                    }),
                changed ==> 0 <= witness < k && target[witness] != orig[witness],
                !changed ==> forall|j: int| 0 <= j < k ==> target[j] == orig[j],
            decreases self.list@.len() - k,
        {
            let found = match &self.list[k] {
                Token::PathSubst(b, f) => lookup_exec(table, b, f),
                _ => None,
            };
            let ghost before = self.list@;
            assert(before[k as int]@ == orig[k as int]);
            match found {
                Some(v) => {
                    self.list.set(k, Token::Value(v));
                    assert(orig[k as int] is PathSubst);
                    assert(target[k as int] == TokenV::Value(v));
                    proof {
                        witness = k as int;
                    }
                    changed = true;
                },
                None => {},
            }
            assert(self.list@[k as int]@ == target[k as int]);
            assert forall|j: int| 0 <= j < self.list@.len() && j != k implies #[trigger] self.list@[j]
                == before[j] by {}
            k = k + 1;
        }
        assert(tokens_view(self.list@) =~= target);
        if !changed {
            assert(target =~= orig);
        }
        changed
    }

    /// Resolves every reference that can be resolved, in rounds.
    pub(crate) fn resolve_references(&mut self)
        ensures
            tokens_view(final(self).list@) == resolve_all(tokens_view(old(self).list@)),
            final(self).index == old(self).index,
            final(self).magic == old(self).magic,
    {
        let ghost orig = tokens_view(self.list@);
        let n = self.list.len();
        let mut rounds: usize = 0;
        while rounds < n
            invariant
                rounds <= n,
                orig == tokens_view(old(self).list@),
                n == orig.len(),
                self.list@.len() == n,
                self.index == old(self).index,
                self.magic == old(self).magic,
                resolve_all(orig) == resolve_rounds(tokens_view(self.list@), (n - rounds) as nat),
            decreases n - rounds,
        {
            let table = self.scan_symbols();
            let ghost cur = tokens_view(self.list@);
            let changed = self.substitute_exec(&table);
            assert(self.list@.len() == tokens_view(self.list@).len());
            if !changed {
                assert(resolve_rounds(cur, (n - rounds) as nat) == cur);
                return;
            }
            rounds = rounds + 1;
        }
    }
}

/// A round of substitution changes references only, and only into literals.
pub proof fn lemma_substitute_keeps(toks: Seq<TokenV>, table: Seq<EntryV>)
    ensures
        substitute(toks, table).len() == toks.len(),
        forall|k: int|
            0 <= k < toks.len() && !(toks[k] is PathSubst) ==> #[trigger] substitute(toks, table)[k]
                == toks[k],
        forall|k: int|
            0 <= k < toks.len() && toks[k] is PathSubst ==> (#[trigger] substitute(toks, table)[k] is PathSubst
                || substitute(toks, table)[k] is Value),
{
}

/// Resolution changes references only: every other token stays where it is.
pub proof fn lemma_resolve_keeps(toks: Seq<TokenV>, fuel: nat)
    ensures
        resolve_rounds(toks, fuel).len() == toks.len(),
        forall|k: int|
            0 <= k < toks.len() && !(toks[k] is PathSubst) ==> #[trigger] resolve_rounds(toks, fuel)[k]
                == toks[k],
        forall|k: int|
            0 <= k < toks.len() && toks[k] is PathSubst ==> (#[trigger] resolve_rounds(toks, fuel)[k] is PathSubst
                || resolve_rounds(toks, fuel)[k] is Value),
    decreases fuel,
{
    if fuel > 0 {
        let next = substitute(toks, symbols(toks, toks.len()).1);
        lemma_substitute_keeps(toks, symbols(toks, toks.len()).1);
        lemma_resolve_keeps(next, (fuel - 1) as nat);
    }
}

} // verus!

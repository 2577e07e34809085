//! A persistence-ready encoding of the symbol table: the whole tree, field by
//! field and in order, as a flat stream of 64-bit words, with no derived or
//! cached data. Decoding an encoded table reproduces it exactly, so a caching
//! collaborator can write the stream out and reload the identical table.

use vstd::prelude::*;
use crate::symbol::{Symbol, Span, Variant, Mode, Type, Input, FunctionSymbol, FinalizeData, FunctionSymbolV, FinalizeDataV};
use crate::table::{Scope, ScopeV, SymbolTable, SymbolTableV};

verus! {

// ---------------------------------------------------------------------------
// The encoding, word by word.
// ---------------------------------------------------------------------------

pub open spec fn enc_bool(b: bool) -> Seq<u64> {
    seq![if b { 1u64 } else { 0u64 }]
}

pub open spec fn enc_parent(p: Option<usize>) -> Seq<u64> {
    match p {
        None => seq![0u64],
        Some(v) => seq![1u64, v as u64],
    }
}

pub open spec fn enc_variant(v: Variant) -> Seq<u64> {
    match v {
        Variant::Inline => seq![0u64],
        Variant::Standard => seq![1u64],
        Variant::Transition => seq![2u64],
    }
}

pub open spec fn enc_mode(m: Mode) -> Seq<u64> {
    match m {
        Mode::Unspecified => seq![0u64],
        Mode::Constant => seq![1u64],
        Mode::Private => seq![2u64],
        Mode::Public => seq![3u64],
    }
}

pub open spec fn enc_type(t: Type) -> Seq<u64> {
    match t {
        Type::Unit => seq![0u64],
        Type::Boolean => seq![1u64],
        Type::Field => seq![2u64],
        Type::Address => seq![3u64],
        Type::Named(s) => seq![4u64, s.0],
    }
}

pub open spec fn enc_input(i: Input) -> Seq<u64> {
    enc_mode(i.mode) + enc_type(i.type_)
}

pub open spec fn enc_input_list(xs: Seq<Input>) -> Seq<u64>
    decreases xs.len(),
{
    if xs.len() == 0 {
        Seq::empty()
    } else {
        enc_input(xs[0]) + enc_input_list(xs.drop_first())
    }
}

pub open spec fn enc_inputs(xs: Seq<Input>) -> Seq<u64> {
    seq![xs.len() as u64] + enc_input_list(xs)
}

pub open spec fn enc_fnsym(f: FunctionSymbolV) -> Seq<u64> {
    seq![f.id as u64] + enc_bool(f.is_async) + enc_variant(f.variant) + enc_type(f.output_type)
        + seq![f.span.lo, f.span.hi] + enc_inputs(f.input)
}

pub open spec fn enc_fin(d: FinalizeDataV) -> Seq<u64> {
    enc_inputs(d.input) + enc_type(d.output_type)
}

pub open spec fn enc_fn_entry(e: (Symbol, FunctionSymbolV)) -> Seq<u64> {
    seq![e.0.0] + enc_fnsym(e.1)
}

pub open spec fn enc_fn_list(es: Seq<(Symbol, FunctionSymbolV)>) -> Seq<u64>
    decreases es.len(),
{
    if es.len() == 0 {
        Seq::empty()
    } else {
        enc_fn_entry(es[0]) + enc_fn_list(es.drop_first())
    }
}

pub open spec fn enc_fns(es: Seq<(Symbol, FunctionSymbolV)>) -> Seq<u64> {
    seq![es.len() as u64] + enc_fn_list(es)
}

pub open spec fn enc_fin_entry(e: (Symbol, FinalizeDataV)) -> Seq<u64> {
    seq![e.0.0] + enc_fin(e.1)
}

pub open spec fn enc_fin_list(es: Seq<(Symbol, FinalizeDataV)>) -> Seq<u64>
    decreases es.len(),
{
    if es.len() == 0 {
        Seq::empty()
    } else {
        enc_fin_entry(es[0]) + enc_fin_list(es.drop_first())
    }
}

pub open spec fn enc_fins(es: Seq<(Symbol, FinalizeDataV)>) -> Seq<u64> {
    seq![es.len() as u64] + enc_fin_list(es)
}

pub open spec fn enc_scope(sc: ScopeV) -> Seq<u64> {
    enc_parent(sc.parent) + enc_bool(sc.sealed) + enc_fns(sc.functions) + enc_fins(sc.finalizes)
}

pub open spec fn enc_scope_list(ss: Seq<ScopeV>) -> Seq<u64>
    decreases ss.len(),
{
    if ss.len() == 0 {
        Seq::empty()
    } else {
        enc_scope(ss[0]) + enc_scope_list(ss.drop_first())
    }
}

pub open spec fn enc_table(t: SymbolTableV) -> Seq<u64> {
    seq![t.scopes.len() as u64] + enc_scope_list(t.scopes)
}

// ---------------------------------------------------------------------------
// The decoder: a position in the stream, the value read, the next position.
// ---------------------------------------------------------------------------

pub open spec fn sdec_word(s: Seq<u64>, i: int) -> Option<(u64, int)> {
    if 0 <= i < s.len() {
        Some((s[i], i + 1))
    } else {
        None
    }
}

pub open spec fn sdec_usize(s: Seq<u64>, i: int) -> Option<(usize, int)> {
    match sdec_word(s, i) {
        Some((w, j)) => if w <= usize::MAX as u64 {
            Some((w as usize, j))
        } else {
            None
        },
        None => None,
    }
}

pub open spec fn sdec_bool(s: Seq<u64>, i: int) -> Option<(bool, int)> {
    match sdec_word(s, i) {
        Some((w, j)) => if w == 0 {
            Some((false, j))
        } else if w == 1 {
            Some((true, j))
        } else {
            None
        },
        None => None,
    }
}

pub open spec fn sdec_parent(s: Seq<u64>, i: int) -> Option<(Option<usize>, int)> {
    match sdec_word(s, i) {
        Some((w, j)) => if w == 0 {
            Some((None, j))
        } else if w == 1 {
            match sdec_usize(s, j) {
                Some((v, k)) => Some((Some(v), k)),
                None => None,
            }
        } else {
            None
        },
        None => None,
    }
}

pub open spec fn sdec_variant(s: Seq<u64>, i: int) -> Option<(Variant, int)> {
    match sdec_word(s, i) {
        Some((w, j)) => if w == 0 {
            Some((Variant::Inline, j))
        } else if w == 1 {
            Some((Variant::Standard, j))
        } else if w == 2 {
            Some((Variant::Transition, j))
        } else {
            None
        },
        None => None,
    }
}

pub open spec fn sdec_mode(s: Seq<u64>, i: int) -> Option<(Mode, int)> {
    match sdec_word(s, i) {
        Some((w, j)) => if w == 0 {
            Some((Mode::Unspecified, j))
        } else if w == 1 {
            Some((Mode::Constant, j))
        } else if w == 2 {
            Some((Mode::Private, j))
        } else if w == 3 {
            Some((Mode::Public, j))
        } else {
            None
        },
        None => None,
    }
}

pub open spec fn sdec_type(s: Seq<u64>, i: int) -> Option<(Type, int)> {
    match sdec_word(s, i) {
        Some((w, j)) => if w == 0 {
            Some((Type::Unit, j))
        } else if w == 1 {
            Some((Type::Boolean, j))
        } else if w == 2 {
            Some((Type::Field, j))
        } else if w == 3 {
            Some((Type::Address, j))
        } else if w == 4 {
            match sdec_word(s, j) {
                Some((n, k)) => Some((Type::Named(Symbol(n)), k)),
                None => None,
            }
        } else {
            None
        },
        None => None,
    }
}

pub open spec fn sdec_input(s: Seq<u64>, i: int) -> Option<(Input, int)> {
    match sdec_mode(s, i) {
        Some((m, j)) => match sdec_type(s, j) {
            Some((t, k)) => Some((Input { mode: m, type_: t }, k)),
            None => None,
        },
        None => None,
    }
}

pub open spec fn sdec_input_list(s: Seq<u64>, i: int, n: nat) -> Option<(Seq<Input>, int)>
    decreases n,
{
    if n == 0 {
        Some((Seq::empty(), i))
    } else {
        match sdec_input(s, i) {
            Some((x, j)) => match sdec_input_list(s, j, (n - 1) as nat) {
                Some((xs, k)) => Some((seq![x] + xs, k)),
                None => None,
            },
            None => None,
        }
    }
}

pub open spec fn sdec_inputs(s: Seq<u64>, i: int) -> Option<(Seq<Input>, int)> {
    match sdec_usize(s, i) {
        Some((n, j)) => sdec_input_list(s, j, n as nat),
        None => None,
    }
}

pub open spec fn sdec_fnsym(s: Seq<u64>, i: int) -> Option<(FunctionSymbolV, int)> {
    match sdec_usize(s, i) {
        Some((id, j1)) => match sdec_bool(s, j1) {
            Some((is_async, j2)) => match sdec_variant(s, j2) {
                Some((variant, j3)) => match sdec_type(s, j3) {
                    Some((output_type, j4)) => match sdec_word(s, j4) {
                        Some((lo, j5)) => match sdec_word(s, j5) {
                            Some((hi, j6)) => match sdec_inputs(s, j6) {
                                Some((input, j7)) => Some((
                                    FunctionSymbolV {
                                        id,
                                        is_async,
                                        output_type,
                                        variant,
                                        span: (Span { lo, hi }),
                                        input,
                                    },
                                    j7,
                                )),
                                None => None,
                            },
                            None => None,
                        },
                        None => None,
                    },
                    None => None,
                },
                None => None,
            },
            None => None,
        },
        None => None,
    }
}

pub open spec fn sdec_fin(s: Seq<u64>, i: int) -> Option<(FinalizeDataV, int)> {
    match sdec_inputs(s, i) {
        Some((input, j)) => match sdec_type(s, j) {
            Some((output_type, k)) => Some((FinalizeDataV { input, output_type }, k)),
            None => None,
        },
        None => None,
    }
}

pub open spec fn sdec_fn_entry(s: Seq<u64>, i: int) -> Option<((Symbol, FunctionSymbolV), int)> {
    match sdec_word(s, i) {
        Some((w, j)) => match sdec_fnsym(s, j) {
            Some((f, k)) => Some(((Symbol(w), f), k)),
            None => None,
        },
        None => None,
    }
}

pub open spec fn sdec_fn_list(s: Seq<u64>, i: int, n: nat)
    -> Option<(Seq<(Symbol, FunctionSymbolV)>, int)>
    decreases n,
{
    if n == 0 {
        Some((Seq::empty(), i))
    } else {
        match sdec_fn_entry(s, i) {
            Some((e, j)) => match sdec_fn_list(s, j, (n - 1) as nat) {
                Some((es, k)) => Some((seq![e] + es, k)),
                None => None,
            },
            None => None,
        }
    }
}

pub open spec fn sdec_fns(s: Seq<u64>, i: int) -> Option<(Seq<(Symbol, FunctionSymbolV)>, int)> {
    match sdec_usize(s, i) {
        Some((n, j)) => sdec_fn_list(s, j, n as nat),
        None => None,
    }
}

pub open spec fn sdec_fin_entry(s: Seq<u64>, i: int) -> Option<((Symbol, FinalizeDataV), int)> {
    match sdec_word(s, i) {
        Some((w, j)) => match sdec_fin(s, j) {
            Some((d, k)) => Some(((Symbol(w), d), k)),
            None => None,
        },
        None => None,
    }
}

pub open spec fn sdec_fin_list(s: Seq<u64>, i: int, n: nat)
    -> Option<(Seq<(Symbol, FinalizeDataV)>, int)>
    decreases n,
{
    if n == 0 {
        Some((Seq::empty(), i))
    } else {
        match sdec_fin_entry(s, i) {
            Some((e, j)) => match sdec_fin_list(s, j, (n - 1) as nat) {
                Some((es, k)) => Some((seq![e] + es, k)),
                None => None,
            },
            None => None,
        }
    }
}

pub open spec fn sdec_fins(s: Seq<u64>, i: int) -> Option<(Seq<(Symbol, FinalizeDataV)>, int)> {
    match sdec_usize(s, i) {
        Some((n, j)) => sdec_fin_list(s, j, n as nat),
        None => None,
    }
}

pub open spec fn sdec_scope(s: Seq<u64>, i: int) -> Option<(ScopeV, int)> {
    match sdec_parent(s, i) {
        Some((parent, j1)) => match sdec_bool(s, j1) {
            Some((sealed, j2)) => match sdec_fns(s, j2) {
                Some((functions, j3)) => match sdec_fins(s, j3) {
                    Some((finalizes, j4)) => Some((
                        ScopeV { parent, functions, finalizes, sealed },
                        j4,
                    )),
                    None => None,
                },
                None => None,
            },
            None => None,
        },
        None => None,
    }
}

pub open spec fn sdec_scope_list(s: Seq<u64>, i: int, n: nat) -> Option<(Seq<ScopeV>, int)>
    decreases n,
{
    if n == 0 {
        Some((Seq::empty(), i))
    } else {
        match sdec_scope(s, i) {
            Some((sc, j)) => match sdec_scope_list(s, j, (n - 1) as nat) {
                Some((ss, k)) => Some((seq![sc] + ss, k)),
                None => None,
            },
            None => None,
        }
    }
}

pub open spec fn sdec_table(s: Seq<u64>, i: int) -> Option<(SymbolTableV, int)> {
    match sdec_usize(s, i) {
        Some((n, j)) => match sdec_scope_list(s, j, n as nat) {
            Some((ss, k)) => Some((SymbolTableV { scopes: ss }, k)),
            None => None,
        },
        None => None,
    }
}

// ---------------------------------------------------------------------------
// Boundedness: every count in the table fits a machine word, as it does for
// every table actually built (its collections are machine vectors).
// ---------------------------------------------------------------------------

pub open spec fn fnsym_bounded(f: FunctionSymbolV) -> bool {
    f.input.len() <= usize::MAX
}

pub open spec fn scope_bounded(sc: ScopeV) -> bool {
    &&& sc.functions.len() <= usize::MAX
    &&& sc.finalizes.len() <= usize::MAX
    &&& forall|j: int| 0 <= j < sc.functions.len() ==> fnsym_bounded((#[trigger] sc.functions[j]).1)
    &&& forall|j: int| 0 <= j < sc.finalizes.len()
        ==> (#[trigger] sc.finalizes[j]).1.input.len() <= usize::MAX
}

pub open spec fn table_bounded(t: SymbolTableV) -> bool {
    &&& t.scopes.len() <= usize::MAX
    &&& forall|i: int| 0 <= i < t.scopes.len() ==> scope_bounded(#[trigger] t.scopes[i])
}

// ---------------------------------------------------------------------------
// Round trip: at any offset of any stream that carries an encoding, the
// decoder reads back exactly the encoded value and stops right behind it.
// ---------------------------------------------------------------------------

/// The stream `s` carries the words `e` starting at offset `i`.
pub open spec fn has_at(s: Seq<u64>, i: int, e: Seq<u64>) -> bool {
    0 <= i && i + e.len() <= s.len() && s.subrange(i, i + e.len()) == e
}

pub proof fn lemma_has_at_split(s: Seq<u64>, i: int, a: Seq<u64>, b: Seq<u64>)
    requires
        has_at(s, i, a + b),
    ensures
        has_at(s, i, a),
        has_at(s, i + a.len(), b),
{
    let whole = s.subrange(i, i + (a + b).len());
    assert forall|k: int| 0 <= k < a.len() implies s.subrange(i, i + a.len())[k] == a[k] by {
        assert(whole[k] == (a + b)[k]);
    }
    assert(s.subrange(i, i + a.len()) =~= a);
    assert forall|k: int| 0 <= k < b.len()
        implies s.subrange(i + a.len(), i + a.len() + b.len())[k] == b[k] by {
        assert(whole[a.len() + k] == (a + b)[a.len() + k]);
    }
    assert(s.subrange(i + a.len(), i + a.len() + b.len()) =~= b);
}

pub proof fn lemma_has_at_word(s: Seq<u64>, i: int, w: u64)
    requires
        has_at(s, i, seq![w]),
    ensures
        0 <= i < s.len(),
        s[i] == w,
        sdec_word(s, i) == Some((w, i + 1)),
{
    assert(s.subrange(i, i + 1)[0] == s[i]);
}

pub proof fn lemma_rt_bool(s: Seq<u64>, i: int, b: bool)
    requires
        has_at(s, i, enc_bool(b)),
    ensures
        sdec_bool(s, i) == Some((b, i + 1)),
{
    lemma_has_at_word(s, i, if b { 1u64 } else { 0u64 });
}

pub proof fn lemma_rt_usize(s: Seq<u64>, i: int, v: usize)
    requires
        has_at(s, i, seq![v as u64]),
    ensures
        sdec_usize(s, i) == Some((v, i + 1)),
{
    lemma_has_at_word(s, i, v as u64);
}

pub proof fn lemma_rt_parent(s: Seq<u64>, i: int, p: Option<usize>)
    requires
        has_at(s, i, enc_parent(p)),
    ensures
        sdec_parent(s, i) == Some((p, i + enc_parent(p).len())),
{
    match p {
        None => {
            lemma_has_at_word(s, i, 0u64);
        }
        Some(v) => {
            assert(seq![1u64, v as u64] =~= seq![1u64] + seq![v as u64]);
            lemma_has_at_split(s, i, seq![1u64], seq![v as u64]);
            lemma_has_at_word(s, i, 1u64);
            lemma_rt_usize(s, i + 1, v);
        }
    }
}

pub proof fn lemma_rt_variant(s: Seq<u64>, i: int, v: Variant)
    requires
        has_at(s, i, enc_variant(v)),
    ensures
        sdec_variant(s, i) == Some((v, i + 1)),
{
    match v {
        Variant::Inline => lemma_has_at_word(s, i, 0u64),
        Variant::Standard => lemma_has_at_word(s, i, 1u64),
        Variant::Transition => lemma_has_at_word(s, i, 2u64),
    }
}

pub proof fn lemma_rt_mode(s: Seq<u64>, i: int, m: Mode)
    requires
        has_at(s, i, enc_mode(m)),
    ensures
        sdec_mode(s, i) == Some((m, i + 1)),
{
    match m {
        Mode::Unspecified => lemma_has_at_word(s, i, 0u64),
        Mode::Constant => lemma_has_at_word(s, i, 1u64),
        Mode::Private => lemma_has_at_word(s, i, 2u64),
        Mode::Public => lemma_has_at_word(s, i, 3u64),
    }
}

pub proof fn lemma_rt_type(s: Seq<u64>, i: int, t: Type)
    requires
        has_at(s, i, enc_type(t)),
    ensures
        sdec_type(s, i) == Some((t, i + enc_type(t).len())),
{
    match t {
        Type::Unit => lemma_has_at_word(s, i, 0u64),
        Type::Boolean => lemma_has_at_word(s, i, 1u64),
        Type::Field => lemma_has_at_word(s, i, 2u64),
        Type::Address => lemma_has_at_word(s, i, 3u64),
        Type::Named(sym) => {
            assert(seq![4u64, sym.0] =~= seq![4u64] + seq![sym.0]);
            lemma_has_at_split(s, i, seq![4u64], seq![sym.0]);
            lemma_has_at_word(s, i, 4u64);
            lemma_has_at_word(s, i + 1, sym.0);
        }
    }
}

pub proof fn lemma_rt_input(s: Seq<u64>, i: int, x: Input)
    requires
        has_at(s, i, enc_input(x)),
    ensures
        sdec_input(s, i) == Some((x, i + enc_input(x).len())),
{
    lemma_has_at_split(s, i, enc_mode(x.mode), enc_type(x.type_));
    lemma_rt_mode(s, i, x.mode);
    lemma_rt_type(s, i + enc_mode(x.mode).len(), x.type_);
}

pub proof fn lemma_rt_input_list(s: Seq<u64>, i: int, xs: Seq<Input>)
    requires
        has_at(s, i, enc_input_list(xs)),
    ensures
        sdec_input_list(s, i, xs.len()) == Some((xs, i + enc_input_list(xs).len())),
    decreases xs.len(),
{
    if xs.len() == 0 {
        assert(xs =~= Seq::<Input>::empty());
    } else {
        lemma_has_at_split(s, i, enc_input(xs[0]), enc_input_list(xs.drop_first()));
        lemma_rt_input(s, i, xs[0]);
        let j = i + enc_input(xs[0]).len();
        lemma_rt_input_list(s, j, xs.drop_first());
        assert(seq![xs[0]] + xs.drop_first() =~= xs);
    }
}

pub proof fn lemma_rt_inputs(s: Seq<u64>, i: int, xs: Seq<Input>)
    requires
        has_at(s, i, enc_inputs(xs)),
        xs.len() <= usize::MAX,
    ensures
        sdec_inputs(s, i) == Some((xs, i + enc_inputs(xs).len())),
{
    lemma_has_at_split(s, i, seq![xs.len() as u64], enc_input_list(xs));
    lemma_rt_usize(s, i, xs.len() as usize);
    lemma_rt_input_list(s, i + 1, xs);
}

pub proof fn lemma_rt_fnsym(s: Seq<u64>, i: int, f: FunctionSymbolV)
    requires
        has_at(s, i, enc_fnsym(f)),
        fnsym_bounded(f),
    ensures
        sdec_fnsym(s, i) == Some((f, i + enc_fnsym(f).len())),
{
    let e1 = seq![f.id as u64];
    let e2 = enc_bool(f.is_async);
    let e3 = enc_variant(f.variant);
    let e4 = enc_type(f.output_type);
    let e5 = seq![f.span.lo, f.span.hi];
    let e6 = enc_inputs(f.input);
    lemma_has_at_split(s, i, e1 + e2 + e3 + e4 + e5, e6);
    lemma_has_at_split(s, i, e1 + e2 + e3 + e4, e5);
    lemma_has_at_split(s, i, e1 + e2 + e3, e4);
    lemma_has_at_split(s, i, e1 + e2, e3);
    lemma_has_at_split(s, i, e1, e2);
    lemma_rt_usize(s, i, f.id);
    lemma_rt_bool(s, i + 1, f.is_async);
    lemma_rt_variant(s, i + 2, f.variant);
    let j4 = i + 3;
    lemma_rt_type(s, j4, f.output_type);
    let j5 = j4 + enc_type(f.output_type).len();
    assert(e5 =~= seq![f.span.lo] + seq![f.span.hi]);
    lemma_has_at_split(s, j5, seq![f.span.lo], seq![f.span.hi]);
    lemma_has_at_word(s, j5, f.span.lo);
    lemma_has_at_word(s, j5 + 1, f.span.hi);
    lemma_rt_inputs(s, j5 + 2, f.input);
}

pub proof fn lemma_rt_fin(s: Seq<u64>, i: int, d: FinalizeDataV)
    requires
        has_at(s, i, enc_fin(d)),
        d.input.len() <= usize::MAX,
    ensures
        sdec_fin(s, i) == Some((d, i + enc_fin(d).len())),
{
    lemma_has_at_split(s, i, enc_inputs(d.input), enc_type(d.output_type));
    lemma_rt_inputs(s, i, d.input);
    lemma_rt_type(s, i + enc_inputs(d.input).len(), d.output_type);
}

pub proof fn lemma_rt_fn_entry(s: Seq<u64>, i: int, e: (Symbol, FunctionSymbolV))
    requires
        has_at(s, i, enc_fn_entry(e)),
        fnsym_bounded(e.1),
    ensures
        sdec_fn_entry(s, i) == Some((e, i + enc_fn_entry(e).len())),
{
    lemma_has_at_split(s, i, seq![e.0.0], enc_fnsym(e.1));
    lemma_has_at_word(s, i, e.0.0);
    lemma_rt_fnsym(s, i + 1, e.1);
}

pub proof fn lemma_rt_fn_list(s: Seq<u64>, i: int, es: Seq<(Symbol, FunctionSymbolV)>)
    requires
        has_at(s, i, enc_fn_list(es)),
        forall|j: int| 0 <= j < es.len() ==> fnsym_bounded((#[trigger] es[j]).1),
    ensures
        sdec_fn_list(s, i, es.len()) == Some((es, i + enc_fn_list(es).len())),
    decreases es.len(),
{
    if es.len() == 0 {
        assert(es =~= Seq::<(Symbol, FunctionSymbolV)>::empty());
    } else {
        lemma_has_at_split(s, i, enc_fn_entry(es[0]), enc_fn_list(es.drop_first()));
        lemma_rt_fn_entry(s, i, es[0]);
        let rest = es.drop_first();
        assert(forall|j: int| 0 <= j < rest.len() ==> #[trigger] rest[j] == es[j + 1]);
        lemma_rt_fn_list(s, i + enc_fn_entry(es[0]).len(), rest);
        assert(seq![es[0]] + rest =~= es);
    }
}

pub proof fn lemma_rt_fns(s: Seq<u64>, i: int, es: Seq<(Symbol, FunctionSymbolV)>)
    requires
        has_at(s, i, enc_fns(es)),
        es.len() <= usize::MAX,
        forall|j: int| 0 <= j < es.len() ==> fnsym_bounded((#[trigger] es[j]).1),
    ensures
        sdec_fns(s, i) == Some((es, i + enc_fns(es).len())),
{
    lemma_has_at_split(s, i, seq![es.len() as u64], enc_fn_list(es));
    lemma_rt_usize(s, i, es.len() as usize);
    lemma_rt_fn_list(s, i + 1, es);
}

pub proof fn lemma_rt_fin_entry(s: Seq<u64>, i: int, e: (Symbol, FinalizeDataV))
    requires
        has_at(s, i, enc_fin_entry(e)),
        e.1.input.len() <= usize::MAX,
    ensures
        sdec_fin_entry(s, i) == Some((e, i + enc_fin_entry(e).len())),
{
    lemma_has_at_split(s, i, seq![e.0.0], enc_fin(e.1));
    lemma_has_at_word(s, i, e.0.0);
    lemma_rt_fin(s, i + 1, e.1);
}

pub proof fn lemma_rt_fin_list(s: Seq<u64>, i: int, es: Seq<(Symbol, FinalizeDataV)>)
    requires
        has_at(s, i, enc_fin_list(es)),
        forall|j: int| 0 <= j < es.len() ==> (#[trigger] es[j]).1.input.len() <= usize::MAX,
    ensures
        sdec_fin_list(s, i, es.len()) == Some((es, i + enc_fin_list(es).len())),
    decreases es.len(),
{
    if es.len() == 0 {
        assert(es =~= Seq::<(Symbol, FinalizeDataV)>::empty());
    } else {
        lemma_has_at_split(s, i, enc_fin_entry(es[0]), enc_fin_list(es.drop_first()));
        lemma_rt_fin_entry(s, i, es[0]);
        let rest = es.drop_first();
        assert(forall|j: int| 0 <= j < rest.len() ==> #[trigger] rest[j] == es[j + 1]);
        lemma_rt_fin_list(s, i + enc_fin_entry(es[0]).len(), rest);
        assert(seq![es[0]] + rest =~= es);
    }
}

pub proof fn lemma_rt_fins(s: Seq<u64>, i: int, es: Seq<(Symbol, FinalizeDataV)>)
    requires
        has_at(s, i, enc_fins(es)),
        es.len() <= usize::MAX,
        forall|j: int| 0 <= j < es.len() ==> (#[trigger] es[j]).1.input.len() <= usize::MAX,
    ensures
        sdec_fins(s, i) == Some((es, i + enc_fins(es).len())),
{
    lemma_has_at_split(s, i, seq![es.len() as u64], enc_fin_list(es));
    lemma_rt_usize(s, i, es.len() as usize);
    lemma_rt_fin_list(s, i + 1, es);
}

pub proof fn lemma_rt_scope(s: Seq<u64>, i: int, sc: ScopeV)
    requires
        has_at(s, i, enc_scope(sc)),
        scope_bounded(sc),
    ensures
        sdec_scope(s, i) == Some((sc, i + enc_scope(sc).len())),
{
    let e1 = enc_parent(sc.parent);
    let e2 = enc_bool(sc.sealed);
    let e3 = enc_fns(sc.functions);
    let e4 = enc_fins(sc.finalizes);
    lemma_has_at_split(s, i, e1 + e2 + e3, e4);
    lemma_has_at_split(s, i, e1 + e2, e3);
    lemma_has_at_split(s, i, e1, e2);
    lemma_rt_parent(s, i, sc.parent);
    let j1 = i + e1.len();
    lemma_rt_bool(s, j1, sc.sealed);
    lemma_rt_fns(s, j1 + 1, sc.functions);
    lemma_rt_fins(s, j1 + 1 + e3.len(), sc.finalizes);
}

pub proof fn lemma_rt_scope_list(s: Seq<u64>, i: int, ss: Seq<ScopeV>)
    requires
        has_at(s, i, enc_scope_list(ss)),
        forall|j: int| 0 <= j < ss.len() ==> scope_bounded(#[trigger] ss[j]),
    ensures
        sdec_scope_list(s, i, ss.len()) == Some((ss, i + enc_scope_list(ss).len())),
    decreases ss.len(),
{
    if ss.len() == 0 {
        assert(ss =~= Seq::<ScopeV>::empty());
    } else {
        lemma_has_at_split(s, i, enc_scope(ss[0]), enc_scope_list(ss.drop_first()));
        lemma_rt_scope(s, i, ss[0]);
        let rest = ss.drop_first();
        assert(forall|j: int| 0 <= j < rest.len() ==> #[trigger] rest[j] == ss[j + 1]);
        lemma_rt_scope_list(s, i + enc_scope(ss[0]).len(), rest);
        assert(seq![ss[0]] + rest =~= ss);
    }
}

// ---------------------------------------------------------------------------
// Appending one element to an encoded list appends its encoding.
// ---------------------------------------------------------------------------

proof fn lemma_enc_input_list_push(xs: Seq<Input>, x: Input)
    ensures
        enc_input_list(xs.push(x)) == enc_input_list(xs) + enc_input(x),
    decreases xs.len(),
{
    if xs.len() == 0 {
        assert(xs.push(x)[0] == x);
        assert(xs.push(x).drop_first() =~= Seq::<Input>::empty());
        assert(enc_input_list(Seq::<Input>::empty()) == Seq::<u64>::empty());
        assert(enc_input_list(xs.push(x)) =~= enc_input_list(xs) + enc_input(x));
    } else {
        assert(xs.push(x)[0] == xs[0]);
        assert(xs.push(x).drop_first() =~= xs.drop_first().push(x));
        lemma_enc_input_list_push(xs.drop_first(), x);
        assert(enc_input(xs[0]) + (enc_input_list(xs.drop_first()) + enc_input(x))
            =~= (enc_input(xs[0]) + enc_input_list(xs.drop_first())) + enc_input(x));
    }
}

proof fn lemma_enc_fn_list_push(es: Seq<(Symbol, FunctionSymbolV)>, e: (Symbol, FunctionSymbolV))
    ensures
        enc_fn_list(es.push(e)) == enc_fn_list(es) + enc_fn_entry(e),
    decreases es.len(),
{
    if es.len() == 0 {
        assert(es.push(e)[0] == e);
        assert(es.push(e).drop_first() =~= Seq::<(Symbol, FunctionSymbolV)>::empty());
        assert(enc_fn_list(Seq::<(Symbol, FunctionSymbolV)>::empty()) == Seq::<u64>::empty());
        assert(enc_fn_list(es.push(e)) =~= enc_fn_list(es) + enc_fn_entry(e));
    } else {
        assert(es.push(e)[0] == es[0]);
        assert(es.push(e).drop_first() =~= es.drop_first().push(e));
        lemma_enc_fn_list_push(es.drop_first(), e);
        assert(enc_fn_entry(es[0]) + (enc_fn_list(es.drop_first()) + enc_fn_entry(e))
            =~= (enc_fn_entry(es[0]) + enc_fn_list(es.drop_first())) + enc_fn_entry(e));
    }
}

proof fn lemma_enc_fin_list_push(es: Seq<(Symbol, FinalizeDataV)>, e: (Symbol, FinalizeDataV))
    ensures
        enc_fin_list(es.push(e)) == enc_fin_list(es) + enc_fin_entry(e),
    decreases es.len(),
{
    if es.len() == 0 {
        assert(es.push(e)[0] == e);
        assert(es.push(e).drop_first() =~= Seq::<(Symbol, FinalizeDataV)>::empty());
        assert(enc_fin_list(Seq::<(Symbol, FinalizeDataV)>::empty()) == Seq::<u64>::empty());
        assert(enc_fin_list(es.push(e)) =~= enc_fin_list(es) + enc_fin_entry(e));
    } else {
        assert(es.push(e)[0] == es[0]);
        assert(es.push(e).drop_first() =~= es.drop_first().push(e));
        lemma_enc_fin_list_push(es.drop_first(), e);
        assert(enc_fin_entry(es[0]) + (enc_fin_list(es.drop_first()) + enc_fin_entry(e))
            =~= (enc_fin_entry(es[0]) + enc_fin_list(es.drop_first())) + enc_fin_entry(e));
    }
}

proof fn lemma_enc_scope_list_push(ss: Seq<ScopeV>, sc: ScopeV)
    ensures
        enc_scope_list(ss.push(sc)) == enc_scope_list(ss) + enc_scope(sc),
    decreases ss.len(),
{
    if ss.len() == 0 {
        assert(ss.push(sc)[0] == sc);
        assert(ss.push(sc).drop_first() =~= Seq::<ScopeV>::empty());
        assert(enc_scope_list(Seq::<ScopeV>::empty()) == Seq::<u64>::empty());
        assert(enc_scope_list(ss.push(sc)) =~= enc_scope_list(ss) + enc_scope(sc));
    } else {
        assert(ss.push(sc)[0] == ss[0]);
        assert(ss.push(sc).drop_first() =~= ss.drop_first().push(sc));
        lemma_enc_scope_list_push(ss.drop_first(), sc);
        assert(enc_scope(ss[0]) + (enc_scope_list(ss.drop_first()) + enc_scope(sc))
            =~= (enc_scope(ss[0]) + enc_scope_list(ss.drop_first())) + enc_scope(sc));
    }
}

// ---------------------------------------------------------------------------
// The encoder.
// ---------------------------------------------------------------------------

fn emit_parent(out: &mut Vec<u64>, p: Option<usize>)
    ensures
        final(out)@ == old(out)@ + enc_parent(p),
{
    match p {
        None => {
            out.push(0);
            proof {
                assert(out@ =~= old(out)@ + enc_parent(p));
            }
        }
        Some(v) => {
            out.push(1);
            out.push(v as u64);
            proof {
                assert(out@ =~= old(out)@ + enc_parent(p));
            }
        }
    }
}

fn emit_bool(out: &mut Vec<u64>, b: bool)
    ensures
        final(out)@ == old(out)@ + enc_bool(b),
{
    out.push(if b { 1 } else { 0 });
    proof {
        assert(out@ =~= old(out)@ + enc_bool(b));
    }
}

fn emit_variant(out: &mut Vec<u64>, v: Variant)
    ensures
        final(out)@ == old(out)@ + enc_variant(v),
{
    let w: u64 = match v {
        Variant::Inline => 0,
        Variant::Standard => 1,
        Variant::Transition => 2,
    };
    out.push(w);
    proof {
        assert(out@ =~= old(out)@ + enc_variant(v));
    }
}

fn emit_mode(out: &mut Vec<u64>, m: Mode)
    ensures
        final(out)@ == old(out)@ + enc_mode(m),
{
    let w: u64 = match m {
        Mode::Unspecified => 0,
        Mode::Constant => 1,
        Mode::Private => 2,
        Mode::Public => 3,
    };
    out.push(w);
    proof {
        assert(out@ =~= old(out)@ + enc_mode(m));
    }
}

fn emit_type(out: &mut Vec<u64>, t: Type)
    ensures
        final(out)@ == old(out)@ + enc_type(t),
{
    match t {
        Type::Unit => out.push(0),
        Type::Boolean => out.push(1),
        Type::Field => out.push(2),
        Type::Address => out.push(3),
        Type::Named(s) => {
            out.push(4);
            out.push(s.0);
        }
    }
    proof {
        assert(out@ =~= old(out)@ + enc_type(t));
    }
}

fn emit_input(out: &mut Vec<u64>, x: Input)
    ensures
        final(out)@ == old(out)@ + enc_input(x),
{
    emit_mode(out, x.mode);
    emit_type(out, x.type_);
    proof {
        assert(out@ =~= old(out)@ + enc_input(x));
    }
}

fn emit_inputs(out: &mut Vec<u64>, xs: &Vec<Input>)
    ensures
        final(out)@ == old(out)@ + enc_inputs(xs@),
{
    out.push(xs.len() as u64);
    let mut i: usize = 0;
    while i < xs.len()
        invariant
            i <= xs.len(),
            out@ == old(out)@ + seq![xs@.len() as u64] + enc_input_list(xs@.take(i as int)),
        decreases xs.len() - i,
    {
        emit_input(out, xs[i]);
        proof {
            lemma_enc_input_list_push(xs@.take(i as int), xs@[i as int]);
            assert(xs@.take(i as int + 1) =~= xs@.take(i as int).push(xs@[i as int]));
            assert(out@ =~= old(out)@ + seq![xs@.len() as u64]
                + enc_input_list(xs@.take(i as int + 1)));
        }
        i = i + 1;
    }
    proof {
        assert(xs@.take(xs@.len() as int) =~= xs@);
        assert(out@ =~= old(out)@ + enc_inputs(xs@));
    }
}

fn emit_fnsym(out: &mut Vec<u64>, f: &FunctionSymbol)
    ensures
        final(out)@ == old(out)@ + enc_fnsym(f@),
{
    out.push(f.id as u64);
    emit_bool(out, f.is_async);
    emit_variant(out, f.variant);
    emit_type(out, f.output_type);
    out.push(f.span.lo);
    out.push(f.span.hi);
    emit_inputs(out, &f.input);
    proof {
        assert(out@ =~= old(out)@ + enc_fnsym(f@));
    }
}

fn emit_fin(out: &mut Vec<u64>, d: &FinalizeData)
    ensures
        final(out)@ == old(out)@ + enc_fin(d@),
{
    emit_inputs(out, &d.input);
    emit_type(out, d.output_type);
    proof {
        assert(out@ =~= old(out)@ + enc_fin(d@));
    }
}

fn emit_fns(out: &mut Vec<u64>, es: &Vec<(Symbol, FunctionSymbol)>)
    ensures
        final(out)@ == old(out)@
            + enc_fns(es@.map_values(|p: (Symbol, FunctionSymbol)| (p.0, p.1@))),
{
    let ghost mes = es@.map_values(|p: (Symbol, FunctionSymbol)| (p.0, p.1@));
    out.push(es.len() as u64);
    let mut i: usize = 0;
    while i < es.len()
        invariant
            i <= es.len(),
            mes == es@.map_values(|p: (Symbol, FunctionSymbol)| (p.0, p.1@)),
            out@ == old(out)@ + seq![mes.len() as u64] + enc_fn_list(mes.take(i as int)),
        decreases es.len() - i,
    {
        out.push(es[i].0.0);
        emit_fnsym(out, &es[i].1);
        proof {
            assert(mes[i as int] == (es@[i as int].0, es@[i as int].1@));
            lemma_enc_fn_list_push(mes.take(i as int), mes[i as int]);
            assert(mes.take(i as int + 1) =~= mes.take(i as int).push(mes[i as int]));
            assert(out@ =~= old(out)@ + seq![mes.len() as u64]
                + enc_fn_list(mes.take(i as int + 1)));
        }
        i = i + 1;
    }
    proof {
        assert(mes.take(mes.len() as int) =~= mes);
        assert(out@ =~= old(out)@ + enc_fns(mes));
    }
}

fn emit_fins(out: &mut Vec<u64>, es: &Vec<(Symbol, FinalizeData)>)
    ensures
        final(out)@ == old(out)@
            + enc_fins(es@.map_values(|p: (Symbol, FinalizeData)| (p.0, p.1@))),
{
    let ghost mes = es@.map_values(|p: (Symbol, FinalizeData)| (p.0, p.1@));
    out.push(es.len() as u64);
    let mut i: usize = 0;
    while i < es.len()
        invariant
            i <= es.len(),
            mes == es@.map_values(|p: (Symbol, FinalizeData)| (p.0, p.1@)),
            out@ == old(out)@ + seq![mes.len() as u64] + enc_fin_list(mes.take(i as int)),
        decreases es.len() - i,
    {
        out.push(es[i].0.0);
        emit_fin(out, &es[i].1);
        proof {
            assert(mes[i as int] == (es@[i as int].0, es@[i as int].1@));
            lemma_enc_fin_list_push(mes.take(i as int), mes[i as int]);
            assert(mes.take(i as int + 1) =~= mes.take(i as int).push(mes[i as int]));
            assert(out@ =~= old(out)@ + seq![mes.len() as u64]
                + enc_fin_list(mes.take(i as int + 1)));
        }
        i = i + 1;
    }
    proof {
        assert(mes.take(mes.len() as int) =~= mes);
        assert(out@ =~= old(out)@ + enc_fins(mes));
    }
}

fn emit_scope(out: &mut Vec<u64>, sc: &Scope)
    ensures
        final(out)@ == old(out)@ + enc_scope(sc@),
{
    emit_parent(out, sc.parent);
    emit_bool(out, sc.sealed);
    emit_fns(out, &sc.functions);
    emit_fins(out, &sc.finalizes);
    proof {
        assert(out@ =~= old(out)@ + enc_scope(sc@));
    }
}

/// Writes the whole table, field by field, as a flat stream of words.
pub fn encode_table(t: &SymbolTable) -> (r: Vec<u64>)
    ensures
        r@ == enc_table(t@),
{
    let mut out: Vec<u64> = Vec::new();
    out.push(t.scopes.len() as u64);
    let mut i: usize = 0;
    while i < t.scopes.len()
        invariant
            i <= t.scopes.len(),
            out@ == seq![t@.scopes.len() as u64] + enc_scope_list(t@.scopes.take(i as int)),
        decreases t.scopes.len() - i,
    {
        emit_scope(&mut out, &t.scopes[i]);
        proof {
            assert(t@.scopes[i as int] == t.scopes@[i as int]@);
            lemma_enc_scope_list_push(t@.scopes.take(i as int), t@.scopes[i as int]);
            assert(t@.scopes.take(i as int + 1)
                =~= t@.scopes.take(i as int).push(t@.scopes[i as int]));
            assert(out@ =~= seq![t@.scopes.len() as u64]
                + enc_scope_list(t@.scopes.take(i as int + 1)));
        }
        i = i + 1;
    }
    proof {
        assert(t@.scopes.take(t@.scopes.len() as int) =~= t@.scopes);
        assert(out@ =~= enc_table(t@));
    }
    out
}

// ---------------------------------------------------------------------------
// The decoder.
// ---------------------------------------------------------------------------

fn dec_word(v: &Vec<u64>, pos: usize) -> (r: Option<(u64, usize)>)
    ensures
        match r {
            Some((w, q)) => sdec_word(v@, pos as int) == Some((w, q as int)),
            None => sdec_word(v@, pos as int) is None,
        },
{
    if pos < v.len() {
        Some((v[pos], pos + 1))
    } else {
        None
    }
}

fn dec_usize(v: &Vec<u64>, pos: usize) -> (r: Option<(usize, usize)>)
    ensures
        match r {
            Some((x, q)) => sdec_usize(v@, pos as int) == Some((x, q as int)),
            None => sdec_usize(v@, pos as int) is None,
        },
{
    match dec_word(v, pos) {
        Some((w, q)) => {
            if w <= usize::MAX as u64 {
                Some((w as usize, q))
            } else {
                None
            }
        }
        None => None,
    }
}

fn dec_bool(v: &Vec<u64>, pos: usize) -> (r: Option<(bool, usize)>)
    ensures
        match r {
            Some((b, q)) => sdec_bool(v@, pos as int) == Some((b, q as int)),
            None => sdec_bool(v@, pos as int) is None,
        },
{
    match dec_word(v, pos) {
        Some((w, q)) => {
            if w == 0 {
                Some((false, q))
            } else if w == 1 {
                Some((true, q))
            } else {
                None
            }
        }
        None => None,
    }
}

fn dec_parent(v: &Vec<u64>, pos: usize) -> (r: Option<(Option<usize>, usize)>)
    ensures
        match r {
            Some((p, q)) => sdec_parent(v@, pos as int) == Some((p, q as int)),
            None => sdec_parent(v@, pos as int) is None,
        },
{
    match dec_word(v, pos) {
        Some((w, q)) => {
            if w == 0 {
                Some((None, q))
            } else if w == 1 {
                match dec_usize(v, q) {
                    Some((x, k)) => Some((Some(x), k)),
                    None => None,
                }
            } else {
                None
            }
        }
        None => None,
    }
}

fn dec_variant(v: &Vec<u64>, pos: usize) -> (r: Option<(Variant, usize)>)
    ensures
        match r {
            Some((x, q)) => sdec_variant(v@, pos as int) == Some((x, q as int)),
            None => sdec_variant(v@, pos as int) is None,
        },
{
    match dec_word(v, pos) {
        Some((w, q)) => {
            if w == 0 {
                Some((Variant::Inline, q))
            } else if w == 1 {
                Some((Variant::Standard, q))
            } else if w == 2 {
                Some((Variant::Transition, q))
            } else {
                None
            }
        }
        None => None,
    }
}

fn dec_mode(v: &Vec<u64>, pos: usize) -> (r: Option<(Mode, usize)>)
    ensures
        match r {
            Some((x, q)) => sdec_mode(v@, pos as int) == Some((x, q as int)),
            None => sdec_mode(v@, pos as int) is None,
        },
{
    match dec_word(v, pos) {
        Some((w, q)) => {
            if w == 0 {
                Some((Mode::Unspecified, q))
            } else if w == 1 {
                Some((Mode::Constant, q))
            } else if w == 2 {
                Some((Mode::Private, q))
            } else if w == 3 {
                Some((Mode::Public, q))
            } else {
                None
            }
        }
        None => None,
    }
}

fn dec_type(v: &Vec<u64>, pos: usize) -> (r: Option<(Type, usize)>)
    ensures
        match r {
            Some((x, q)) => sdec_type(v@, pos as int) == Some((x, q as int)),
            None => sdec_type(v@, pos as int) is None,
        },
{
    match dec_word(v, pos) {
        Some((w, q)) => {
            if w == 0 {
                Some((Type::Unit, q))
            } else if w == 1 {
                Some((Type::Boolean, q))
            } else if w == 2 {
                Some((Type::Field, q))
            } else if w == 3 {
                Some((Type::Address, q))
            } else if w == 4 {
                match dec_word(v, q) {
                    Some((n, k)) => Some((Type::Named(Symbol(n)), k)),
                    None => None,
                }
            } else {
                None
            }
        }
        None => None,
    }
}

fn dec_input(v: &Vec<u64>, pos: usize) -> (r: Option<(Input, usize)>)
    ensures
        match r {
            Some((x, q)) => sdec_input(v@, pos as int) == Some((x, q as int)),
            None => sdec_input(v@, pos as int) is None,
        },
{
    match dec_mode(v, pos) {
        Some((m, j)) => match dec_type(v, j) {
            Some((t, k)) => Some((Input { mode: m, type_: t }, k)),
            None => None,
        },
        None => None,
    }
}

fn dec_input_list(v: &Vec<u64>, pos: usize, n: usize) -> (r: Option<(Vec<Input>, usize)>)
    ensures
        match r {
            Some((xs, q)) => sdec_input_list(v@, pos as int, n as nat) == Some((xs@, q as int)),
            None => sdec_input_list(v@, pos as int, n as nat) is None,
        },
{
    let mut acc: Vec<Input> = Vec::new();
    let mut cur: usize = pos;
    let mut k: usize = 0;
    while k < n
        invariant
            k <= n,
            match sdec_input_list(v@, cur as int, (n - k) as nat) {
                Some((ys, j)) => sdec_input_list(v@, pos as int, n as nat)
                    == Some((acc@ + ys, j)),
                None => sdec_input_list(v@, pos as int, n as nat) is None,
            },
        decreases n - k,
    {
        match dec_input(v, cur) {
            Some((x, q)) => {
                let ghost acc0 = acc@;
                acc.push(x);
                proof {
                    match sdec_input_list(v@, q as int, (n - k - 1) as nat) {
                        Some((ys2, j2)) => {
                            assert(acc0 + (seq![x] + ys2) =~= acc@ + ys2);
                        }
                        None => {}
                    }
                }
                cur = q;
                k = k + 1;
            }
            None => {
                return None;
            }
        }
    }
    proof {
        assert(acc@ + Seq::<Input>::empty() =~= acc@);
    }
    Some((acc, cur))
}

fn dec_inputs(v: &Vec<u64>, pos: usize) -> (r: Option<(Vec<Input>, usize)>)
    ensures
        match r {
            Some((xs, q)) => sdec_inputs(v@, pos as int) == Some((xs@, q as int)),
            None => sdec_inputs(v@, pos as int) is None,
        },
{
    match dec_usize(v, pos) {
        Some((n, j)) => dec_input_list(v, j, n),
        None => None,
    }
}

fn dec_fnsym(v: &Vec<u64>, pos: usize) -> (r: Option<(FunctionSymbol, usize)>)
    ensures
        match r {
            Some((f, q)) => sdec_fnsym(v@, pos as int) == Some((f@, q as int)),
            None => sdec_fnsym(v@, pos as int) is None,
        },
{
    let (id, j1) = match dec_usize(v, pos) {
        Some(x) => x,
        None => {
            return None;
        }
    };
    let (is_async, j2) = match dec_bool(v, j1) {
        Some(x) => x,
        None => {
            return None;
        }
    };
    let (variant, j3) = match dec_variant(v, j2) {
        Some(x) => x,
        None => {
            return None;
        }
    };
    let (output_type, j4) = match dec_type(v, j3) {
        Some(x) => x,
        None => {
            return None;
        }
    };
    let (lo, j5) = match dec_word(v, j4) {
        Some(x) => x,
        None => {
            return None;
        }
    };
    let (hi, j6) = match dec_word(v, j5) {
        Some(x) => x,
        None => {
            return None;
        }
    };
    let (input, j7) = match dec_inputs(v, j6) {
        Some(x) => x,
        None => {
            return None;
        }
    };
    Some((FunctionSymbol { id, is_async, output_type, variant, span: (Span { lo, hi }), input }, j7))
}

fn dec_fin(v: &Vec<u64>, pos: usize) -> (r: Option<(FinalizeData, usize)>)
    ensures
        match r {
            Some((d, q)) => sdec_fin(v@, pos as int) == Some((d@, q as int)),
            None => sdec_fin(v@, pos as int) is None,
        },
{
    match dec_inputs(v, pos) {
        Some((input, j)) => match dec_type(v, j) {
            Some((output_type, k)) => Some((FinalizeData { input, output_type }, k)),
            None => None,
        },
        None => None,
    }
}

fn dec_fn_list(v: &Vec<u64>, pos: usize, n: usize)
    -> (r: Option<(Vec<(Symbol, FunctionSymbol)>, usize)>)
    ensures
        match r {
            Some((es, q)) => sdec_fn_list(v@, pos as int, n as nat)
                == Some((es@.map_values(|p: (Symbol, FunctionSymbol)| (p.0, p.1@)), q as int)),
            None => sdec_fn_list(v@, pos as int, n as nat) is None,
        },
{
    let mut acc: Vec<(Symbol, FunctionSymbol)> = Vec::new();
    let mut cur: usize = pos;
    let mut k: usize = 0;
    while k < n
        invariant
            k <= n,
            match sdec_fn_list(v@, cur as int, (n - k) as nat) {
                Some((ys, j)) => sdec_fn_list(v@, pos as int, n as nat)
                    == Some((acc@.map_values(|p: (Symbol, FunctionSymbol)| (p.0, p.1@)) + ys, j)),
                None => sdec_fn_list(v@, pos as int, n as nat) is None,
            },
        decreases n - k,
    {
        let (w, j1) = match dec_word(v, cur) {
            Some(x) => x,
            None => {
                return None;
            }
        };
        let (f, q) = match dec_fnsym(v, j1) {
            Some(x) => x,
            None => {
                return None;
            }
        };
        let ghost acc0 = acc@;
        let ghost e = (Symbol(w), f@);
        acc.push((Symbol(w), f));
        proof {
            let m = |p: (Symbol, FunctionSymbol)| (p.0, p.1@);
            assert(acc@.map_values(m) =~= acc0.map_values(m).push(e));
            match sdec_fn_list(v@, q as int, (n - k - 1) as nat) {
                Some((ys2, j2)) => {
                    assert(acc0.map_values(m) + (seq![e] + ys2)
                        =~= acc@.map_values(m) + ys2);
                }
                None => {}
            }
        }
        cur = q;
        k = k + 1;
    }
    proof {
        let m = |p: (Symbol, FunctionSymbol)| (p.0, p.1@);
        assert(acc@.map_values(m) + Seq::<(Symbol, FunctionSymbolV)>::empty()
            =~= acc@.map_values(m));
    }
    Some((acc, cur))
}

fn dec_fns(v: &Vec<u64>, pos: usize) -> (r: Option<(Vec<(Symbol, FunctionSymbol)>, usize)>)
    ensures
        match r {
            Some((es, q)) => sdec_fns(v@, pos as int)
                == Some((es@.map_values(|p: (Symbol, FunctionSymbol)| (p.0, p.1@)), q as int)),
            None => sdec_fns(v@, pos as int) is None,
        },
{
    match dec_usize(v, pos) {
        Some((n, j)) => dec_fn_list(v, j, n),
        None => None,
    }
}

fn dec_fin_list(v: &Vec<u64>, pos: usize, n: usize)
    -> (r: Option<(Vec<(Symbol, FinalizeData)>, usize)>)
    ensures
        match r {
            Some((es, q)) => sdec_fin_list(v@, pos as int, n as nat)
                == Some((es@.map_values(|p: (Symbol, FinalizeData)| (p.0, p.1@)), q as int)),
            None => sdec_fin_list(v@, pos as int, n as nat) is None,
        },
{
    let mut acc: Vec<(Symbol, FinalizeData)> = Vec::new();
    let mut cur: usize = pos;
    let mut k: usize = 0;
    while k < n
        invariant
            k <= n,
            match sdec_fin_list(v@, cur as int, (n - k) as nat) {
                Some((ys, j)) => sdec_fin_list(v@, pos as int, n as nat)
                    == Some((acc@.map_values(|p: (Symbol, FinalizeData)| (p.0, p.1@)) + ys, j)),
                None => sdec_fin_list(v@, pos as int, n as nat) is None,
            },
        decreases n - k,
    {
        let (w, j1) = match dec_word(v, cur) {
            Some(x) => x,
            None => {
                return None;
            }
        };
        let (d, q) = match dec_fin(v, j1) {
            Some(x) => x,
            None => {
                return None;
            }
        };
        let ghost acc0 = acc@;
        let ghost e = (Symbol(w), d@);
        acc.push((Symbol(w), d));
        proof {
            let m = |p: (Symbol, FinalizeData)| (p.0, p.1@);
            assert(acc@.map_values(m) =~= acc0.map_values(m).push(e));
            match sdec_fin_list(v@, q as int, (n - k - 1) as nat) {
                Some((ys2, j2)) => {
                    assert(acc0.map_values(m) + (seq![e] + ys2)
                        =~= acc@.map_values(m) + ys2);
                }
                None => {}
            }
        }
        cur = q;
        k = k + 1;
    }
    proof {
        let m = |p: (Symbol, FinalizeData)| (p.0, p.1@);
        assert(acc@.map_values(m) + Seq::<(Symbol, FinalizeDataV)>::empty()
            =~= acc@.map_values(m));
    }
    Some((acc, cur))
}

fn dec_fins(v: &Vec<u64>, pos: usize) -> (r: Option<(Vec<(Symbol, FinalizeData)>, usize)>)
    ensures
        match r {
            Some((es, q)) => sdec_fins(v@, pos as int)
                == Some((es@.map_values(|p: (Symbol, FinalizeData)| (p.0, p.1@)), q as int)),
            None => sdec_fins(v@, pos as int) is None,
        },
{
    match dec_usize(v, pos) {
        Some((n, j)) => dec_fin_list(v, j, n),
        None => None,
    }
}

fn dec_scope(v: &Vec<u64>, pos: usize) -> (r: Option<(Scope, usize)>)
    ensures
        match r {
            Some((sc, q)) => sdec_scope(v@, pos as int) == Some((sc@, q as int)),
            None => sdec_scope(v@, pos as int) is None,
        },
{
    let (parent, j1) = match dec_parent(v, pos) {
        Some(x) => x,
        None => {
            return None;
        }
    };
    let (sealed, j2) = match dec_bool(v, j1) {
        Some(x) => x,
        None => {
            return None;
        }
    };
    let (functions, j3) = match dec_fns(v, j2) {
        Some(x) => x,
        None => {
            return None;
        }
    };
    let (finalizes, j4) = match dec_fins(v, j3) {
        Some(x) => x,
        None => {
            return None;
        }
    };
    Some((Scope { parent, functions, finalizes, sealed }, j4))
}

fn dec_scope_list(v: &Vec<u64>, pos: usize, n: usize) -> (r: Option<(Vec<Scope>, usize)>)
    ensures
        match r {
            Some((ss, q)) => sdec_scope_list(v@, pos as int, n as nat)
                == Some((ss@.map_values(|sc: Scope| sc@), q as int)),
            None => sdec_scope_list(v@, pos as int, n as nat) is None,
        },
{
    let mut acc: Vec<Scope> = Vec::new();
    let mut cur: usize = pos;
    let mut k: usize = 0;
    while k < n
        invariant
            k <= n,
            match sdec_scope_list(v@, cur as int, (n - k) as nat) {
                Some((ys, j)) => sdec_scope_list(v@, pos as int, n as nat)
                    == Some((acc@.map_values(|sc: Scope| sc@) + ys, j)),
                None => sdec_scope_list(v@, pos as int, n as nat) is None,
            },
        decreases n - k,
    {
        let (sc, q) = match dec_scope(v, cur) {
            Some(x) => x,
            None => {
                return None;
            }
        };
        let ghost acc0 = acc@;
        let ghost e = sc@;
        acc.push(sc);
        proof {
            let m = |sc: Scope| sc@;
            assert(acc@.map_values(m) =~= acc0.map_values(m).push(e));
            match sdec_scope_list(v@, q as int, (n - k - 1) as nat) {
                Some((ys2, j2)) => {
                    assert(acc0.map_values(m) + (seq![e] + ys2)
                        =~= acc@.map_values(m) + ys2);
                }
                None => {}
            }
        }
        cur = q;
        k = k + 1;
    }
    proof {
        let m = |sc: Scope| sc@;
        assert(acc@.map_values(m) + Seq::<ScopeV>::empty() =~= acc@.map_values(m));
    }
    Some((acc, cur))
}

/// Reads a table back from a stream of words. Answers exactly when the whole
/// stream is one table encoding, and then with the encoded table.
pub fn decode_table(v: &Vec<u64>) -> (r: Option<SymbolTable>)
    ensures
        match sdec_table(v@, 0) {
            Some((tv, j)) => if j == v@.len() {
                r matches Some(t) && t@ == tv
            } else {
                r is None
            },
            None => r is None,
        },
{
    let (n, j) = match dec_usize(v, 0) {
        Some(x) => x,
        None => {
            return None;
        }
    };
    let (scopes, q) = match dec_scope_list(v, j, n) {
        Some(x) => x,
        None => {
            return None;
        }
    };
    if q == v.len() {
        Some(SymbolTable { scopes })
    } else {
        None
    }
}

/// Law: round trip. Decoding the encoding of any bounded table yields that
/// very table, with the whole stream consumed.
pub proof fn lemma_round_trip(t: SymbolTableV)
    requires
        table_bounded(t),
    ensures
        sdec_table(enc_table(t), 0) == Some((t, enc_table(t).len() as int)),
{
    let s = enc_table(t);
    assert(s.subrange(0, s.len() as int) =~= s);
    assert(has_at(s, 0, seq![t.scopes.len() as u64] + enc_scope_list(t.scopes)));
    lemma_has_at_split(s, 0, seq![t.scopes.len() as u64], enc_scope_list(t.scopes));
    lemma_rt_usize(s, 0, t.scopes.len() as usize);
    lemma_rt_scope_list(s, 1, t.scopes);
}

} // verus!

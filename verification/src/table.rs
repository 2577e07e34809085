//! The symbol table: a tree of scopes held in one growable arena, keyed by
//! dense, never-reused scope identifiers. The builder pass creates scopes,
//! inserts function entries and attaches finalize metadata; later passes
//! resolve names by walking the parent chain outward, innermost scope wins.

use vstd::prelude::*;
use crate::symbol::{Symbol, FunctionSymbol, FinalizeData, Function, FunctionSymbolV, FinalizeDataV};

verus! {

/// Every failure an operation can report. All are values, never aborts.
#[derive(Clone, Copy, Debug, PartialEq, Eq, Structural)]
pub enum SymbolTableError {
    /// The same name was inserted twice in one scope.
    DuplicateDeclaration,
    /// Finalize metadata was attached under a name the scope does not declare.
    UnknownFunction,
    /// Finalize metadata was attached to a synchronous callable.
    NotAsync,
    /// Scope creation referenced a nonexistent parent.
    InvalidParentScope,
    /// An insertion was attempted after the scope's construction phase ended.
    ScopeSealed,
}

/// Resolves `name` to the value of its first entry in `entries`.
pub open spec fn find_entry<T>(entries: Seq<(Symbol, T)>, name: Symbol) -> Option<T>
    decreases entries.len(),
{
    if entries.len() == 0 {
        None
    } else if entries[0].0 == name {
        Some(entries[0].1)
    } else {
        find_entry(entries.drop_first(), name)
    }
}

/// No two entries bind the same name.
pub open spec fn unique_keys<T>(entries: Seq<(Symbol, T)>) -> bool {
    forall|j: int, k: int|
        #![trigger entries[j], entries[k]]
        0 <= j < k < entries.len() ==> entries[j].0 != entries[k].0
}

pub proof fn lemma_find_entry_none<T>(entries: Seq<(Symbol, T)>, name: Symbol)
    ensures
        find_entry(entries, name) is None <==> (forall|j: int|
            0 <= j < entries.len() ==> (#[trigger] entries[j]).0 != name),
    decreases entries.len(),
{
    if entries.len() > 0 && entries[0].0 != name {
        let rest = entries.drop_first();
        lemma_find_entry_none(rest, name);
        if find_entry(entries, name) is None {
            assert forall|j: int| 0 <= j < entries.len()
                implies (#[trigger] entries[j]).0 != name by {
                if j > 0 {
                    assert(rest[j - 1] == entries[j]);
                }
            }
        }
        if forall|j: int| 0 <= j < entries.len() ==> (#[trigger] entries[j]).0 != name {
            assert forall|j: int| 0 <= j < rest.len()
                implies (#[trigger] rest[j]).0 != name by {
                assert(rest[j] == entries[j + 1]);
            }
        }
    }
}

pub proof fn lemma_find_entry_first<T>(entries: Seq<(Symbol, T)>, name: Symbol, i: int)
    requires
        0 <= i < entries.len(),
        entries[i].0 == name,
        forall|j: int| 0 <= j < i ==> (#[trigger] entries[j]).0 != name,
    ensures
        find_entry(entries, name) == Some(entries[i].1),
    decreases i,
{
    if i > 0 {
        lemma_find_entry_first(entries.drop_first(), name, i - 1);
    }
}

pub proof fn lemma_find_entry_push<T>(entries: Seq<(Symbol, T)>, name: Symbol, p: (Symbol, T))
    ensures
        find_entry(entries.push(p), name) == (if find_entry(entries, name) is Some {
            find_entry(entries, name)
        } else if p.0 == name {
            Some(p.1)
        } else {
            None
        }),
    decreases entries.len(),
{
    if entries.len() == 0 {
        assert(entries.push(p)[0] == p);
        if p.0 != name {
            assert(entries.push(p).drop_first() =~= Seq::<(Symbol, T)>::empty());
            assert(find_entry(Seq::<(Symbol, T)>::empty(), name) is None);
        }
        assert(find_entry(entries.push(p), name) == (if p.0 == name {
            Some(p.1)
        } else {
            None
        }));
    } else if entries[0].0 == name {
        assert(entries.push(p)[0] == entries[0]);
        assert(find_entry(entries.push(p), name) == Some(entries[0].1));
    } else {
        assert(entries.push(p)[0] == entries[0]);
        assert(entries.push(p).drop_first() =~= entries.drop_first().push(p));
        lemma_find_entry_push(entries.drop_first(), name, p);
        assert(find_entry(entries.push(p), name)
            == find_entry(entries.drop_first().push(p), name));
    }
}

pub proof fn lemma_find_entry_update<T>(entries: Seq<(Symbol, T)>, i: int, val: T, m: Symbol)
    requires
        0 <= i < entries.len(),
        forall|j: int| 0 <= j < i ==> (#[trigger] entries[j]).0 != entries[i].0,
    ensures
        find_entry(entries.update(i, (entries[i].0, val)), m) == (if m == entries[i].0 {
            Some(val)
        } else {
            find_entry(entries, m)
        }),
    decreases i,
{
    let updated = entries.update(i, (entries[i].0, val));
    if i == 0 {
        if m != entries[0].0 {
            assert(updated.drop_first() =~= entries.drop_first());
        }
    } else {
        assert(updated.drop_first() =~= entries.drop_first().update(i - 1, (entries[i].0, val)));
        assert(entries.drop_first()[i - 1] == entries[i]);
        lemma_find_entry_update(entries.drop_first(), i - 1, val, m);
    }
}

/// Ghost model of one scope.
pub struct ScopeV {
    pub parent: Option<usize>,
    pub functions: Seq<(Symbol, FunctionSymbolV)>,
    pub finalizes: Seq<(Symbol, FinalizeDataV)>,
    pub sealed: bool,
}

/// Ghost model of the whole table: the scope arena, index = scope id.
pub struct SymbolTableV {
    pub scopes: Seq<ScopeV>,
}

impl SymbolTableV {
    pub open spec fn valid_scope(self, s: int) -> bool {
        0 <= s < self.scopes.len()
    }

    /// Well-formedness of the scope at index `i`: its parent predates it (the
    /// root, index 0, has none), names are unique within it, every entry is
    /// structurally sound and points into the arena, and finalize metadata
    /// exists only under the name of an asynchronous function of the same
    /// scope.
    pub open spec fn scope_wf(self, i: int) -> bool {
        let sc = self.scopes[i];
        &&& match sc.parent {
            Some(p) => 0 <= p < i,
            None => i == 0,
        }
        &&& unique_keys(sc.functions)
        &&& unique_keys(sc.finalizes)
        &&& forall|j: int| 0 <= j < sc.functions.len() ==> (#[trigger] sc.functions[j]).1.wf()
            && sc.functions[j].1.id < self.scopes.len()
        &&& forall|j: int| 0 <= j < sc.finalizes.len()
            ==> match find_entry(sc.functions, (#[trigger] sc.finalizes[j]).0) {
                Some(f) => f.is_async,
                None => false,
            }
    }

    pub open spec fn wf(self) -> bool {
        &&& self.scopes.len() >= 1
        &&& forall|i: int| 0 <= i < self.scopes.len() ==> #[trigger] self.scope_wf(i)
    }

    /// Whether scope `t` lies on the parent chain of scope `s` (inclusively).
    pub open spec fn in_chain(self, s: int, t: int) -> bool
        decreases s,
        when self.wf() && self.valid_scope(s)
        via Self::in_chain_dec
    {
        s == t || match self.scopes[s].parent {
            Some(p) => self.in_chain(p as int, t),
            None => false,
        }
    }

    #[via_fn]
    proof fn in_chain_dec(self, s: int, t: int) {
        assert(self.scope_wf(s));
    }

    /// The scope that resolves `name` when resolution starts at `s`: the
    /// first scope on the parent chain with an entry for `name`.
    pub open spec fn resolve_scope(self, s: int, name: Symbol) -> Option<int>
        decreases s,
        when self.wf() && self.valid_scope(s)
        via Self::resolve_scope_dec
    {
        if find_entry(self.scopes[s].functions, name) is Some {
            Some(s)
        } else {
            match self.scopes[s].parent {
                Some(p) => self.resolve_scope(p as int, name),
                None => None,
            }
        }
    }

    #[via_fn]
    proof fn resolve_scope_dec(self, s: int, name: Symbol) {
        assert(self.scope_wf(s));
    }

    /// Shadowing-aware resolution of a function entry.
    pub open spec fn lookup(self, s: int, name: Symbol) -> Option<FunctionSymbolV> {
        match self.resolve_scope(s, name) {
            Some(t) => find_entry(self.scopes[t].functions, name),
            None => None,
        }
    }

    /// Resolution of the finalize companion: the metadata attached, in the
    /// scope that resolves `name`, under that name. Absent when the resolved
    /// function is not asynchronous.
    pub open spec fn lookup_finalize(self, s: int, name: Symbol) -> Option<FinalizeDataV> {
        match self.resolve_scope(s, name) {
            Some(t) => find_entry(self.scopes[t].finalizes, name),
            None => None,
        }
    }

    /// A finished table: the builder pass has attached finalize metadata to
    /// every asynchronous entry, in the entry's declaring scope.
    pub open spec fn finalized(self) -> bool {
        forall|i: int, j: int|
            0 <= i < self.scopes.len() && 0 <= j < self.scopes[i].functions.len()
                && (#[trigger] self.scopes[i].functions[j]).1.is_async
                ==> find_entry(self.scopes[i].finalizes, self.scopes[i].functions[j].0) is Some
    }
}

pub proof fn lemma_in_chain_bounds(t: SymbolTableV, s: int, c: int)
    requires
        t.wf(),
        t.valid_scope(s),
        t.in_chain(s, c),
    ensures
        0 <= c <= s,
    decreases s,
{
    if s != c {
        assert(t.scope_wf(s));
        let p = t.scopes[s].parent.unwrap() as int;
        lemma_in_chain_bounds(t, p, c);
    }
}

/// Resolution characterized over the parent chain: a hit is a scope on the
/// chain that declares the name; a miss means no scope on the chain does.
pub proof fn lemma_resolve_in_chain(t: SymbolTableV, s: int, name: Symbol)
    requires
        t.wf(),
        t.valid_scope(s),
    ensures
        match t.resolve_scope(s, name) {
            Some(r) => t.valid_scope(r) && t.in_chain(s, r)
                && find_entry(t.scopes[r].functions, name) is Some,
            None => forall|i: int| #[trigger] t.in_chain(s, i) && t.valid_scope(i)
                ==> find_entry(t.scopes[i].functions, name) is None,
        },
    decreases s,
{
    assert(t.scope_wf(s));
    if find_entry(t.scopes[s].functions, name) is Some {
        assert(t.in_chain(s, s));
    } else {
        match t.scopes[s].parent {
            Some(p) => {
                lemma_resolve_in_chain(t, p as int, name);
                match t.resolve_scope(p as int, name) {
                    Some(r) => {
                        assert(t.in_chain(s, r));
                    }
                    None => {
                        assert forall|i: int| #[trigger] t.in_chain(s, i) && t.valid_scope(i)
                            implies find_entry(t.scopes[i].functions, name) is None by {
                            if i != s {
                                assert(t.in_chain(p as int, i));
                            }
                        }
                    }
                }
            }
            None => {
                assert forall|i: int| #[trigger] t.in_chain(s, i) && t.valid_scope(i)
                    implies find_entry(t.scopes[i].functions, name) is None by {
                    assert(i == s);
                }
            }
        }
    }
}

/// Resolution from `s` reads only the scopes on the parent chain of `s`:
/// two well-formed tables that agree on that chain resolve alike.
pub proof fn lemma_lookup_agree(t1: SymbolTableV, t2: SymbolTableV, s: int, name: Symbol)
    requires
        t1.wf(),
        t2.wf(),
        t1.valid_scope(s),
        t2.valid_scope(s),
        forall|i: int| #[trigger] t1.in_chain(s, i) && t1.valid_scope(i)
            ==> t2.valid_scope(i) && t2.scopes[i].parent == t1.scopes[i].parent
                && t2.scopes[i].functions == t1.scopes[i].functions
                && t2.scopes[i].finalizes == t1.scopes[i].finalizes,
    ensures
        t1.resolve_scope(s, name) == t2.resolve_scope(s, name),
        t1.lookup(s, name) == t2.lookup(s, name),
        t1.lookup_finalize(s, name) == t2.lookup_finalize(s, name),
    decreases s,
{
    assert(t1.scope_wf(s));
    assert(t1.in_chain(s, s));
    if find_entry(t1.scopes[s].functions, name) is Some {
    } else {
        match t1.scopes[s].parent {
            Some(p) => {
                assert(forall|i: int| #[trigger] t1.in_chain(p as int, i) ==> t1.in_chain(s, i));
                lemma_lookup_agree(t1, t2, p as int, name);
                match t1.resolve_scope(p as int, name) {
                    Some(r) => {
                        lemma_resolve_in_chain(t1, p as int, name);
                        assert(t1.in_chain(s, r));
                    }
                    None => {}
                }
            }
            None => {}
        }
    }
}

/// One scope of the table. `parent` is a non-owning back-reference used only
/// for upward lookup; `sealed` closes the scope against further insertions
/// while leaving it queryable forever.
pub struct Scope {
    pub parent: Option<usize>,
    pub functions: Vec<(Symbol, FunctionSymbol)>,
    pub finalizes: Vec<(Symbol, FinalizeData)>,
    pub sealed: bool,
}

impl View for Scope {
    type V = ScopeV;

    open spec fn view(&self) -> ScopeV {
        ScopeV {
            parent: self.parent,
            functions: self.functions@.map_values(|p: (Symbol, FunctionSymbol)| (p.0, p.1@)),
            finalizes: self.finalizes@.map_values(|p: (Symbol, FinalizeData)| (p.0, p.1@)),
            sealed: self.sealed,
        }
    }
}

/// The full scope tree plus lookup logic; the only component other passes
/// interact with.
pub struct SymbolTable {
    pub scopes: Vec<Scope>,
}

impl View for SymbolTable {
    type V = SymbolTableV;

    open spec fn view(&self) -> SymbolTableV {
        SymbolTableV { scopes: self.scopes@.map_values(|sc: Scope| sc@) }
    }
}

/// Finds the first entry bound to `name`, as an index.
fn find_key<T>(entries: &Vec<(Symbol, T)>, name: Symbol) -> (r: Option<usize>)
    ensures
        match r {
            Some(i) => i < entries@.len() && entries@[i as int].0 == name
                && forall|j: int| 0 <= j < i ==> (#[trigger] entries@[j]).0 != name,
            None => forall|j: int| 0 <= j < entries@.len()
                ==> (#[trigger] entries@[j]).0 != name,
        },
{
    let mut i: usize = 0;
    while i < entries.len()
        invariant
            i <= entries@.len(),
            forall|j: int| 0 <= j < i ==> (#[trigger] entries@[j]).0 != name,
        decreases entries@.len() - i,
    {
        if entries[i].0 == name {
            return Some(i);
        }
        i = i + 1;
    }
    None
}

impl SymbolTable {
    /// A fresh table holding only the open root scope, id 0.
    pub fn new() -> (r: SymbolTable)
        ensures
            r@.wf(),
            r@.scopes.len() == 1,
            r@.scopes[0].parent is None,
            r@.scopes[0].functions.len() == 0,
            r@.scopes[0].finalizes.len() == 0,
            !r@.scopes[0].sealed,
            forall|n: Symbol| r@.lookup(0, n) is None,
            forall|n: Symbol| r@.lookup_finalize(0, n) is None,
    {
        let mut scopes: Vec<Scope> = Vec::new();
        scopes.push(Scope { parent: None, functions: Vec::new(), finalizes: Vec::new(), sealed: false });
        let r = SymbolTable { scopes };
        proof {
            assert(r@.scope_wf(0));
            assert(forall|n: Symbol| r@.resolve_scope(0, n) is None);
        }
        r
    }

    /// Builds an entry from a declaration and the identifier of the scope
    /// that will hold its body; every field of the declaration is copied
    /// verbatim. Construction cannot fail.
    pub fn new_function_symbol(id: usize, func: &Function) -> (r: FunctionSymbol)
        ensures
            r.id == id,
            r.is_async == func.is_async,
            r.output_type == func.output_type,
            r.variant == func.variant,
            r.span == func.span,
            r.input@ == func.input@,
    {
        FunctionSymbol {
            id,
            is_async: func.is_async,
            output_type: func.output_type,
            variant: func.variant,
            span: func.span,
            input: crate::symbol::clone_inputs(&func.input),
        }
    }

    /// Allocates a new, empty scope as a child of `parent` and returns its
    /// fresh, monotonically increasing identifier. Every lookup answered
    /// before is answered the same afterwards, and the new scope initially
    /// resolves exactly what its parent resolves.
    pub fn create_scope(&mut self, parent: usize) -> (r: Result<usize, SymbolTableError>)
        requires
            old(self)@.wf(),
        ensures
            final(self)@.wf(),
            match r {
                Ok(id) => {
                    &&& old(self)@.valid_scope(parent as int)
                    &&& id == old(self)@.scopes.len()
                    &&& final(self)@.scopes.len() == old(self)@.scopes.len() + 1
                    &&& forall|i: int| 0 <= i < old(self)@.scopes.len()
                        ==> final(self)@.scopes[i] == old(self)@.scopes[i]
                    &&& final(self)@.scopes[id as int].parent == Some(parent)
                    &&& final(self)@.scopes[id as int].functions.len() == 0
                    &&& final(self)@.scopes[id as int].finalizes.len() == 0
                    &&& !final(self)@.scopes[id as int].sealed
                    &&& forall|s: int, n: Symbol| old(self)@.valid_scope(s)
                        ==> #[trigger] final(self)@.lookup(s, n) == old(self)@.lookup(s, n)
                            && final(self)@.lookup_finalize(s, n) == old(self)@.lookup_finalize(s, n)
                    &&& forall|n: Symbol| #[trigger] final(self)@.lookup(id as int, n)
                        == old(self)@.lookup(parent as int, n)
                    &&& forall|n: Symbol| #[trigger] final(self)@.lookup_finalize(id as int, n)
                        == old(self)@.lookup_finalize(parent as int, n)
                }
                Err(e) => {
                    &&& e == SymbolTableError::InvalidParentScope
                    &&& !old(self)@.valid_scope(parent as int)
                    &&& *final(self) == *old(self)
                }
            },
    {
        if parent >= self.scopes.len() {
            return Err(SymbolTableError::InvalidParentScope);
        }
        let id = self.scopes.len();
        self.scopes.push(Scope { parent: Some(parent), functions: Vec::new(), finalizes: Vec::new(), sealed: false });
        proof {
            let t1 = old(self)@;
            let t2 = self@;
            assert(t2.scopes =~= t1.scopes.push(t2.scopes[id as int]));
            assert forall|i: int| 0 <= i < t2.scopes.len() implies t2.scope_wf(i) by {
                if i < id {
                    assert(t1.scope_wf(i));
                }
            }
            assert forall|s: int, n: Symbol| t1.valid_scope(s)
                implies t2.lookup(s, n) == t1.lookup(s, n)
                    && t2.lookup_finalize(s, n) == t1.lookup_finalize(s, n) by {
                assert forall|i: int| #[trigger] t1.in_chain(s, i) && t1.valid_scope(i)
                    implies t2.valid_scope(i) && t2.scopes[i].parent == t1.scopes[i].parent
                        && t2.scopes[i].functions == t1.scopes[i].functions
                        && t2.scopes[i].finalizes == t1.scopes[i].finalizes by {
                    lemma_in_chain_bounds(t1, s, i);
                }
                lemma_lookup_agree(t1, t2, s, n);
            }
            assert forall|n: Symbol| t2.lookup(id as int, n) == t1.lookup(parent as int, n) by {
                assert(find_entry(t2.scopes[id as int].functions, n) is None);
                assert(t2.resolve_scope(id as int, n) == t2.resolve_scope(parent as int, n));
                assert(t2.lookup(id as int, n) == t2.lookup(parent as int, n));
                assert(t2.lookup(parent as int, n) == t1.lookup(parent as int, n));
            }
        }
        Ok(id)
    }

    /// Adds `symbol` under `name` in `scope`. Shadowing an outer declaration
    /// is legal; redeclaring within the same scope, or inserting into a
    /// sealed scope, is rejected and leaves the table unchanged. The entry
    /// itself must be sound — an inlined callable is never asynchronous, and
    /// its body scope must exist — since malformed declarations are rejected
    /// by earlier layers, not here.
    pub fn insert_function(&mut self, scope: usize, name: Symbol, symbol: FunctionSymbol)
        -> (r: Result<(), SymbolTableError>)
        requires
            old(self)@.wf(),
            old(self)@.valid_scope(scope as int),
            symbol@.wf(),
            (symbol.id as int) < old(self)@.scopes.len(),
        ensures
            final(self)@.wf(),
            match r {
                Ok(_) => {
                    &&& !old(self)@.scopes[scope as int].sealed
                    &&& find_entry(old(self)@.scopes[scope as int].functions, name) is None
                    &&& final(self)@.scopes.len() == old(self)@.scopes.len()
                    &&& forall|i: int| 0 <= i < old(self)@.scopes.len() && i != scope as int
                        ==> final(self)@.scopes[i] == old(self)@.scopes[i]
                    &&& final(self)@.scopes[scope as int].functions
                        == old(self)@.scopes[scope as int].functions.push((name, symbol@))
                    &&& final(self)@.scopes[scope as int].parent
                        == old(self)@.scopes[scope as int].parent
                    &&& final(self)@.scopes[scope as int].finalizes
                        == old(self)@.scopes[scope as int].finalizes
                    &&& final(self)@.scopes[scope as int].sealed
                        == old(self)@.scopes[scope as int].sealed
                    &&& find_entry(final(self)@.scopes[scope as int].functions, name)
                        == Some(symbol@)
                    &&& forall|m: Symbol| m != name
                        ==> #[trigger] find_entry(final(self)@.scopes[scope as int].functions, m)
                            == find_entry(old(self)@.scopes[scope as int].functions, m)
                    &&& final(self)@.lookup(scope as int, name) == Some(symbol@)
                }
                Err(e) => {
                    &&& *final(self) == *old(self)
                    &&& if old(self)@.scopes[scope as int].sealed {
                        e == SymbolTableError::ScopeSealed
                    } else {
                        e == SymbolTableError::DuplicateDeclaration
                            && find_entry(old(self)@.scopes[scope as int].functions, name) is Some
                    }
                }
            },
    {
        if self.scopes[scope].sealed {
            return Err(SymbolTableError::ScopeSealed);
        }
        let ghost t1 = self@;
        let ghost fns1 = self@.scopes[scope as int].functions;
        match find_key(&self.scopes[scope].functions, name) {
            Some(i) => {
                proof {
                    lemma_find_entry_first(fns1, name, i as int);
                }
                Err(SymbolTableError::DuplicateDeclaration)
            }
            None => {
                proof {
                    lemma_find_entry_none(fns1, name);
                }
                self.scopes[scope].functions.push((name, symbol));
                proof {
                    let t2 = self@;
                    assert(t2.scopes =~= t1.scopes.update(scope as int, t2.scopes[scope as int]));
                    assert(t2.scopes[scope as int].functions =~= fns1.push((name, symbol@)));
                    lemma_find_entry_push(fns1, name, (name, symbol@));
                    assert forall|m: Symbol| m != name
                        implies #[trigger] find_entry(t2.scopes[scope as int].functions, m)
                            == find_entry(fns1, m) by {
                        lemma_find_entry_push(fns1, m, (name, symbol@));
                    }
                    assert forall|i: int| 0 <= i < t2.scopes.len() implies t2.scope_wf(i) by {
                        assert(t1.scope_wf(i));
                        if i == scope as int {
                            let sc1 = t1.scopes[i];
                            let sc2 = t2.scopes[i];
                            assert(forall|j: int| 0 <= j < sc1.functions.len()
                                ==> #[trigger] sc2.functions[j] == sc1.functions[j]);
                            assert forall|j: int| 0 <= j < sc2.finalizes.len()
                                implies match find_entry(sc2.functions, (#[trigger] sc2.finalizes[j]).0) {
                                    Some(f) => f.is_async,
                                    None => false,
                                } by {
                                lemma_find_entry_push(fns1, sc2.finalizes[j].0, (name, symbol@));
                            }
                        }
                    }
                    assert(t2.resolve_scope(scope as int, name) == Some(scope as int));
                }
                Ok(())
            }
        }
    }

    /// Associates finalize metadata with an existing function of `scope`.
    /// Succeeds exactly when the scope is open, declares `name`, and that
    /// declaration is asynchronous; a repeated attachment replaces the
    /// earlier metadata. Failure leaves the table unchanged.
    pub fn attach_finalize(&mut self, scope: usize, name: Symbol, data: FinalizeData)
        -> (r: Result<(), SymbolTableError>)
        requires
            old(self)@.wf(),
            old(self)@.valid_scope(scope as int),
        ensures
            final(self)@.wf(),
            match r {
                Ok(_) => {
                    &&& !old(self)@.scopes[scope as int].sealed
                    &&& match find_entry(old(self)@.scopes[scope as int].functions, name) {
                        Some(f) => f.is_async,
                        None => false,
                    }
                    &&& final(self)@.scopes.len() == old(self)@.scopes.len()
                    &&& forall|i: int| 0 <= i < old(self)@.scopes.len() && i != scope as int
                        ==> final(self)@.scopes[i] == old(self)@.scopes[i]
                    &&& final(self)@.scopes[scope as int].parent
                        == old(self)@.scopes[scope as int].parent
                    &&& final(self)@.scopes[scope as int].functions
                        == old(self)@.scopes[scope as int].functions
                    &&& final(self)@.scopes[scope as int].sealed
                        == old(self)@.scopes[scope as int].sealed
                    &&& find_entry(final(self)@.scopes[scope as int].finalizes, name)
                        == Some(data@)
                    &&& forall|m: Symbol| m != name
                        ==> #[trigger] find_entry(final(self)@.scopes[scope as int].finalizes, m)
                            == find_entry(old(self)@.scopes[scope as int].finalizes, m)
                    &&& final(self)@.lookup_finalize(scope as int, name) == Some(data@)
                }
                Err(e) => {
                    &&& *final(self) == *old(self)
                    &&& if old(self)@.scopes[scope as int].sealed {
                        e == SymbolTableError::ScopeSealed
                    } else {
                        match find_entry(old(self)@.scopes[scope as int].functions, name) {
                            None => e == SymbolTableError::UnknownFunction,
                            Some(f) => !f.is_async && e == SymbolTableError::NotAsync,
                        }
                    }
                }
            },
    {
        if self.scopes[scope].sealed {
            return Err(SymbolTableError::ScopeSealed);
        }
        let ghost t1 = self@;
        let ghost fns1 = self@.scopes[scope as int].functions;
        let ghost fin1 = self@.scopes[scope as int].finalizes;
        let fn_idx = match find_key(&self.scopes[scope].functions, name) {
            Some(i) => i,
            None => {
                proof {
                    lemma_find_entry_none(fns1, name);
                }
                return Err(SymbolTableError::UnknownFunction);
            }
        };
        proof {
            lemma_find_entry_first(fns1, name, fn_idx as int);
        }
        if !self.scopes[scope].functions[fn_idx].1.is_async {
            return Err(SymbolTableError::NotAsync);
        }
        match find_key(&self.scopes[scope].finalizes, name) {
            Some(j) => {
                self.scopes[scope].finalizes[j] = (name, data);
                proof {
                    let t2 = self@;
                    assert(t2.scopes =~= t1.scopes.update(scope as int, t2.scopes[scope as int]));
                    let fin2 = t2.scopes[scope as int].finalizes;
                    assert(fin2 =~= fin1.update(j as int, (name, data@)));
                    assert(fin1[j as int].0 == name);
                    assert(fin2 =~= fin1.update(j as int, (fin1[j as int].0, data@)));
                    assert forall|m: Symbol| true
                        implies #[trigger] find_entry(fin2, m) == (if m == name {
                            Some(data@)
                        } else {
                            find_entry(fin1, m)
                        }) by {
                        lemma_find_entry_update(fin1, j as int, data@, m);
                    }
                    assert(t1.scope_wf(scope as int));
                    assert forall|i: int| 0 <= i < t2.scopes.len() implies t2.scope_wf(i) by {
                        assert(t1.scope_wf(i));
                        if i == scope as int {
                            assert(forall|k: int| 0 <= k < fin1.len()
                                ==> (#[trigger] fin2[k]).0 == fin1[k].0);
                        }
                    }
                    assert(t2.resolve_scope(scope as int, name) == Some(scope as int));
                }
                Ok(())
            }
            None => {
                proof {
                    lemma_find_entry_none(fin1, name);
                }
                self.scopes[scope].finalizes.push((name, data));
                proof {
                    let t2 = self@;
                    assert(t2.scopes =~= t1.scopes.update(scope as int, t2.scopes[scope as int]));
                    let fin2 = t2.scopes[scope as int].finalizes;
                    assert(fin2 =~= fin1.push((name, data@)));
                    lemma_find_entry_push(fin1, name, (name, data@));
                    assert forall|m: Symbol| m != name
                        implies #[trigger] find_entry(fin2, m) == find_entry(fin1, m) by {
                        lemma_find_entry_push(fin1, m, (name, data@));
                    }
                    assert(t1.scope_wf(scope as int));
                    assert forall|i: int| 0 <= i < t2.scopes.len() implies t2.scope_wf(i) by {
                        assert(t1.scope_wf(i));
                        if i == scope as int {
                            let sc2 = t2.scopes[i];
                            assert(forall|k: int| 0 <= k < fin1.len()
                                ==> #[trigger] sc2.finalizes[k] == fin1[k]);
                            assert forall|k: int| 0 <= k < sc2.finalizes.len()
                                implies match find_entry(sc2.functions, (#[trigger] sc2.finalizes[k]).0) {
                                    Some(f) => f.is_async,
                                    None => false,
                                } by {
                                if k < fin1.len() {
                                    assert(sc2.finalizes[k] == fin1[k]);
                                } else {
                                    assert(sc2.finalizes[k].0 == name);
                                }
                            }
                        }
                    }
                    assert(t2.resolve_scope(scope as int, name) == Some(scope as int));
                }
                Ok(())
            }
        }
    }

    /// Resolves `name` starting at `scope` and walking the parent chain
    /// outward; the innermost declaration wins. Side-effect-free.
    pub fn lookup_function(&self, scope: usize, name: Symbol) -> (r: Option<&FunctionSymbol>)
        requires
            self@.wf(),
            self@.valid_scope(scope as int),
        ensures
            match r {
                Some(f) => self@.lookup(scope as int, name) == Some(f@),
                None => self@.lookup(scope as int, name) is None,
            },
    {
        let mut cur: usize = scope;
        loop
            invariant
                self@.wf(),
                self@.valid_scope(cur as int),
                self@.resolve_scope(scope as int, name) == self@.resolve_scope(cur as int, name),
            decreases cur,
        {
            let ghost fns = self@.scopes[cur as int].functions;
            match find_key(&self.scopes[cur].functions, name) {
                Some(i) => {
                    proof {
                        lemma_find_entry_first(fns, name, i as int);
                        assert(self@.resolve_scope(cur as int, name) == Some(cur as int));
                    }
                    return Some(&self.scopes[cur].functions[i].1);
                }
                None => {
                    proof {
                        lemma_find_entry_none(fns, name);
                        assert(self@.scope_wf(cur as int));
                    }
                    match self.scopes[cur].parent {
                        Some(p) => {
                            cur = p;
                        }
                        None => {
                            return None;
                        }
                    }
                }
            }
        }
    }

    /// Resolves the finalize companion of `name` with the same resolution
    /// order as `lookup_function`; absent when the resolved function carries
    /// no metadata (in particular, when it is not asynchronous).
    pub fn lookup_finalize(&self, scope: usize, name: Symbol) -> (r: Option<&FinalizeData>)
        requires
            self@.wf(),
            self@.valid_scope(scope as int),
        ensures
            match r {
                Some(d) => self@.lookup_finalize(scope as int, name) == Some(d@),
                None => self@.lookup_finalize(scope as int, name) is None,
            },
    {
        let mut cur: usize = scope;
        loop
            invariant
                self@.wf(),
                self@.valid_scope(cur as int),
                self@.resolve_scope(scope as int, name) == self@.resolve_scope(cur as int, name),
            decreases cur,
        {
            let ghost fns = self@.scopes[cur as int].functions;
            let ghost fin = self@.scopes[cur as int].finalizes;
            match find_key(&self.scopes[cur].functions, name) {
                Some(i) => {
                    proof {
                        lemma_find_entry_first(fns, name, i as int);
                        assert(self@.resolve_scope(cur as int, name) == Some(cur as int));
                    }
                    return match find_key(&self.scopes[cur].finalizes, name) {
                        Some(j) => {
                            proof {
                                lemma_find_entry_first(fin, name, j as int);
                            }
                            Some(&self.scopes[cur].finalizes[j].1)
                        }
                        None => {
                            proof {
                                lemma_find_entry_none(fin, name);
                            }
                            None
                        }
                    };
                }
                None => {
                    proof {
                        lemma_find_entry_none(fns, name);
                        assert(self@.scope_wf(cur as int));
                    }
                    match self.scopes[cur].parent {
                        Some(p) => {
                            cur = p;
                        }
                        None => {
                            return None;
                        }
                    }
                }
            }
        }
    }

    /// Ends the construction phase of `scope`: later insertions and
    /// attachments are rejected, every lookup is answered as before.
    pub fn seal_scope(&mut self, scope: usize)
        requires
            old(self)@.wf(),
            old(self)@.valid_scope(scope as int),
        ensures
            final(self)@.wf(),
            final(self)@.scopes.len() == old(self)@.scopes.len(),
            forall|i: int| 0 <= i < old(self)@.scopes.len() && i != scope as int
                ==> final(self)@.scopes[i] == old(self)@.scopes[i],
            final(self)@.scopes[scope as int].sealed,
            final(self)@.scopes[scope as int].parent == old(self)@.scopes[scope as int].parent,
            final(self)@.scopes[scope as int].functions
                == old(self)@.scopes[scope as int].functions,
            final(self)@.scopes[scope as int].finalizes
                == old(self)@.scopes[scope as int].finalizes,
            forall|s: int, n: Symbol| old(self)@.valid_scope(s)
                ==> #[trigger] final(self)@.lookup(s, n) == old(self)@.lookup(s, n)
                    && final(self)@.lookup_finalize(s, n) == old(self)@.lookup_finalize(s, n),
    {
        let ghost t1 = self@;
        self.scopes[scope].sealed = true;
        proof {
            let t2 = self@;
            assert(t2.scopes =~= t1.scopes.update(scope as int, t2.scopes[scope as int]));
            assert forall|i: int| 0 <= i < t2.scopes.len() implies t2.scope_wf(i) by {
                assert(t1.scope_wf(i));
            }
            assert forall|s: int, n: Symbol| t1.valid_scope(s)
                implies t2.lookup(s, n) == t1.lookup(s, n)
                    && t2.lookup_finalize(s, n) == t1.lookup_finalize(s, n) by {
                lemma_lookup_agree(t1, t2, s, n);
            }
        }
    }
}

/// Law: a declaration is visible from every scope whose parent chain reaches
/// the declaring scope without passing a scope that redeclares the name.
pub proof fn lemma_visible_from_descendant(t: SymbolTableV, d: int, s: int, name: Symbol)
    requires
        t.wf(),
        t.valid_scope(d),
        t.in_chain(d, s),
        forall|i: int| #[trigger] t.in_chain(d, i) && t.valid_scope(i) && !t.in_chain(s, i)
            ==> find_entry(t.scopes[i].functions, name) is None,
        find_entry(t.scopes[s].functions, name) is Some,
    ensures
        t.resolve_scope(d, name) == Some(s),
        t.lookup(d, name) == find_entry(t.scopes[s].functions, name),
    decreases d,
{
    lemma_in_chain_bounds(t, d, s);
    assert(t.scope_wf(d));
    assert(t.in_chain(d, d));
    if d == s {
    } else {
        assert(t.in_chain(s, s));
        if t.in_chain(s, d) {
            lemma_in_chain_bounds(t, s, d);
            assert(false);
        }
        assert(find_entry(t.scopes[d].functions, name) is None);
        let p = t.scopes[d].parent.unwrap() as int;
        assert(forall|i: int| #[trigger] t.in_chain(p, i) ==> t.in_chain(d, i));
        lemma_visible_from_descendant(t, p, s, name);
    }
}

/// Law: shadowing. A scope that declares a name resolves it to its own entry,
/// and an outer scope that declares the same name keeps resolving its own.
pub proof fn lemma_shadowing(t: SymbolTableV, c: int, p: int, name: Symbol)
    requires
        t.wf(),
        t.valid_scope(c),
        t.valid_scope(p),
        find_entry(t.scopes[c].functions, name) is Some,
        find_entry(t.scopes[p].functions, name) is Some,
    ensures
        t.lookup(c, name) == find_entry(t.scopes[c].functions, name),
        t.lookup(p, name) == find_entry(t.scopes[p].functions, name),
{
    assert(t.resolve_scope(c, name) == Some(c));
    assert(t.resolve_scope(p, name) == Some(p));
}

/// Law: finalize metadata is resolvable only under the name of an
/// asynchronous function — whenever `lookup_finalize` answers, the same
/// lookup of the function answers with an asynchronous entry.
pub proof fn lemma_finalize_implies_async(t: SymbolTableV, s: int, name: Symbol)
    requires
        t.wf(),
        t.valid_scope(s),
    ensures
        t.lookup_finalize(s, name) is Some
            ==> (t.lookup(s, name) matches Some(f) && f.is_async),
{
    lemma_resolve_in_chain(t, s, name);
    match t.resolve_scope(s, name) {
        Some(r) => {
            assert(t.scope_wf(r));
            match find_entry(t.scopes[r].finalizes, name) {
                Some(_) => {
                    lemma_find_entry_none(t.scopes[r].finalizes, name);
                    let j = choose|j: int| 0 <= j < t.scopes[r].finalizes.len()
                        && (#[trigger] t.scopes[r].finalizes[j]).0 == name;
                }
                None => {}
            }
        }
        None => {}
    }
}

/// Law: in a finished, well-formed table, finalize metadata resolves under a
/// name exactly when that name resolves to an asynchronous function.
pub proof fn lemma_finalize_iff_async(t: SymbolTableV, s: int, name: Symbol)
    requires
        t.wf(),
        t.finalized(),
        t.valid_scope(s),
    ensures
        t.lookup_finalize(s, name) is Some
            <==> (t.lookup(s, name) matches Some(f) && f.is_async),
{
    lemma_finalize_implies_async(t, s, name);
    lemma_resolve_in_chain(t, s, name);
    match t.resolve_scope(s, name) {
        Some(r) => {
            assert(t.scope_wf(r));
            let fns = t.scopes[r].functions;
            match find_entry(fns, name) {
                Some(f) => {
                    if f.is_async {
                        lemma_find_entry_none(fns, name);
                        let j = choose|j: int|
                            0 <= j < fns.len() && (#[trigger] fns[j]).0 == name;
                        assert forall|k: int| 0 <= k < j implies (#[trigger] fns[k]).0
                            != name by {
                            assert(fns[k].0 != fns[j].0);
                        }
                        lemma_find_entry_first(fns, name, j);
                        assert(fns[j].1 == f);
                        assert(find_entry(t.scopes[r].finalizes, fns[j].0) is Some);
                    }
                }
                None => {}
            }
        }
        None => {}
    }
}

} // verus!


//! The record types a symbol table stores: one entry per declared callable,
//! plus the metadata of its on-chain finalize companion when it is
//! asynchronous.

use vstd::prelude::*;

verus! {

/// An interned identifier. Callers intern the textual name of a declaration
/// once and use the dense index everywhere, so name comparison is a single
/// integer comparison.
#[derive(Clone, Copy, Debug, PartialEq, Eq, Structural, Hash)]
pub struct Symbol(pub u64);

/// Opaque provenance token: the byte range a declaration came from. It is
/// carried verbatim for diagnostics and deliberately excluded from the
/// semantic equality of symbols.
#[derive(Clone, Copy, Debug, PartialEq, Eq, Structural)]
pub struct Span {
    pub lo: u64,
    pub hi: u64,
}

/// Calling convention of a callable: expanded at the call site, an ordinary
/// off-chain function, or an externally invocable transition.
#[derive(Clone, Copy, Debug, PartialEq, Eq, Structural)]
pub enum Variant {
    Inline,
    Standard,
    Transition,
}

/// Parameter passing mode of one input.
#[derive(Clone, Copy, Debug, PartialEq, Eq, Structural)]
pub enum Mode {
    Unspecified,
    Constant,
    Private,
    Public,
}

/// A declared type, as far as resolution needs it: the table stores types
/// verbatim and never inspects them, so a small closed set with an interned
/// escape hatch for named (struct/record) types is enough.
#[derive(Clone, Copy, Debug, PartialEq, Eq, Structural)]
pub enum Type {
    Unit,
    Boolean,
    Field,
    Address,
    Named(Symbol),
}

/// One positional parameter descriptor: mode and type, name-independent.
#[derive(Clone, Copy, Debug, PartialEq, Eq, Structural)]
pub struct Input {
    pub mode: Mode,
    pub type_: Type,
}

/// A function declaration as handed over by the tree-walking builder pass.
pub struct Function {
    pub is_async: bool,
    pub variant: Variant,
    pub output_type: Type,
    pub span: Span,
    pub input: Vec<Input>,
}

/// An entry for a function in the symbol table.
pub struct FunctionSymbol {
    /// The scope that holds this function's own local declarations.
    pub id: usize,
    /// Whether the function has an on-chain finalize companion.
    pub is_async: bool,
    /// The declared return type of the off-chain body.
    pub output_type: Type,
    /// Is this function a transition, inlined, or a regular function?
    pub variant: Variant,
    /// Provenance of the declaration.
    pub span: Span,
    /// The inputs to the function.
    pub input: Vec<Input>,
}

/// Metadata associated with the finalize block.
pub struct FinalizeData {
    /// The inputs to the finalize block.
    pub input: Vec<Input>,
    /// The output type of the finalize block.
    pub output_type: Type,
}

/// Ghost model of a `FunctionSymbol`: the same fields with the parameter
/// list as a sequence.
pub struct FunctionSymbolV {
    pub id: usize,
    pub is_async: bool,
    pub output_type: Type,
    pub variant: Variant,
    pub span: Span,
    pub input: Seq<Input>,
}

/// Ghost model of a `FinalizeData`.
pub struct FinalizeDataV {
    pub input: Seq<Input>,
    pub output_type: Type,
}

impl View for FunctionSymbol {
    type V = FunctionSymbolV;

    open spec fn view(&self) -> FunctionSymbolV {
        FunctionSymbolV {
            id: self.id,
            is_async: self.is_async,
            output_type: self.output_type,
            variant: self.variant,
            span: self.span,
            input: self.input@,
        }
    }
}

impl View for FinalizeData {
    type V = FinalizeDataV;

    open spec fn view(&self) -> FinalizeDataV {
        FinalizeDataV { input: self.input@, output_type: self.output_type }
    }
}

impl FunctionSymbolV {
    /// Structural well-formedness of an entry: an inlined callable has no
    /// independent proof, so it can never carry a finalize companion.
    pub open spec fn wf(self) -> bool {
        self.is_async ==> self.variant != Variant::Inline
    }

    /// Semantic equality of two entries: every field but the provenance
    /// token. Two structurally identical symbols from different source spans
    /// resolve identically.
    pub open spec fn sym_eq(self, other: FunctionSymbolV) -> bool {
        &&& self.id == other.id
        &&& self.is_async == other.is_async
        &&& self.output_type == other.output_type
        &&& self.variant == other.variant
        &&& self.input == other.input
    }
}

impl FinalizeDataV {
    /// Equality of finalize metadata (it carries no provenance).
    pub open spec fn fin_eq(self, other: FinalizeDataV) -> bool {
        self.input == other.input && self.output_type == other.output_type
    }
}

/// Copies a parameter list.
pub fn clone_inputs(v: &Vec<Input>) -> (r: Vec<Input>)
    ensures
        r@ == v@,
{
    let mut r: Vec<Input> = Vec::new();
    let mut i: usize = 0;
    while i < v.len()
        invariant
            i <= v.len(),
            r@ == v@.subrange(0, i as int),
        decreases v.len() - i,
    {
        r.push(v[i]);
        i = i + 1;
        proof {
            assert(r@ =~= v@.subrange(0, i as int));
        }
    }
    proof {
        assert(r@ =~= v@);
    }
    r
}

/// Compares two parameter lists element by element.
pub fn inputs_eq(a: &Vec<Input>, b: &Vec<Input>) -> (r: bool)
    ensures
        r == (a@ == b@),
{
    if a.len() != b.len() {
        proof {
            assert(a@.len() != b@.len());
        }
        return false;
    }
    let mut i: usize = 0;
    while i < a.len()
        invariant
            i <= a.len(),
            a@.len() == b@.len(),
            forall|j: int| 0 <= j < i ==> a@[j] == b@[j],
        decreases a.len() - i,
    {
        if a[i] != b[i] {
            return false;
        }
        i = i + 1;
    }
    proof {
        assert(a@ =~= b@);
    }
    true
}

impl FunctionSymbol {
    /// Decides semantic equality with `other`: every field but the span.
    pub fn eq_symbol(&self, other: &FunctionSymbol) -> (r: bool)
        ensures
            r == self@.sym_eq(other@),
    {
        self.id == other.id && self.is_async == other.is_async
            && self.output_type == other.output_type && self.variant == other.variant
            && inputs_eq(&self.input, &other.input)
    }
}

impl FinalizeData {
    /// Decides equality with `other` field by field.
    pub fn eq_data(&self, other: &FinalizeData) -> (r: bool)
        ensures
            r == self@.fin_eq(other@),
    {
        inputs_eq(&self.input, &other.input) && self.output_type == other.output_type
    }
}

} // verus!

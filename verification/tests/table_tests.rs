use symbol_table::symbol::{
    FinalizeData, Function, FunctionSymbol, Input, Mode, Span, Symbol, Type, Variant,
};
use symbol_table::table::{SymbolTable, SymbolTableError};

fn decl(is_async: bool, variant: Variant, output_type: Type) -> Function {
    Function {
        is_async,
        variant,
        output_type,
        span: Span { lo: 10, hi: 20 },
        input: vec![Input { mode: Mode::Private, type_: Type::Field }],
    }
}

fn entry(table: &mut SymbolTable, scope: usize, is_async: bool, variant: Variant) -> FunctionSymbol {
    let body = table.create_scope(scope).unwrap();
    SymbolTable::new_function_symbol(body, &decl(is_async, variant, Type::Boolean))
}

const FOO: Symbol = Symbol(1);
const BAR: Symbol = Symbol(2);
const BAZ: Symbol = Symbol(3);
const QUX: Symbol = Symbol(4);
const QUX2: Symbol = Symbol(5);

#[test]
fn standard_function_visible_from_child_and_not_async() {
    // Root scope R; `foo` is a non-async standard function declared in R with
    // a fresh child scope C1 for its body.
    let mut table = SymbolTable::new();
    let c1 = table.create_scope(0).unwrap();
    let foo = SymbolTable::new_function_symbol(c1, &decl(false, Variant::Standard, Type::Unit));
    let foo_copy = SymbolTable::new_function_symbol(c1, &decl(false, Variant::Standard, Type::Unit));
    assert!(table.insert_function(0, FOO, foo).is_ok());

    let from_child = table.lookup_function(c1, FOO).expect("visible from child");
    assert!(from_child.eq_symbol(&foo_copy));
    let from_root = table.lookup_function(0, FOO).expect("visible from root");
    assert!(from_root.eq_symbol(&foo_copy));

    let fin = FinalizeData { input: vec![], output_type: Type::Unit };
    assert_eq!(table.attach_finalize(0, FOO, fin), Err(SymbolTableError::NotAsync));
}

#[test]
fn finalize_metadata_resolves_only_for_async() {
    // `bar` is an async transition with finalize metadata of output type unit;
    // `baz` is not async, so its finalize lookup stays empty.
    let mut table = SymbolTable::new();
    let bar = entry(&mut table, 0, true, Variant::Transition);
    assert!(table.insert_function(0, BAR, bar).is_ok());
    let baz = entry(&mut table, 0, false, Variant::Standard);
    assert!(table.insert_function(0, BAZ, baz).is_ok());

    assert!(table.lookup_finalize(0, BAR).is_none());
    let fin = FinalizeData {
        input: vec![Input { mode: Mode::Public, type_: Type::Address }],
        output_type: Type::Unit,
    };
    let fin_copy = FinalizeData {
        input: vec![Input { mode: Mode::Public, type_: Type::Address }],
        output_type: Type::Unit,
    };
    assert!(table.attach_finalize(0, BAR, fin).is_ok());

    let got = table.lookup_finalize(0, BAR).expect("metadata resolves");
    assert!(got.eq_data(&fin_copy));
    assert!(table.lookup_finalize(0, BAZ).is_none());
}

#[test]
fn sealed_scope_rejects_insertions_but_answers_lookups() {
    let mut table = SymbolTable::new();
    let c2 = table.create_scope(0).unwrap();
    let qux = entry(&mut table, c2, false, Variant::Standard);
    assert!(table.insert_function(c2, QUX, qux).is_ok());
    table.seal_scope(c2);

    let qux2 = entry(&mut table, 0, false, Variant::Standard);
    assert_eq!(table.insert_function(c2, QUX2, qux2), Err(SymbolTableError::ScopeSealed));
    assert!(table.lookup_function(c2, QUX).is_some());

    let fin = FinalizeData { input: vec![], output_type: Type::Unit };
    assert_eq!(table.attach_finalize(c2, QUX, fin), Err(SymbolTableError::ScopeSealed));
}

#[test]
fn inserted_symbol_retrievable_from_later_descendants() {
    let mut table = SymbolTable::new();
    let body = table.create_scope(0).unwrap();
    let foo = SymbolTable::new_function_symbol(body, &decl(false, Variant::Standard, Type::Field));
    let foo_copy =
        SymbolTable::new_function_symbol(body, &decl(false, Variant::Standard, Type::Field));
    assert!(table.insert_function(0, FOO, foo).is_ok());

    let child = table.create_scope(0).unwrap();
    let grandchild = table.create_scope(child).unwrap();
    assert!(table.lookup_function(child, FOO).is_some());
    let got = table.lookup_function(grandchild, FOO).expect("visible two levels down");
    assert!(got.eq_symbol(&foo_copy));
}

#[test]
fn shadowing_inner_scope_wins_and_outer_keeps_its_own() {
    let mut table = SymbolTable::new();
    let child = table.create_scope(0).unwrap();
    let sibling = table.create_scope(0).unwrap();

    let outer = SymbolTable::new_function_symbol(0, &decl(false, Variant::Standard, Type::Field));
    let inner = SymbolTable::new_function_symbol(0, &decl(false, Variant::Inline, Type::Boolean));
    assert!(table.insert_function(0, FOO, outer).is_ok());
    assert!(table.insert_function(child, FOO, inner).is_ok());

    assert_eq!(table.lookup_function(child, FOO).unwrap().variant, Variant::Inline);
    assert_eq!(table.lookup_function(0, FOO).unwrap().variant, Variant::Standard);
    assert_eq!(table.lookup_function(sibling, FOO).unwrap().variant, Variant::Standard);
}

#[test]
fn duplicate_insertion_rejected_and_original_kept() {
    let mut table = SymbolTable::new();
    let first = SymbolTable::new_function_symbol(0, &decl(false, Variant::Standard, Type::Field));
    let first_copy = SymbolTable::new_function_symbol(0, &decl(false, Variant::Standard, Type::Field));
    assert!(table.insert_function(0, FOO, first).is_ok());

    let second = SymbolTable::new_function_symbol(0, &decl(true, Variant::Transition, Type::Unit));
    assert_eq!(
        table.insert_function(0, FOO, second),
        Err(SymbolTableError::DuplicateDeclaration)
    );
    let got = table.lookup_function(0, FOO).expect("original still there");
    assert!(got.eq_symbol(&first_copy));
}

#[test]
fn equality_of_symbols_ignores_provenance() {
    let mut a = SymbolTable::new_function_symbol(0, &decl(false, Variant::Standard, Type::Field));
    let b = SymbolTable::new_function_symbol(0, &decl(false, Variant::Standard, Type::Field));
    a.span = Span { lo: 999, hi: 1000 };
    assert!(a.eq_symbol(&b));
    a.output_type = Type::Unit;
    assert!(!a.eq_symbol(&b));
}

#[test]
fn create_scope_rejects_missing_parent() {
    let mut table = SymbolTable::new();
    assert_eq!(table.create_scope(7), Err(SymbolTableError::InvalidParentScope));
    assert_eq!(table.create_scope(0), Ok(1));
    assert_eq!(table.create_scope(1), Ok(2));
}

#[test]
fn attach_finalize_needs_existing_function_in_that_scope() {
    let mut table = SymbolTable::new();
    let child = table.create_scope(0).unwrap();
    let f = entry(&mut table, 0, true, Variant::Transition);
    assert!(table.insert_function(0, FOO, f).is_ok());

    let fin = FinalizeData { input: vec![], output_type: Type::Unit };
    // `foo` is visible from the child by lookup, but not declared there.
    assert_eq!(table.attach_finalize(child, FOO, fin), Err(SymbolTableError::UnknownFunction));
}

#[test]
fn repeated_attachment_replaces_metadata() {
    let mut table = SymbolTable::new();
    let f = entry(&mut table, 0, true, Variant::Transition);
    assert!(table.insert_function(0, FOO, f).is_ok());

    let fin1 = FinalizeData { input: vec![], output_type: Type::Unit };
    let fin2 = FinalizeData { input: vec![], output_type: Type::Boolean };
    assert!(table.attach_finalize(0, FOO, fin1).is_ok());
    assert!(table.attach_finalize(0, FOO, fin2).is_ok());
    assert_eq!(table.lookup_finalize(0, FOO).unwrap().output_type, Type::Boolean);
}

#[test]
fn lookup_misses_are_plain_absences() {
    let table = SymbolTable::new();
    assert!(table.lookup_function(0, FOO).is_none());
    assert!(table.lookup_finalize(0, FOO).is_none());
}

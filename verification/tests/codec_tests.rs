use symbol_table::codec::{decode_table, encode_table};
use symbol_table::symbol::{
    FinalizeData, Function, Input, Mode, Span, Symbol, Type, Variant,
};
use symbol_table::table::SymbolTable;

const MAIN: Symbol = Symbol(11);
const HELPER: Symbol = Symbol(12);

fn fixture() -> SymbolTable {
    let mut table = SymbolTable::new();
    let main_body = table.create_scope(0).unwrap();
    let main_decl = Function {
        is_async: true,
        variant: Variant::Transition,
        output_type: Type::Named(Symbol(77)),
        span: Span { lo: 3, hi: 41 },
        input: vec![
            Input { mode: Mode::Private, type_: Type::Field },
            Input { mode: Mode::Public, type_: Type::Address },
        ],
    };
    let main_sym = SymbolTable::new_function_symbol(main_body, &main_decl);
    table.insert_function(0, MAIN, main_sym).unwrap();
    table
        .attach_finalize(
            0,
            MAIN,
            FinalizeData {
                input: vec![Input { mode: Mode::Public, type_: Type::Boolean }],
                output_type: Type::Unit,
            },
        )
        .unwrap();

    let helper_body = table.create_scope(main_body).unwrap();
    let helper_decl = Function {
        is_async: false,
        variant: Variant::Inline,
        output_type: Type::Boolean,
        span: Span { lo: 50, hi: 61 },
        input: vec![],
    };
    let helper_sym = SymbolTable::new_function_symbol(helper_body, &helper_decl);
    table.insert_function(main_body, HELPER, helper_sym).unwrap();
    table.seal_scope(main_body);
    table
}

#[test]
fn round_trip_reproduces_the_table() {
    let table = fixture();
    let words = encode_table(&table);
    let back = decode_table(&words).expect("an encoding decodes");

    // Behaviorally identical: the same lookups answer with equal entries.
    for scope in 0..3 {
        for name in [MAIN, HELPER, Symbol(99)] {
            match (table.lookup_function(scope, name), back.lookup_function(scope, name)) {
                (Some(a), Some(b)) => {
                    assert!(a.eq_symbol(b));
                    assert_eq!(a.span, b.span);
                }
                (None, None) => {}
                _ => panic!("round trip changed a lookup"),
            }
            match (table.lookup_finalize(scope, name), back.lookup_finalize(scope, name)) {
                (Some(a), Some(b)) => assert!(a.eq_data(b)),
                (None, None) => {}
                _ => panic!("round trip changed a finalize lookup"),
            }
        }
    }

    // Bit for bit: re-encoding the reloaded table gives the same stream.
    let words_again = encode_table(&back);
    assert_eq!(words, words_again);
}

#[test]
fn fresh_table_round_trips() {
    let table = SymbolTable::new();
    let words = encode_table(&table);
    let back = decode_table(&words).expect("an encoding decodes");
    assert_eq!(encode_table(&back), words);
}

#[test]
fn fresh_table_encodes_to_the_expected_words() {
    // One scope; no parent (tag 0); open (0); no functions (0); no finalize
    // metadata (0).
    let words = encode_table(&SymbolTable::new());
    assert_eq!(words, vec![1, 0, 0, 0, 0]);
}

#[test]
fn one_entry_encodes_field_by_field() {
    let mut table = SymbolTable::new();
    let body = table.create_scope(0).unwrap();
    let decl = Function {
        is_async: false,
        variant: Variant::Standard,
        output_type: Type::Boolean,
        span: Span { lo: 7, hi: 9 },
        input: vec![Input { mode: Mode::Constant, type_: Type::Unit }],
    };
    let sym = SymbolTable::new_function_symbol(body, &decl);
    table.insert_function(body, MAIN, sym).unwrap();

    let words = encode_table(&table);
    assert_eq!(
        words,
        vec![
            2, // two scopes
            0, 0, 0, 0, // root: no parent, open, no functions, no finalizes
            1, 0, // body scope: parent 0
            0, // open
            1, // one function
            11, // its name
            1, // its body scope id
            0, // not async
            1, // standard
            1, // output type boolean
            7, 9, // span
            1, 1, 0, // one input: constant mode, unit type
            0, // no finalizes
        ]
    );
}

#[test]
fn truncated_or_padded_streams_are_rejected() {
    let table = fixture();
    let words = encode_table(&table);

    let mut truncated = words.clone();
    truncated.pop();
    assert!(decode_table(&truncated).is_none());

    let mut padded = words.clone();
    padded.push(0);
    assert!(decode_table(&padded).is_none());

    let empty: Vec<u64> = Vec::new();
    assert!(decode_table(&empty).is_none());
}

#[test]
fn corrupt_tag_is_rejected() {
    let table = fixture();
    let mut words = encode_table(&table);
    // The second word opens the root scope's parent option: force a bad tag.
    words[1] = 9;
    assert!(decode_table(&words).is_none());
}

use flavia::symbols::{Symbol, SymbolTable, SymbolType};

#[test]
fn test_symbol_table() {
    let mut sym = SymbolTable::new();
    let new_symbol = Symbol::new("test".to_string(), SymbolType::Label, 12);
    sym.add_symbol(new_symbol);
    assert_eq!(sym.symbols.len(), 1);
    let v = sym.symbol_value("test");
    assert_eq!(true, v.is_some());
    let v = v.unwrap();
    assert_eq!(v, 12);
    let v = sym.symbol_value("does_not_exist");
    assert_eq!(v.is_some(), false);
}

#[test]
fn first_declaration_wins() {
    let mut sym = SymbolTable::new();
    sym.add_symbol(Symbol::new("a".to_string(), SymbolType::Label, 4));
    sym.add_symbol(Symbol::new("a".to_string(), SymbolType::Label, 8));
    assert_eq!(sym.symbol_value("a"), Some(4));
    assert_eq!(sym.symbols[1].offset(), 8);
}

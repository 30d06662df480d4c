//! The table of label names and the byte offsets they stand for.
use vstd::prelude::*;

verus! {

/// What a symbol names. Labels are the only kind the language has.
#[derive(Copy, Clone, Debug, PartialEq, Eq, Structural)]
pub enum SymbolType {
    Label,
}

/// A named byte offset in the program.
#[derive(Debug)]
pub struct Symbol {
    pub name: String,
    pub offset: u32,
    pub symbol_type: SymbolType,
}

impl View for Symbol {
    type V = (Seq<char>, u32);

    open spec fn view(&self) -> (Seq<char>, u32) {
        (self.name@, self.offset)
    }
}

impl Symbol {
    pub fn new(name: String, symbol_type: SymbolType, offset: u32) -> (r: Symbol)
        ensures
            r@ == (name@, offset),
            r.symbol_type == symbol_type,
    {
        Symbol { name, symbol_type, offset }
    }

    pub fn offset(&self) -> (r: u32)
        ensures
            r == self@.1,
    {
        self.offset
    }
}

/// The offset bound to `name` by the first entry at or after index `i` that carries it.
pub open spec fn lookup_from(t: Seq<(Seq<char>, u32)>, name: Seq<char>, i: int) -> Option<u32>
    decreases t.len() - i,
{
    if i < 0 || i >= t.len() {
        None
    } else if t[i].0 == name {
        Some(t[i].1)
    } else {
        lookup_from(t, name, i + 1)
    }
}

/// The offset bound to `name`: the earliest entry that carries it wins.
pub open spec fn lookup(t: Seq<(Seq<char>, u32)>, name: Seq<char>) -> Option<u32> {
    lookup_from(t, name, 0)
}

/// Appending an entry changes the lookup of its own name only, and only where
/// that name was not bound before.
pub proof fn lemma_lookup_push(t: Seq<(Seq<char>, u32)>, e: (Seq<char>, u32), name: Seq<char>)
    ensures
        lookup(t.push(e), name) == (match lookup(t, name) {
            Some(v) => Some(v),
            None => if e.0 == name { Some(e.1) } else { None },
        }),
{
    lemma_lookup_from_push(t, e, name, 0);
}

proof fn lemma_lookup_from_push(t: Seq<(Seq<char>, u32)>, e: (Seq<char>, u32), name: Seq<char>, i: int)
    requires
        0 <= i <= t.len(),
    ensures
        lookup_from(t.push(e), name, i) == (match lookup_from(t, name, i) {
            Some(v) => Some(v),
            None => if e.0 == name { Some(e.1) } else { None },
        }),
    decreases t.len() - i,
{
    let u = t.push(e);
    if i < t.len() {
        assert(u[i] == t[i]);
        lemma_lookup_from_push(t, e, name, i + 1);
    } else {
        assert(u[i] == e);
        assert(lookup_from(u, name, i + 1) == None::<u32>);
    }
}

/// Label names bound to byte offsets, in order of declaration.
#[derive(Debug)]
pub struct SymbolTable {
    pub symbols: Vec<Symbol>,
}

impl View for SymbolTable {
    type V = Seq<(Seq<char>, u32)>;

    open spec fn view(&self) -> Seq<(Seq<char>, u32)> {
        self.symbols@.map_values(|s: Symbol| s@)
    }
}

impl SymbolTable {
    pub fn new() -> (r: SymbolTable)
        ensures
            r@ == Seq::<(Seq<char>, u32)>::empty(),
    {
        SymbolTable { symbols: Vec::new() }
    }

    /// Appends a symbol; a name already bound keeps its earlier offset.
    pub fn add_symbol(&mut self, s: Symbol)
        ensures
            final(self)@ == old(self)@.push(s@),
    {
        self.symbols.push(s);
        assert(final(self)@ =~= old(self)@.push(s@));
    }

    /// The offset bound to `s`, if any.
    pub fn symbol_value(&self, s: &str) -> (r: Option<u32>)
        ensures
            r == lookup(self@, s@),
    {
        let key = s.to_owned();
        let mut i: usize = 0;
        while i < self.symbols.len()
            invariant
                0 <= i <= self.symbols.len(),
                key@ == s@,
                lookup(self@, s@) == lookup_from(self@, s@, i as int),
            decreases self.symbols.len() - i,
        {
            if self.symbols[i].name == key {
                return Some(self.symbols[i].offset);
            }
            i = i + 1;
        }
        None
    }
}

} // verus!

//! Interned symbols and the registry of algebraic data types.

use std::collections::HashMap;

use vstd::hash_map::StringHashMap;
use vstd::prelude::*;

verus! {

broadcast use vstd::std_specs::hash::group_hash_axioms;

/// Interned symbol — index into the interner.
pub type Symbol = u32;

/// The symbol table after interning `s`: a string already present stays
/// where it is, a new one goes to the end.
pub open spec fn interned(table: Seq<Seq<char>>, s: Seq<char>) -> Seq<Seq<char>> {
    if table.contains(s) {
        table
    } else {
        table.push(s)
    }
}

/// The symbol of `s`: its position in the table, as a `u32`.
pub open spec fn symbol_in(table: Seq<Seq<char>>, s: Seq<char>) -> Symbol {
    table.index_of(s) as u32
}

/// A string interner for fast symbol comparison.
pub struct StringInterner {
    map: StringHashMap<Symbol>,
    strings: Vec<String>,
}

impl View for StringInterner {
    type V = Seq<Seq<char>>;

    closed spec fn view(&self) -> Seq<Seq<char>> {
        self.strings@.map_values(|s: String| s@)
    }
}

impl StringInterner {
    /// No string occurs twice, and the map leads from each string to its
    /// position.
    pub closed spec fn wf(self) -> bool {
        &&& self@.no_duplicates()
        &&& forall|s: Seq<char>| #[trigger] self.map@.dom().contains(s) <==> self@.contains(s)
        &&& forall|s: Seq<char>|
            #[trigger] self@.contains(s) ==> self.map@[s] == symbol_in(self@, s)
    }

    /// Interning never repeats a string.
    pub proof fn lemma_distinct(self)
        requires
            self.wf(),
        ensures
            self@.no_duplicates(),
    {
    }

    /// Look up a string without interning it. Returns None if not yet interned.
    pub fn lookup(&self, s: &str) -> (r: Option<&Symbol>)
        requires
            self.wf(),
        ensures
            match r {
                Some(sym) => self@.contains(s@) && *sym == symbol_in(self@, s@),
                None => !self@.contains(s@),
            },
    {
        assert(self.map@.dom().contains(s@) <==> self@.contains(s@));
        self.map.get(s)
    }

    pub fn new() -> (r: Self)
        ensures
            r.wf(),
            r@ == Seq::<Seq<char>>::empty(),
    {
        let r = StringInterner { map: StringHashMap::new(), strings: Vec::new() };
        assert(r@ =~= Seq::<Seq<char>>::empty());
        r
    }

    pub fn intern(&mut self, s: &str) -> (sym: Symbol)
        requires
            old(self).wf(),
        ensures
            final(self).wf(),
            final(self)@ == interned(old(self)@, s@),
            sym == symbol_in(final(self)@, s@),
    {
        if let Some(sym) = self.lookup(s) {
            return *sym;
        }
        let sym: Symbol = #[verifier::truncate]
        (self.strings.len() as u32);
        let ghost before = self@;
        self.strings.push(s.to_owned());
        self.map.insert(s.to_owned(), sym);
        proof {
            assert(self@ =~= before.push(s@));
            assert(self@[before.len() as int] == s@);
            assert(self@.contains(s@));
            assert forall|t: Seq<char>| #[trigger] self@.contains(t) implies self.map@[t]
                == symbol_in(self@, t) by {
                if before.contains(t) {
                    lemma_symbol_kept(before, s@, t);
                } else {
                    let i = choose|i: int| 0 <= i < self@.len() && self@[i] == t;
                    assert(i == before.len());
                }
            }
            assert forall|t: Seq<char>| #[trigger] self.map@.dom().contains(t)
                <==> self@.contains(t) by {
                if before.contains(t) {
                    lemma_symbol_kept(before, s@, t);
                } else if self@.contains(t) {
                    let i = choose|i: int| 0 <= i < self@.len() && self@[i] == t;
                    assert(i == before.len());
                }
            }
        }
        sym
    }

    pub fn resolve(&self, sym: Symbol) -> (r: &str)
        requires
            (sym as int) < self@.len(),
        ensures
            r@ == self@[sym as int],
    {
        self.strings[sym as usize].as_str()
    }

    /// How many strings are interned.
    pub fn len(&self) -> (r: usize)
        ensures
            r == self@.len(),
    {
        self.strings.len()
    }
}

impl Default for StringInterner {
    fn default() -> (r: Self)
        ensures
            r.wf(),
            r@ == Seq::<Seq<char>>::empty(),
    {
        Self::new()
    }
}

/// A string keeps its symbol when others are interned after it.
pub proof fn lemma_symbol_kept(table: Seq<Seq<char>>, s: Seq<char>, t: Seq<char>)
    requires
        table.no_duplicates(),
        table.contains(t),
    ensures
        interned(table, s).contains(t),
        interned(table, s).no_duplicates(),
        symbol_in(interned(table, s), t) == symbol_in(table, t),
        interned(table, s).index_of(t) == table.index_of(t),
{
    let next = interned(table, s);
    let i = choose|i: int| 0 <= i < table.len() && table[i] == t;
    assert(next[i] == t);
    assert(next.no_duplicates());
}

/// The symbol table after interning the strings in turn.
pub open spec fn interned_all(table: Seq<Seq<char>>, names: Seq<Seq<char>>) -> Seq<Seq<char>>
    decreases names.len(),
{
    if names.len() == 0 {
        table
    } else {
        interned(interned_all(table, names.drop_last()), names.last())
    }
}

/// A string keeps its symbol when many others are interned after it.
pub proof fn lemma_symbol_kept_all(
    table: Seq<Seq<char>>,
    names: Seq<Seq<char>>,
    t: Seq<char>,
)
    requires
        table.no_duplicates(),
        table.contains(t),
    ensures
        interned_all(table, names).contains(t),
        interned_all(table, names).no_duplicates(),
        symbol_in(interned_all(table, names), t) == symbol_in(table, t),
    decreases names.len(),
{
    if names.len() > 0 {
        lemma_symbol_kept_all(table, names.drop_last(), t);
        lemma_symbol_kept(interned_all(table, names.drop_last()), names.last(), t);
    }
}

/// A symbol resolves to the string it was made for, as long as the table
/// holds no more strings than there are symbols.
pub proof fn lemma_intern_then_resolve(table: Seq<Seq<char>>, s: Seq<char>)
    requires
        table.len() < 0x1_0000_0000,
    ensures
        symbol_in(interned(table, s), s) < interned(table, s).len(),
        interned(table, s)[symbol_in(interned(table, s), s) as int] == s,
{
    let next = interned(table, s);
    if !table.contains(s) {
        assert(next[table.len() as int] == s);
    }
    assert(next.contains(s));
}

/// Two strings have one symbol only if they are equal, as long as the table
/// holds no more strings than there are symbols.
pub proof fn lemma_symbols_distinguish(table: Seq<Seq<char>>, s: Seq<char>, t: Seq<char>)
    requires
        table.len() <= 0x1_0000_0000,
        table.contains(s),
        table.contains(t),
    ensures
        symbol_in(table, s) == symbol_in(table, t) <==> s == t,
{
}

/// A constructor with the names of its fields.
pub open spec fn signature(c: (Symbol, Vec<Symbol>)) -> (Symbol, Seq<Symbol>) {
    (c.0, c.1@)
}

/// `fields` with every constructor of the list entered in turn.
pub open spec fn with_fields(
    fields: Map<Symbol, Seq<Symbol>>,
    ctors: Seq<(Symbol, Seq<Symbol>)>,
) -> Map<Symbol, Seq<Symbol>>
    decreases ctors.len(),
{
    if ctors.len() == 0 {
        fields
    } else {
        with_fields(fields, ctors.drop_last()).insert(ctors.last().0, ctors.last().1)
    }
}

/// `owner` with every constructor of the list given to `ty`.
pub open spec fn with_owner(
    owner: Map<Symbol, Symbol>,
    ctors: Seq<(Symbol, Seq<Symbol>)>,
    ty: Symbol,
) -> Map<Symbol, Symbol>
    decreases ctors.len(),
{
    if ctors.len() == 0 {
        owner
    } else {
        with_owner(owner, ctors.drop_last(), ty).insert(ctors.last().0, ty)
    }
}

/// What a registry knows: the owning type of each constructor, the
/// constructors of each type, and the field names of each constructor.
pub struct Registered {
    pub owner: Map<Symbol, Symbol>,
    pub ctors: Map<Symbol, Seq<Symbol>>,
    pub fields: Map<Symbol, Seq<Symbol>>,
}

/// The names that the built-in types bring, in the order they are interned.
pub open spec fn builtin_names() -> Seq<Seq<char>> {
    seq![
        "bool"@,
        "True"@,
        "False"@,
        "nat"@,
        "O"@,
        "S"@,
        "n"@,
        "list"@,
        "Nil"@,
        "Cons"@,
        "head"@,
        "tail"@,
        "unit"@,
        "Unit"@,
    ]
}

impl Registered {
    pub open spec fn empty() -> Self {
        Registered { owner: Map::empty(), ctors: Map::empty(), fields: Map::empty() }
    }

    /// The built-in types bool, nat, list and unit, with the symbols that
    /// the table gives their names.
    pub open spec fn with_builtins(self, table: Seq<Seq<char>>) -> Self {
        let none = Seq::<Symbol>::empty();
        self.define(
            symbol_in(table, "bool"@),
            seq![(symbol_in(table, "True"@), none), (symbol_in(table, "False"@), none)],
        ).define(
            symbol_in(table, "nat"@),
            seq![
                (symbol_in(table, "O"@), none),
                (symbol_in(table, "S"@), seq![symbol_in(table, "n"@)]),
            ],
        ).define(
            symbol_in(table, "list"@),
            seq![
                (symbol_in(table, "Nil"@), none),
                (
                    symbol_in(table, "Cons"@),
                    seq![symbol_in(table, "head"@), symbol_in(table, "tail"@)],
                ),
            ],
        ).define(symbol_in(table, "unit"@), seq![(symbol_in(table, "Unit"@), none)])
    }

    /// The registry after a type definition.
    pub open spec fn define(self, ty: Symbol, ctors: Seq<(Symbol, Seq<Symbol>)>) -> Self {
        Registered {
            owner: with_owner(self.owner, ctors, ty),
            ctors: self.ctors.insert(
                ty,
                ctors.map_values(|c: (Symbol, Seq<Symbol>)| c.0),
            ),
            fields: with_fields(self.fields, ctors),
        }
    }

    pub open spec fn arity(self, ctor: Symbol) -> nat {
        if self.fields.dom().contains(ctor) {
            self.fields[ctor].len()
        } else {
            0
        }
    }

    /// `(a, b)` are the two constructors, in some order, of a type with
    /// exactly two, `a` without fields and `b` with `n` of them.
    pub open spec fn pair(self, a: Symbol, b: Symbol, n: nat) -> bool {
        exists|t: Symbol| #[trigger]
            self.ctors.dom().contains(t) && self.is_pair(t, a, b, n)
    }

    pub open spec fn is_pair(self, t: Symbol, a: Symbol, b: Symbol, n: nat) -> bool {
        &&& self.ctors[t] == seq![a, b] || self.ctors[t] == seq![b, a]
        &&& self.arity(a) == 0
        &&& self.arity(b) == n
    }
}

/// Registry for algebraic data types (sum-of-product types).
///
/// Tracks constructor -> type mappings, constructor arity, and field names.
pub struct TypeRegistry {
    /// constructor symbol -> type symbol
    pub type_of_constructor: HashMap<Symbol, Symbol>,
    /// type symbol -> list of constructor symbols
    pub constructors_of_type: HashMap<Symbol, Vec<Symbol>>,
    /// constructor symbol -> list of field name symbols
    pub args_of_constructor: HashMap<Symbol, Vec<Symbol>>,
}

impl View for TypeRegistry {
    type V = Registered;

    open spec fn view(&self) -> Registered {
        Registered {
            owner: self.type_of_constructor@,
            ctors: self.constructors_of_type@.map_values(|v: Vec<Symbol>| v@),
            fields: self.args_of_constructor@.map_values(|v: Vec<Symbol>| v@),
        }
    }
}

impl Default for TypeRegistry {
    fn default() -> (r: Self)
        ensures
            r@ == Registered::empty(),
    {
        Self::new()
    }
}

impl TypeRegistry {
    pub fn new() -> (r: Self)
        ensures
            r@ == Registered::empty(),
    {
        let r = TypeRegistry {
            type_of_constructor: HashMap::new(),
            constructors_of_type: HashMap::new(),
            args_of_constructor: HashMap::new(),
        };
        proof {
            assert(r@.owner =~= Registered::empty().owner);
            assert(r@.ctors =~= Registered::empty().ctors);
            assert(r@.fields =~= Registered::empty().fields);
        }
        r
    }

    /// Register a new algebraic datatype.
    /// `constructors` maps constructor name -> list of field names.
    pub fn define_type(&mut self, ty: Symbol, constructors: Vec<(Symbol, Vec<Symbol>)>)
        ensures
            final(self)@ == old(self)@.define(
                ty,
                constructors@.map_values(|c: (Symbol, Vec<Symbol>)| signature(c)),
            ),
    {
        let ghost sigs = constructors@.map_values(|c: (Symbol, Vec<Symbol>)| signature(c));
        let mut ctor_list: Vec<Symbol> = Vec::new();
        for i in 0..constructors.len()
            invariant
                sigs == constructors@.map_values(|c: (Symbol, Vec<Symbol>)| signature(c)),
                self@.owner == with_owner(old(self)@.owner, sigs.take(i as int), ty),
                self@.fields == with_fields(old(self)@.fields, sigs.take(i as int)),
                self@.ctors == old(self)@.ctors,
                ctor_list@ == sigs.take(i as int).map_values(|c: (Symbol, Seq<Symbol>)| c.0),
        {
            let ctor: Symbol = constructors[i].0;
            let args: Vec<Symbol> = constructors[i].1.clone();
            let ghost fields = self.args_of_constructor@;
            self.type_of_constructor.insert(ctor, ty);
            self.args_of_constructor.insert(ctor, args);
            ctor_list.push(ctor);
            proof {
                assert(args@ =~= constructors@[i as int].1@);
                assert(sigs.take(i + 1).drop_last() =~= sigs.take(i as int));
                assert(self@.fields =~= with_fields(old(self)@.fields, sigs.take(i + 1)));
                assert(self@.owner =~= with_owner(old(self)@.owner, sigs.take(i + 1), ty));
            }
        }
        self.constructors_of_type.insert(ty, ctor_list);
        proof {
            assert(sigs.take(sigs.len() as int) =~= sigs);
            assert(self@.ctors =~= old(self)@.define(ty, sigs).ctors);
        }
    }

    pub fn constructor_arity(&self, ctor: Symbol) -> (r: usize)
        ensures
            r == self@.arity(ctor),
    {
        match self.args_of_constructor.get(&ctor) {
            Some(args) => args.len(),
            None => 0,
        }
    }

    pub fn is_constructor(&self, sym: Symbol) -> (r: bool)
        ensures
            r == self@.owner.dom().contains(sym),
    {
        self.type_of_constructor.contains_key(&sym)
    }

    /// A type with exactly two constructors, one without fields and one
    /// with `n`. The first of the result is the one without.
    fn find_pair(&self, n: usize) -> (r: Option<(Symbol, Symbol)>)
        ensures
            match r {
                Some((a, b)) => self@.pair(a, b, n as nat),
                None => forall|a: Symbol, b: Symbol| !#[trigger] self@.pair(a, b, n as nat),
            },
    {
        let keys = self.constructors_of_type.keys();
        for k in it: keys
            invariant
                it.seq().unref().to_set() == self@.ctors.dom(),
                forall|j: int, a: Symbol, b: Symbol|
                    0 <= j < it.index() ==> !#[trigger] self@.is_pair(
                        *it.seq()[j],
                        a,
                        b,
                        n as nat,
                    ),
        {
            let t: Symbol = *k;
            assert(it.seq().unref()[it.index()] == t);
            assert(it.seq().unref().to_set().contains(t));
            assert(self@.ctors.dom().contains(t));
            if let Some(ctors) = self.constructors_of_type.get(&t) {
                if ctors.len() == 2 {
                    let c0: Symbol = ctors[0];
                    let c1: Symbol = ctors[1];
                    let a0: usize = self.constructor_arity(c0);
                    let a1: usize = self.constructor_arity(c1);
                    assert(self@.ctors[t] =~= seq![c0, c1]);
                    if a0 == 0 && a1 == n {
                        assert(self@.is_pair(t, c0, c1, n as nat));
                        return Some((c0, c1));
                    }
                    if a1 == 0 && a0 == n {
                        assert(self@.is_pair(t, c1, c0, n as nat));
                        return Some((c1, c0));
                    }
                    assert forall|a: Symbol, b: Symbol| !#[trigger] self@.is_pair(
                        t,
                        a,
                        b,
                        n as nat,
                    ) by {
                        if self@.is_pair(t, a, b, n as nat) {
                            assert(self@.ctors[t][0] == c0 && self@.ctors[t][1] == c1);
                            assert(seq![a, b][0] == a && seq![a, b][1] == b);
                            assert(seq![b, a][0] == b && seq![b, a][1] == a);
                        }
                    }
                } else {
                    assert forall|a: Symbol, b: Symbol| !#[trigger] self@.is_pair(
                        t,
                        a,
                        b,
                        n as nat,
                    ) by {
                        assert(seq![a, b].len() == 2 && seq![b, a].len() == 2);
                    }
                }
            }
        }
        None
    }

    /// Find the list-like type: a type with exactly two constructors,
    /// one nullary (Nil) and one binary (Cons). Returns (nil, cons).
    pub fn find_list_constructors(&self) -> (r: Option<(Symbol, Symbol)>)
        ensures
            match r {
                Some((nil, cons)) => self@.pair(nil, cons, 2),
                None => forall|nil: Symbol, cons: Symbol| !#[trigger] self@.pair(nil, cons, 2),
            },
    {
        self.find_pair(2)
    }

    /// Find the Peano-nat type: a type with exactly two constructors,
    /// one nullary (O) and one unary (S). Returns (o, s).
    pub fn find_nat_constructors(&self) -> (r: Option<(Symbol, Symbol)>)
        ensures
            match r {
                Some((o, s)) => self@.pair(o, s, 1),
                None => forall|o: Symbol, s: Symbol| !#[trigger] self@.pair(o, s, 1),
            },
    {
        self.find_pair(1)
    }

    /// Register built-in types: bool, nat, list, unit.
    pub fn register_builtins(&mut self, interner: &mut StringInterner)
        requires
            old(interner).wf(),
        ensures
            final(interner).wf(),
            final(interner)@ == interned_all(old(interner)@, builtin_names()),
            final(self)@ == old(self)@.with_builtins(final(interner)@),
    {
        let ghost names = builtin_names();
        let ghost none = Seq::<Symbol>::empty();
        let ghost start = interner@;
        let bool_sym: Symbol = intern_next(interner, "bool", Ghost(start), Ghost(0));
        let true_sym: Symbol = intern_next(interner, "True", Ghost(start), Ghost(1));
        let false_sym: Symbol = intern_next(interner, "False", Ghost(start), Ghost(2));
        let ctors: Vec<(Symbol, Vec<Symbol>)> = vec![(true_sym, vec![]), (false_sym, vec![])];
        proof {
            assert(ctors@.map_values(|c: (Symbol, Vec<Symbol>)| signature(c)) =~~= seq![(true_sym, none), (false_sym, none)]);
        }
        self.define_type(bool_sym, ctors);

        let nat_sym: Symbol = intern_next(interner, "nat", Ghost(start), Ghost(3));
        let o_sym: Symbol = intern_next(interner, "O", Ghost(start), Ghost(4));
        let s_sym: Symbol = intern_next(interner, "S", Ghost(start), Ghost(5));
        let n_sym: Symbol = intern_next(interner, "n", Ghost(start), Ghost(6));
        let ctors: Vec<(Symbol, Vec<Symbol>)> = vec![(o_sym, vec![]), (s_sym, vec![n_sym])];
        proof {
            assert(ctors@.map_values(|c: (Symbol, Vec<Symbol>)| signature(c)) =~~= seq![(o_sym, none), (s_sym, seq![n_sym])]);
        }
        self.define_type(nat_sym, ctors);

        let list_sym: Symbol = intern_next(interner, "list", Ghost(start), Ghost(7));
        let nil_sym: Symbol = intern_next(interner, "Nil", Ghost(start), Ghost(8));
        let cons_sym: Symbol = intern_next(interner, "Cons", Ghost(start), Ghost(9));
        let head_sym: Symbol = intern_next(interner, "head", Ghost(start), Ghost(10));
        let tail_sym: Symbol = intern_next(interner, "tail", Ghost(start), Ghost(11));
        let ctors: Vec<(Symbol, Vec<Symbol>)> = vec![
            (nil_sym, vec![]),
            (cons_sym, vec![head_sym, tail_sym]),
        ];
        proof {
            assert(ctors@.map_values(|c: (Symbol, Vec<Symbol>)| signature(c)) =~~= seq![
                (nil_sym, none),
                (cons_sym, seq![head_sym, tail_sym]),
            ]);
        }
        self.define_type(list_sym, ctors);

        let unit_sym: Symbol = intern_next(interner, "unit", Ghost(start), Ghost(12));
        let unit_ctor: Symbol = intern_next(interner, "Unit", Ghost(start), Ghost(13));
        let ctors: Vec<(Symbol, Vec<Symbol>)> = vec![(unit_ctor, vec![])];
        proof {
            assert(ctors@.map_values(|c: (Symbol, Vec<Symbol>)| signature(c)) =~~= seq![(unit_ctor, none)]);
        }
        self.define_type(unit_sym, ctors);
        proof {
            assert(names.take(14) =~= names);
        }
    }
}

/// Interns the built-in name at position `k`, whose symbol no later
/// built-in name changes.
fn intern_next(
    interner: &mut StringInterner,
    name: &str,
    Ghost(start): Ghost<Seq<Seq<char>>>,
    Ghost(k): Ghost<int>,
) -> (sym: Symbol)
    requires
        old(interner).wf(),
        0 <= k < builtin_names().len(),
        name@ == builtin_names()[k],
        old(interner)@ == interned_all(start, builtin_names().take(k)),
    ensures
        final(interner).wf(),
        final(interner)@ == interned_all(start, builtin_names().take(k + 1)),
        sym == symbol_in(interned_all(start, builtin_names()), name@),
{
    let sym: Symbol = interner.intern(name);
    proof {
        let names = builtin_names();
        assert(names.take(k + 1).drop_last() =~= names.take(k));
        lemma_interned_split(start, names, k + 1);
        interner.lemma_distinct();
        lemma_interned_contains(interned_all(start, names.take(k)), name@);
        lemma_symbol_kept_all(interner@, names.skip(k + 1), name@);
    }
    sym
}

/// An interned string is in the table.
pub proof fn lemma_interned_contains(table: Seq<Seq<char>>, s: Seq<char>)
    ensures
        interned(table, s).contains(s),
{
    if !table.contains(s) {
        assert(interned(table, s)[table.len() as int] == s);
    }
}

proof fn lemma_interned_split(table: Seq<Seq<char>>, names: Seq<Seq<char>>, k: int)
    requires
        0 <= k <= names.len(),
    ensures
        interned_all(table, names) == interned_all(
            interned_all(table, names.take(k)),
            names.skip(k),
        ),
    decreases names.len(),
{
    if k < names.len() {
        lemma_interned_split(table, names.drop_last(), k);
        assert(names.drop_last().take(k) =~= names.take(k));
        assert(names.skip(k).drop_last() =~= names.drop_last().skip(k));
        assert(names.skip(k).last() == names.last());
    } else {
        assert(names.take(k) =~= names);
        assert(names.skip(k) =~= Seq::empty());
    }
}

} // verus!

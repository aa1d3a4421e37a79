//! The resolver: symbols and act bodies gathered over several files, the
//! checks on them, and the attribute pass.

use vstd::prelude::*;
use crate::error::{ParseError, ParseErrorView};
use crate::keys::{key_lt, same_text};
use crate::model::{
    attrs_view, choices_view, duplicate_attributes, duplicate_choices, item_character,
    items_view, symbol_type_of, BodyStatement, Declaration, Definition, NarrativeChoice,
    NarrativeItem, NarrativeItemView, Statement, SymbolAttributes, SymbolType,
};
use crate::table::{
    has_key, keyed, keys_sorted, lemma_table_insert, lemma_table_map_at, seek, table_map,
};

verus! {

/// What is known of a declared symbol.
#[derive(Debug)]
pub struct SymbolInfo {
    /// Source where the symbol is declared.
    pub source: String,
    /// Byte offset of the declaration in that source.
    pub start_position: usize,
    pub symbol_type: SymbolType,
    pub attributes: Vec<SymbolAttributes>,
}

impl SymbolInfo {
    pub fn new(
        source: String,
        symbol_type: SymbolType,
        start_position: usize,
        attributes: Vec<SymbolAttributes>,
    ) -> (r: Self)
        ensures
            r == (SymbolInfo { source, start_position, symbol_type, attributes }),
    {
        SymbolInfo { source, start_position, symbol_type, attributes }
    }
}

/// The body of an act and the source that defined it.
#[derive(Debug)]
pub struct ActDefinition {
    pub source: String,
    pub items: Vec<NarrativeItem>,
}

/// An act's definition as values: its source and its items.
pub open spec fn act_view(d: ActDefinition) -> (Seq<char>, Seq<NarrativeItemView>) {
    (d.source@, items_view(d.items@))
}

pub open spec fn acts_view(t: Seq<(String, ActDefinition)>) -> Seq<
    (Seq<char>, (Seq<char>, Seq<NarrativeItemView>)),
> {
    t.map_values(|e: (String, ActDefinition)| (e.0@, act_view(e.1)))
}

/// The names a list of strings holds.
pub open spec fn names_set(s: Seq<String>) -> Set<Seq<char>> {
    Set::new(|n: Seq<char>| exists|i: int| 0 <= i < s.len() && #[trigger] s[i]@ == n)
}

pub open spec fn names_distinct(s: Seq<String>) -> bool {
    forall|i: int, j: int| 0 <= i < j < s.len() ==> (#[trigger] s[i])@ != (#[trigger] s[j])@
}

/// The state of a compilation, as values.
pub struct CompilerView {
    pub symbols: Map<Seq<char>, SymbolInfo>,
    pub errors: Seq<ParseErrorView>,
    /// Names referenced but not declared so far.
    pub pending: Set<Seq<char>>,
    pub definitions: Map<Seq<char>, (Seq<char>, Seq<NarrativeItemView>)>,
    pub checks_passed: bool,
}

/// The names that one body statement refers to.
pub open spec fn statement_refs(b: BodyStatement) -> Set<Seq<char>> {
    match b {
        BodyStatement::Dialogue { character, .. } => set![character@],
        BodyStatement::Choice { character, options } => set![character@].union(
            jump_targets(options@),
        ),
    }
}

pub open spec fn jump_targets(o: Seq<NarrativeChoice>) -> Set<Seq<char>> {
    Set::new(|n: Seq<char>| exists|i: int| 0 <= i < o.len() && #[trigger] o[i].jump@ == n)
}

/// The names that a body refers to.
pub open spec fn body_refs(b: Seq<BodyStatement>) -> Set<Seq<char>>
    decreases b.len(),
{
    if b.len() == 0 {
        Set::empty()
    } else {
        body_refs(b.drop_last()).union(statement_refs(b.last()))
    }
}

/// The narrative item that a body statement becomes, before attributes are known.
pub open spec fn body_item(b: BodyStatement) -> NarrativeItemView {
    match b {
        BodyStatement::Dialogue { character, text } => NarrativeItemView::Dialogue {
            character: character@,
            display_name: Seq::empty(),
            dialogue: text@,
            attributes: Seq::empty(),
        },
        BodyStatement::Choice { character, options } => NarrativeItemView::ChoiceSet {
            character: character@,
            display_name: Seq::empty(),
            choices: choices_view(options@),
            attributes: Seq::empty(),
        },
    }
}

pub open spec fn body_items(b: Seq<BodyStatement>) -> Seq<NarrativeItemView> {
    b.map_values(|s: BodyStatement| body_item(s))
}

/// The names of `s` that `m` has not declared.
pub open spec fn undeclared(m: CompilerView, s: Set<Seq<char>>) -> Set<Seq<char>> {
    s.filter(|n: Seq<char>| !m.symbols.contains_key(n))
}

/// The effect of one declaration from source `src`.
pub open spec fn declare_step(m: CompilerView, d: Declaration, src: String) -> CompilerView {
    match symbol_type_of(d.kind@) {
        None => CompilerView {
            symbols: m.symbols,
            errors: m.errors.push(ParseErrorView::UnknownAtom(d.kind@)),
            pending: m.pending,
            definitions: m.definitions,
            checks_passed: false,
        },
        Some(t) => if m.symbols.contains_key(d.name@) {
            CompilerView {
                symbols: m.symbols,
                errors: m.errors.push(
                    ParseErrorView::Redeclared {
                        symbol: d.name@,
                        original: m.symbols[d.name@].source@,
                        conflict: src@,
                    },
                ),
                pending: m.pending,
                definitions: m.definitions,
                checks_passed: false,
            }
        } else {
            CompilerView {
                symbols: m.symbols.insert(
                    d.name@,
                    SymbolInfo {
                        source: src,
                        start_position: d.position,
                        symbol_type: t,
                        attributes: d.attributes,
                    },
                ),
                errors: m.errors,
                pending: m.pending.remove(d.name@),
                definitions: m.definitions,
                checks_passed: false,
            }
        },
    }
}

/// The effect of one definition from source `src`: the first definition of a
/// name is kept, a later one is a conflict.
pub open spec fn define_step(m: CompilerView, d: Definition, src: String) -> CompilerView {
    let pending = m.pending.union(undeclared(m, set![d.name@]));
    if m.definitions.contains_key(d.name@) {
        CompilerView {
            symbols: m.symbols,
            errors: m.errors.push(
                ParseErrorView::Redefined {
                    symbol: d.name@,
                    original: m.definitions[d.name@].0,
                    conflict: src@,
                },
            ),
            pending,
            definitions: m.definitions,
            checks_passed: false,
        }
    } else {
        CompilerView {
            symbols: m.symbols,
            errors: m.errors,
            pending: pending.union(undeclared(m, body_refs(d.body@))),
            definitions: m.definitions.insert(d.name@, (src@, body_items(d.body@))),
            checks_passed: false,
        }
    }
}

pub open spec fn statement_step(m: CompilerView, s: Statement, src: String) -> CompilerView {
    match s {
        Statement::Declaration(d) => declare_step(m, d, src),
        Statement::Definition(d) => define_step(m, d, src),
        Statement::Other => m,
    }
}

/// A declaration whose kind token names no kind: it stops the rest of its file.
pub open spec fn is_unknown_atom(s: Statement) -> bool {
    match s {
        Statement::Declaration(d) => symbol_type_of(d.kind@) is None,
        _ => false,
    }
}

/// Whether the statements hold an unknown kind token.
pub open spec fn stops_file(s: Seq<Statement>) -> bool {
    exists|i: int| 0 <= i < s.len() && is_unknown_atom(#[trigger] s[i])
}

/// The effect of one file's statements, in order, up to and including the
/// first unknown kind token; the statements after it are not looked at.
pub open spec fn compile_steps(m: CompilerView, s: Seq<Statement>, src: String) -> CompilerView
    decreases s.len(),
{
    if s.len() == 0 {
        m
    } else if stops_file(s.drop_last()) {
        compile_steps(m, s.drop_last(), src)
    } else {
        statement_step(compile_steps(m, s.drop_last(), src), s.last(), src)
    }
}

/// Once a prefix of a file stops it, the rest of the file changes nothing.
pub proof fn lemma_stopped_prefix(m: CompilerView, s: Seq<Statement>, src: String, j: int)
    requires
        0 <= j <= s.len(),
        stops_file(s.take(j)),
    ensures
        compile_steps(m, s, src) == compile_steps(m, s.take(j), src),
    decreases s.len(),
{
    if j == s.len() {
        assert(s.take(j) =~= s);
    } else {
        let i = choose|i: int| 0 <= i < s.take(j).len() && is_unknown_atom(#[trigger] s.take(j)[i]);
        assert(s.drop_last()[i] == s.take(j)[i]);
        assert(stops_file(s.drop_last()));
        assert(s.drop_last().take(j) =~= s.take(j));
        lemma_stopped_prefix(m, s.drop_last(), src, j);
    }
}

/// The characters that the items of `m`'s definitions speak through.
pub open spec fn speakers_known(m: CompilerView) -> bool {
    forall|a: Seq<char>, i: int|
        #![trigger m.definitions[a].1[i]]
        m.definitions.contains_key(a) && 0 <= i < m.definitions[a].1.len() ==> {
            let c = item_character(m.definitions[a].1[i]);
            m.symbols.contains_key(c) || m.pending.contains(c)
        }
}

/// The invariant of the resolver's state, as values.
pub open spec fn view_inv(m: CompilerView) -> bool {
    &&& forall|n: Seq<char>| #[trigger] m.pending.contains(n) ==> !m.symbols.contains_key(n)
    &&& speakers_known(m)
    &&& m.checks_passed ==> checks_hold(m)
}

pub open spec fn symbols_resolved(m: CompilerView) -> bool {
    m.pending.is_empty()
}

pub open spec fn acts_defined(m: CompilerView) -> bool {
    forall|n: Seq<char>|
        #[trigger] m.symbols.contains_key(n) && m.symbols[n].symbol_type == SymbolType::Act
            ==> m.definitions.contains_key(n)
}

pub open spec fn checks_hold(m: CompilerView) -> bool {
    symbols_resolved(m) && m.errors.len() == 0 && acts_defined(m)
}

/// Accumulates declarations and definitions over several files into one
/// symbol table and one table of act bodies.
#[derive(Debug)]
pub struct Compiler {
    symbols: Vec<(String, SymbolInfo)>,
    errors: Vec<ParseError>,
    unknown_symbols: Vec<String>,
    definition: Vec<(String, ActDefinition)>,
    checks_passed: bool,
}

impl View for Compiler {
    type V = CompilerView;

    closed spec fn view(&self) -> CompilerView {
        CompilerView {
            symbols: table_map(keyed(self.symbols@)),
            errors: self.errors@.map_values(|e: ParseError| e@),
            pending: names_set(self.unknown_symbols@),
            definitions: table_map(acts_view(self.definition@)),
            checks_passed: self.checks_passed,
        }
    }
}

proof fn lemma_acts_keys(t: Seq<(String, ActDefinition)>)
    ensures
        keys_sorted(keyed(t)) == keys_sorted(acts_view(t)),
        forall|k: Seq<char>| has_key(keyed(t), k) == has_key(acts_view(t), k),
        forall|i: int| 0 <= i < t.len() ==> #[trigger] keyed(t)[i].0 == acts_view(t)[i].0,
{
    assert forall|i: int| 0 <= i < t.len() implies #[trigger] keyed(t)[i].0 == acts_view(t)[i].0 by {}
    if keys_sorted(keyed(t)) {
        assert forall|i: int, j: int| 0 <= i < j < acts_view(t).len() implies key_lt(
            #[trigger] acts_view(t)[i].0,
            #[trigger] acts_view(t)[j].0,
        ) by {
            assert(key_lt(keyed(t)[i].0, keyed(t)[j].0));
        }
    }
    if keys_sorted(acts_view(t)) {
        assert forall|i: int, j: int| 0 <= i < j < keyed(t).len() implies key_lt(
            #[trigger] keyed(t)[i].0,
            #[trigger] keyed(t)[j].0,
        ) by {
            assert(key_lt(acts_view(t)[i].0, acts_view(t)[j].0));
        }
    }
    assert forall|k: Seq<char>| has_key(keyed(t), k) implies has_key(acts_view(t), k) by {
        let c = choose|c: int| 0 <= c < keyed(t).len() && #[trigger] keyed(t)[c].0 == k;
        assert(acts_view(t)[c].0 == k);
    }
    assert forall|k: Seq<char>| has_key(acts_view(t), k) implies has_key(keyed(t), k) by {
        let c = choose|c: int| 0 <= c < acts_view(t).len() && #[trigger] acts_view(t)[c].0 == k;
        assert(keyed(t)[c].0 == k);
    }
}

proof fn lemma_body_refs_take(b: Seq<BodyStatement>, k: int)
    requires
        0 <= k < b.len(),
    ensures
        body_refs(b.take(k + 1)) == body_refs(b.take(k)).union(statement_refs(b[k])),
        body_items(b.take(k + 1)) == body_items(b.take(k)).push(body_item(b[k])),
{
    assert(b.take(k + 1).drop_last() =~= b.take(k));
    assert(body_items(b.take(k + 1)) =~= body_items(b.take(k)).push(body_item(b[k])));
}

proof fn lemma_body_refs_contains(b: Seq<BodyStatement>, i: int)
    requires
        0 <= i < b.len(),
    ensures
        statement_refs(b[i]).subset_of(body_refs(b)),
    decreases b.len(),
{
    if i < b.len() - 1 {
        lemma_body_refs_contains(b.drop_last(), i);
    }
}

proof fn lemma_item_character_referenced(b: BodyStatement)
    ensures
        statement_refs(b).contains(item_character(body_item(b))),
{
}

/// Each statement keeps the invariant of the state's values.
pub proof fn lemma_step_inv(m: CompilerView, st: Statement, src: String)
    requires
        view_inv(m),
    ensures
        view_inv(statement_step(m, st, src)),
{
    let r = statement_step(m, st, src);
    match st {
        Statement::Declaration(d) => {
            assert forall|a: Seq<char>, i: int|
                #![trigger r.definitions[a].1[i]]
                r.definitions.contains_key(a) && 0 <= i < r.definitions[a].1.len() implies {
                let c = item_character(r.definitions[a].1[i]);
                r.symbols.contains_key(c) || r.pending.contains(c)
            } by {
                let c = item_character(m.definitions[a].1[i]);
                assert(m.symbols.contains_key(c) || m.pending.contains(c));
            }
        },
        Statement::Definition(d) => {
            if !m.definitions.contains_key(d.name@) {
                assert forall|a: Seq<char>, i: int|
                    #![trigger r.definitions[a].1[i]]
                    r.definitions.contains_key(a) && 0 <= i < r.definitions[a].1.len() implies {
                    let c = item_character(r.definitions[a].1[i]);
                    r.symbols.contains_key(c) || r.pending.contains(c)
                } by {
                    if a == d.name@ {
                        let b = d.body@;
                        lemma_item_character_referenced(b[i]);
                        lemma_body_refs_contains(b, i);
                    } else {
                        let c = item_character(m.definitions[a].1[i]);
                        assert(m.symbols.contains_key(c) || m.pending.contains(c));
                    }
                }
            }
        },
        Statement::Other => {},
    }
}

pub proof fn lemma_steps_inv(m: CompilerView, s: Seq<Statement>, src: String)
    requires
        view_inv(m),
    ensures
        view_inv(compile_steps(m, s, src)),
    decreases s.len(),
{
    if s.len() > 0 {
        lemma_steps_inv(m, s.drop_last(), src);
        lemma_step_inv(compile_steps(m, s.drop_last(), src), s.last(), src);
    }
}

/// Index of a name in a list of names, if it is there.
fn position_of(v: &Vec<String>, name: &str) -> (r: Option<usize>)
    ensures
        r is Some ==> r->Some_0 < v@.len() && v@[r->Some_0 as int]@ == name@,
        r is None ==> !names_set(v@).contains(name@),
{
    let mut i: usize = 0;
    while i < v.len()
        invariant
            i <= v@.len(),
            forall|j: int| 0 <= j < i ==> (#[trigger] v@[j])@ != name@,
        decreases v@.len() - i,
    {
        if same_text(v[i].as_str(), name) {
            return Some(i);
        }
        i = i + 1;
    }
    None
}

impl Compiler {
    pub closed spec fn tables_wf(&self) -> bool {
        &&& keys_sorted(keyed(self.symbols@))
        &&& keys_sorted(acts_view(self.definition@))
        &&& names_distinct(self.unknown_symbols@)
    }

    pub open spec fn wf(&self) -> bool {
        &&& self.tables_wf()
        &&& view_inv(self@)
    }

    fn has_symbol(&self, symbol: &str) -> (r: bool)
        requires
            self.tables_wf(),
        ensures
            r == self@.symbols.contains_key(symbol@),
    {
        seek(&self.symbols, symbol).1
    }

    fn is_defined(&self, symbol: &str) -> (r: bool)
        requires
            self.tables_wf(),
        ensures
            r == self@.definitions.contains_key(symbol@),
    {
        proof {
            lemma_acts_keys(self.definition@);
        }
        seek(&self.definition, symbol).1
    }

    /// Notes a reference to `name`: it is pending until declared.
    fn note_reference(&mut self, name: &String)
        requires
            old(self).tables_wf(),
        ensures
            final(self).tables_wf(),
            final(self).definition == old(self).definition,
            final(self).symbols == old(self).symbols,
            final(self).errors == old(self).errors,
            final(self).checks_passed == old(self).checks_passed,
            final(self)@ == (CompilerView {
                pending: old(self)@.pending.union(undeclared(old(self)@, set![name@])),
                ..old(self)@
            }),
    {
        let ghost m = self@;
        if !self.has_symbol(name.as_str()) {
            match position_of(&self.unknown_symbols, name.as_str()) {
                Some(_) => {
                    assert(m.pending.union(undeclared(m, set![name@])) =~= m.pending);
                },
                None => {
                    let ghost u = self.unknown_symbols@;
                    self.unknown_symbols.push(name.clone());
                    proof {
                        let v = self.unknown_symbols@;
                        assert(v[u.len() as int]@ == name@);
                        assert forall|n: Seq<char>| names_set(v).contains(n) <==> (names_set(u).contains(n) || n == name@) by {
                            if names_set(u).contains(n) {
                                let c = choose|c: int| 0 <= c < u.len() && #[trigger] u[c]@ == n;
                                assert(v[c]@ == n);
                            }
                            if names_set(v).contains(n) && n != name@ {
                                let c = choose|c: int| 0 <= c < v.len() && #[trigger] v[c]@ == n;
                                assert(u[c]@ == n);
                            }
                        }
                        assert(self@.pending =~= m.pending.union(undeclared(m, set![name@])));
                    }
                },
            }
        } else {
            assert(m.pending.union(undeclared(m, set![name@])) =~= m.pending);
        }
        assert(self@ == (CompilerView {
                pending: m.pending.union(undeclared(m, set![name@])),
                ..m
            }));
    }

    /// Drops `name` from the pending names and enters its symbol.
    fn record_symbol(&mut self, symbol: String, info: SymbolInfo)
        requires
            old(self).tables_wf(),
            !old(self)@.symbols.contains_key(symbol@),
        ensures
            final(self).tables_wf(),
            final(self)@ == (CompilerView {
                symbols: old(self)@.symbols.insert(symbol@, info),
                pending: old(self)@.pending.remove(symbol@),
                ..old(self)@
            }),
    {
        let ghost m = self@;
        match position_of(&self.unknown_symbols, symbol.as_str()) {
            Some(i) => {
                let ghost u = self.unknown_symbols@;
                self.unknown_symbols.remove(i);
                proof {
                    let v = self.unknown_symbols@;
                    assert forall|a: int, b: int| 0 <= a < b < v.len() implies (#[trigger] v[a])@
                        != (#[trigger] v[b])@ by {
                        let a2 = if a < i { a } else { a + 1 };
                        let b2 = if b < i { b } else { b + 1 };
                        assert(v[a] == u[a2]);
                        assert(v[b] == u[b2]);
                    }
                    assert forall|n: Seq<char>| names_set(v).contains(n) <==> (names_set(u).contains(n) && n != symbol@) by {
                        if names_set(u).contains(n) && n != symbol@ {
                            let c = choose|c: int| 0 <= c < u.len() && #[trigger] u[c]@ == n;
                            if c < i {
                                assert(v[c]@ == n);
                            } else {
                                assert(c != i);
                                assert(v[c - 1]@ == n);
                            }
                        }
                        if names_set(v).contains(n) {
                            let c = choose|c: int| 0 <= c < v.len() && #[trigger] v[c]@ == n;
                            if c < i {
                                assert(u[c]@ == n);
                            } else {
                                assert(u[c + 1]@ == n);
                            }
                        }
                    }
                    assert(self@.pending =~= m.pending.remove(symbol@));
                }
            },
            None => {
                assert(m.pending.remove(symbol@) =~= m.pending);
            },
        }
        let (pos, _) = seek(&self.symbols, symbol.as_str());
        let ghost k = keyed(self.symbols@);
        self.symbols.insert(pos, (symbol, info));
        proof {
            assert(keyed(self.symbols@) =~= k.insert(pos as int, (symbol@, info)));
            lemma_table_insert(k, pos as int, symbol@, info);
        }
    }

    /// Enters one declaration; returns whether its kind token is unknown.
    fn dec_expr(&mut self, d: Declaration, path: &String) -> (stop: bool)
        requires
            old(self).tables_wf(),
        ensures
            final(self).tables_wf(),
            final(self)@ == declare_step(old(self)@, d, *path),
            stop == is_unknown_atom(Statement::Declaration(d)),
    {
        self.checks_passed = false;
        let ghost m = self@;
        let ghost d0 = d;
        let sym_type = match SymbolType::from_str(d.kind.as_str()) {
            Ok(t) => t,
            Err(e) => {
                let ghost es = self.errors@;
                self.errors.push(e);
                proof {
                    assert(self.errors@.map_values(|e: ParseError| e@) =~= m.errors.push(
                        ParseErrorView::UnknownAtom(d0.kind@),
                    ));
                }
                return true;
            },
        };
        let Declaration { kind: _, name, position, attributes } = d;
        let (pos, found) = seek(&self.symbols, name.as_str());
        if found {
            proof {
                lemma_table_map_at(keyed(self.symbols@), pos as int);
            }
            let err = ParseError::Redeclared {
                symbol: name,
                original: self.symbols[pos].1.source.clone(),
                conflict: path.clone(),
            };
            self.errors.push(err);
            proof {
                assert(self.errors@.map_values(|e: ParseError| e@) =~= m.errors.push(err@));
            }
        } else {
            let info = SymbolInfo::new(path.clone(), sym_type, position, attributes);
            self.record_symbol(name, info);
        }
        false
    }

    /// Turns a definition's body into narrative items, noting each name it
    /// refers to.
    fn dialogue_def(&mut self, body: Vec<BodyStatement>) -> (r: Vec<NarrativeItem>)
        requires
            old(self).tables_wf(),
        ensures
            final(self).tables_wf(),
            final(self).definition == old(self).definition,
            final(self).symbols == old(self).symbols,
            final(self).errors == old(self).errors,
            final(self).checks_passed == old(self).checks_passed,
            items_view(r@) == body_items(body@),
            final(self)@ == (CompilerView {
                pending: old(self)@.pending.union(undeclared(old(self)@, body_refs(body@))),
                ..old(self)@
            }),
    {
        let ghost m = self@;
        let ghost c0 = *self;
        let ghost b0 = body@;
        let n = body.len();
        let mut rest = body;
        let mut items: Vec<NarrativeItem> = Vec::new();
        let mut k: usize = 0;
        proof {
            assert(b0.take(0) =~= Seq::<BodyStatement>::empty());
            assert(b0.skip(0) =~= b0);
            assert(m.pending.union(undeclared(m, body_refs(b0.take(0)))) =~= m.pending);
            assert(items_view(items@) =~= body_items(b0.take(0)));
        }
        while rest.len() > 0
            invariant
                self.tables_wf(),
                self.definition == c0.definition,
                self.symbols == c0.symbols,
                self.errors == c0.errors,
                self.checks_passed == c0.checks_passed,
                b0.len() == n,
                k <= b0.len(),
                rest@ == b0.skip(k as int),
                items_view(items@) == body_items(b0.take(k as int)),
                self@ == (CompilerView {
                    pending: m.pending.union(undeclared(m, body_refs(b0.take(k as int)))),
                    ..m
                }),
            decreases rest@.len(),
        {
            let ghost before = self@;
            let st = rest.remove(0);
            proof {
                assert(st == b0[k as int]);
                lemma_body_refs_take(b0, k as int);
            }
            let item = match st {
                BodyStatement::Dialogue { character, text } => {
                    self.note_reference(&character);
                    proof {
                        assert(self@.pending =~= m.pending.union(
                            undeclared(m, body_refs(b0.take(k + 1))),
                        ));
                    }
                    let it = NarrativeItem::Dialogue {
                        character,
                        display_name: String::new(),
                        dialogue: text,
                        attributes: Vec::new(),
                    };
                    proof {
                        assert(attrs_view(Seq::<SymbolAttributes>::empty()) =~= Seq::empty());
                        assert(it@ =~= body_item(b0[k as int]));
                    }
                    it
                },
                BodyStatement::Choice { character, options } => {
                    self.note_reference(&character);
                    let ghost p1 = self@.pending;
                    let mut j: usize = 0;
                    proof {
                        assert(jump_targets(options@.take(0)) =~= Set::empty());
                        assert(p1.union(undeclared(m, jump_targets(options@.take(0)))) =~= p1);
                    }
                    while j < options.len()
                        invariant
                            self.tables_wf(),
                            self.definition == c0.definition,
                            self.symbols == c0.symbols,
                            self.errors == c0.errors,
                            self.checks_passed == c0.checks_passed,
                            j <= options@.len(),
                            self@ == (CompilerView {
                                pending: p1.union(undeclared(m, jump_targets(options@.take(j as int)))),
                                ..m
                            }),
                        decreases options@.len() - j,
                    {
                        self.note_reference(&options[j].jump);
                        proof {
                            let o = options@;
                            assert forall|n: Seq<char>| jump_targets(o.take(j + 1)).contains(n) <==> (
                                jump_targets(o.take(j as int)).contains(n) || n == o[j as int].jump@) by {
                                if jump_targets(o.take(j + 1)).contains(n) {
                                    let c = choose|c: int| 0 <= c < o.take(j + 1).len() && #[trigger] o.take(j + 1)[c].jump@ == n;
                                    if c < j {
                                        assert(o.take(j as int)[c].jump@ == n);
                                    }
                                }
                                if jump_targets(o.take(j as int)).contains(n) {
                                    let c = choose|c: int| 0 <= c < o.take(j as int).len() && #[trigger] o.take(j as int)[c].jump@ == n;
                                    assert(o.take(j + 1)[c].jump@ == n);
                                }
                                if n == o[j as int].jump@ {
                                    assert(o.take(j + 1)[j as int].jump@ == n);
                                }
                            }
                            assert(self@.pending =~= p1.union(undeclared(m, jump_targets(o.take(j + 1)))));
                        }
                        j = j + 1;
                    }
                    proof {
                        assert(options@.take(j as int) =~= options@);
                        assert(self@.pending =~= m.pending.union(
                            undeclared(m, body_refs(b0.take(k + 1))),
                        ));
                    }
                    let it = NarrativeItem::ChoiceSet {
                        character,
                        display_name: String::new(),
                        choices: options,
                        attributes: Vec::new(),
                    };
                    proof {
                        assert(attrs_view(Seq::<SymbolAttributes>::empty()) =~= Seq::empty());
                        assert(it@ =~= body_item(b0[k as int]));
                    }
                    it
                },
            };
            proof {
                assert(item@ == body_item(b0[k as int]));
            }
            items.push(item);
            proof {
                assert(items_view(items@) =~= body_items(b0.take(k + 1)));
                assert(rest@ =~= b0.skip(k + 1));
            }
            k = k + 1;
        }
        proof {
            assert(b0.take(k as int) =~= b0);
        }
        items
    }

    fn def_expr(&mut self, d: Definition, path: &String)
        requires
            old(self).tables_wf(),
        ensures
            final(self).tables_wf(),
            final(self)@ == define_step(old(self)@, d, *path),
    {
        self.checks_passed = false;
        let ghost m = self@;
        let Definition { name, body } = d;
        self.note_reference(&name);
        proof {
            lemma_acts_keys(self.definition@);
        }
        let (pos, found) = seek(&self.definition, name.as_str());
        if found {
            proof {
                lemma_table_map_at(acts_view(self.definition@), pos as int);
            }
            let err = ParseError::Redefined {
                symbol: name,
                original: self.definition[pos].1.source.clone(),
                conflict: path.clone(),
            };
            self.errors.push(err);
            proof {
                assert(self.errors@.map_values(|e: ParseError| e@) =~= m.errors.push(err@));
            }
        } else {
            let items = self.dialogue_def(body);
            let ghost k = acts_view(self.definition@);
            proof {
                lemma_acts_keys(self.definition@);
                assert forall|i: int| 0 <= i < pos implies key_lt(#[trigger] k[i].0, name@) by {
                    assert(key_lt(keyed(self.definition@)[i].0, name@));
                }
                assert forall|i: int| pos <= i < k.len() implies key_lt(name@, #[trigger] k[i].0) by {
                    assert(key_lt(name@, keyed(self.definition@)[i].0));
                }
            }
            let entry = ActDefinition { source: path.clone(), items };
            self.definition.insert(pos, (name, entry));
            proof {
                assert(acts_view(self.definition@) =~= k.insert(pos as int, (name@, act_view(entry))));
                lemma_table_insert(k, pos as int, name@, act_view(entry));
                assert(self@.pending =~= define_step(m, d, *path).pending);
            }
        }
    }

    /// Folds one file's statements into the shared state. An unknown kind
    /// token stops the file: the statements after it are not looked at.
    pub fn compile(&mut self, statements: Vec<Statement>, path: &String)
        requires
            old(self).wf(),
        ensures
            final(self).wf(),
            final(self)@ == compile_steps(old(self)@, statements@, *path),
    {
        let ghost m = self@;
        let ghost s0 = statements@;
        let n = statements.len();
        let mut rest = statements;
        let mut k: usize = 0;
        let mut stopped = false;
        proof {
            assert(s0.skip(0) =~= s0);
            assert(s0.take(0) =~= Seq::<Statement>::empty());
        }
        while rest.len() > 0 && !stopped
            invariant
                self.tables_wf(),
                s0.len() == n,
                k <= s0.len(),
                rest@ == s0.skip(k as int),
                self@ == compile_steps(m, s0.take(k as int), *path),
                stopped == stops_file(s0.take(k as int)),
            decreases rest@.len(),
        {
            let st = rest.remove(0);
            proof {
                assert(st == s0[k as int]);
                assert(s0.take(k + 1).drop_last() =~= s0.take(k as int));
                assert(s0.take(k + 1).last() == st);
            }
            match st {
                Statement::Declaration(d) => {
                    stopped = self.dec_expr(d, path);
                },
                Statement::Definition(d) => self.def_expr(d, path),
                Statement::Other => {},
            }
            proof {
                assert(rest@ =~= s0.skip(k + 1));
                let t = s0.take(k + 1);
                if stopped {
                    assert(is_unknown_atom(t[k as int]));
                } else {
                    assert forall|i: int| 0 <= i < t.len() implies !is_unknown_atom(#[trigger] t[i]) by {
                        if i < k {
                            assert(t[i] == s0.take(k as int)[i]);
                        }
                    }
                }
            }
            k = k + 1;
        }
        proof {
            if stopped {
                lemma_stopped_prefix(m, s0, *path, k as int);
            } else {
                assert(s0.take(k as int) =~= s0);
            }
            lemma_steps_inv(m, s0, *path);
        }
    }

    pub fn new() -> (r: Self)
        ensures
            r.wf(),
            r@.symbols.is_empty(),
            r@.errors.len() == 0,
            r@.pending.is_empty(),
            r@.definitions.is_empty(),
            !r@.checks_passed,
    {
        let r = Compiler {
            symbols: Vec::new(),
            errors: Vec::new(),
            unknown_symbols: Vec::new(),
            definition: Vec::new(),
            checks_passed: false,
        };
        proof {
            assert(r@.symbols =~= Map::empty());
            assert(r@.definitions =~= Map::empty());
            assert(r@.pending =~= Set::empty());
        }
        r
    }
}


/// An act symbol of `m` that has no definition.
pub open spec fn undefined_act(m: CompilerView, n: Seq<char>) -> bool {
    m.symbols.contains_key(n) && m.symbols[n].symbol_type == SymbolType::Act
        && !m.definitions.contains_key(n)
}

impl Compiler {
    /// The diagnostics recorded while compiling.
    pub fn errors(&self) -> (r: &Vec<ParseError>)
        ensures
            r@.map_values(|e: ParseError| e@) == self@.errors,
    {
        &self.errors
    }

    /// Whether every referenced name has been declared.
    pub fn are_symbols_defined(&self) -> (r: bool)
        requires
            self.wf(),
        ensures
            r == symbols_resolved(self@),
    {
        let r = self.unknown_symbols.len() == 0;
        proof {
            if !r {
                assert(self@.pending.contains(self.unknown_symbols@[0]@));
            } else {
                assert(self@.pending =~= Set::empty());
            }
        }
        r
    }

    /// One `UndeclaredSymbol` for each name referenced but never declared.
    pub fn undeclared_symbols(&self) -> (r: Vec<ParseError>)
        requires
            self.wf(),
        ensures
            forall|i: int| 0 <= i < r@.len() ==> (#[trigger] r@[i])@ is UndeclaredSymbol
                && self@.pending.contains(r@[i]@->UndeclaredSymbol_0),
            forall|n: Seq<char>| #[trigger] self@.pending.contains(n) ==> exists|i: int|
                0 <= i < r@.len() && (#[trigger] r@[i])@ == ParseErrorView::UndeclaredSymbol(n),
            forall|i: int, j: int| 0 <= i < j < r@.len() ==> (#[trigger] r@[i])@ != (#[trigger] r@[j])@,
    {
        let u = &self.unknown_symbols;
        let mut r: Vec<ParseError> = Vec::new();
        let mut i: usize = 0;
        while i < u.len()
            invariant
                self.wf(),
                u == &self.unknown_symbols,
                i <= u@.len(),
                r@.len() == i,
                forall|j: int| 0 <= j < i ==> (#[trigger] r@[j])@ == ParseErrorView::UndeclaredSymbol(u@[j]@),
            decreases u@.len() - i,
        {
            r.push(ParseError::UndeclaredSymbol(u[i].clone()));
            i = i + 1;
        }
        proof {
            assert forall|n: Seq<char>| #[trigger] self@.pending.contains(n) implies exists|i: int|
                0 <= i < r@.len() && (#[trigger] r@[i])@ == ParseErrorView::UndeclaredSymbol(n) by {
                let c = choose|c: int| 0 <= c < u@.len() && #[trigger] u@[c]@ == n;
                assert(r@[c]@ == ParseErrorView::UndeclaredSymbol(n));
            }
            assert forall|a: int, b: int| 0 <= a < b < r@.len() implies (#[trigger] r@[a])@ != (#[trigger] r@[b])@ by {
                assert(u@[a]@ != u@[b]@);
            }
            assert forall|a: int| 0 <= a < r@.len() implies (#[trigger] r@[a])@ is UndeclaredSymbol
                && self@.pending.contains(r@[a]@->UndeclaredSymbol_0) by {
                assert(u@[a]@ == r@[a]@->UndeclaredSymbol_0);
            }
        }
        r
    }

    /// Whether no conflict or unknown atom has been recorded.
    pub fn is_error_free(&self) -> (r: bool)
        ensures
            r == (self@.errors.len() == 0),
    {
        self.errors.len() == 0
    }

    /// Whether every act symbol has a definition.
    pub fn all_acts_defined(&self) -> (r: bool)
        requires
            self.wf(),
        ensures
            r == acts_defined(self@),
    {
        let mut flag = true;
        let mut i: usize = 0;
        let ghost k = keyed(self.symbols@);
        while i < self.symbols.len()
            invariant
                self.wf(),
                k == keyed(self.symbols@),
                i <= self.symbols@.len(),
                flag == (forall|j: int| 0 <= j < i ==> !undefined_act(self@, #[trigger] k[j].0)),
            decreases self.symbols@.len() - i,
        {
            proof {
                lemma_table_map_at(k, i as int);
            }
            if let SymbolType::Act = self.symbols[i].1.symbol_type {
                if !self.is_defined(self.symbols[i].0.as_str()) {
                    flag = false;
                }
            }
            i = i + 1;
        }
        proof {
            if flag {
                assert forall|n: Seq<char>| #[trigger] self@.symbols.contains_key(n)
                    && self@.symbols[n].symbol_type == SymbolType::Act implies self@.definitions.contains_key(n) by {
                    let c = choose|c: int| 0 <= c < k.len() && #[trigger] k[c].0 == n;
                    assert(!undefined_act(self@, k[c].0));
                }
            }
        }
        flag
    }

    /// One `UndefinedSymbol` for each act symbol without a definition, in key order.
    pub fn undefined_acts(&self) -> (r: Vec<ParseError>)
        requires
            self.wf(),
        ensures
            forall|i: int| 0 <= i < r@.len() ==> (#[trigger] r@[i])@ is UndefinedSymbol
                && undefined_act(self@, r@[i]@->UndefinedSymbol_0),
            forall|n: Seq<char>| #[trigger] undefined_act(self@, n) ==> exists|i: int|
                0 <= i < r@.len() && (#[trigger] r@[i])@ == ParseErrorView::UndefinedSymbol(n),
            forall|i: int, j: int| 0 <= i < j < r@.len() ==> key_lt(
                (#[trigger] r@[i])@->UndefinedSymbol_0,
                (#[trigger] r@[j])@->UndefinedSymbol_0,
            ),
    {
        let mut r: Vec<ParseError> = Vec::new();
        let ghost idx: Seq<int> = Seq::empty();
        let mut i: usize = 0;
        let ghost k = keyed(self.symbols@);
        while i < self.symbols.len()
            invariant
                self.wf(),
                k == keyed(self.symbols@),
                i <= self.symbols@.len(),
                idx.len() == r@.len(),
                forall|a: int| 0 <= a < idx.len() ==> 0 <= #[trigger] idx[a] < i,
                forall|a: int, b: int| 0 <= a < b < idx.len() ==> #[trigger] idx[a] < #[trigger] idx[b],
                forall|a: int| 0 <= a < r@.len() ==> (#[trigger] r@[a])@
                    == ParseErrorView::UndefinedSymbol(k[idx[a]].0) && undefined_act(self@, k[idx[a]].0),
                forall|j: int| 0 <= j < i && #[trigger] undefined_act(self@, k[j].0) ==> exists|a: int|
                    0 <= a < idx.len() && #[trigger] idx[a] == j,
            decreases self.symbols@.len() - i,
        {
            proof {
                lemma_table_map_at(k, i as int);
            }
            let ghost idx0 = idx;
            if let SymbolType::Act = self.symbols[i].1.symbol_type {
                if !self.is_defined(self.symbols[i].0.as_str()) {
                    r.push(ParseError::UndefinedSymbol(self.symbols[i].0.clone()));
                    proof {
                        idx = idx.push(i as int);
                        assert(idx[idx.len() - 1] == i);
                    }
                }
            }
            proof {
                assert forall|j: int| 0 <= j < i + 1 && #[trigger] undefined_act(self@, k[j].0) implies exists|a: int|
                    0 <= a < idx.len() && #[trigger] idx[a] == j by {
                    if j < i {
                        let a = choose|a: int| 0 <= a < idx0.len() && #[trigger] idx0[a] == j;
                        assert(idx[a] == j);
                    } else {
                        assert(idx[idx.len() - 1] == j);
                    }
                }
            }
            i = i + 1;
        }
        proof {
            assert forall|n: Seq<char>| #[trigger] undefined_act(self@, n) implies exists|a: int|
                0 <= a < r@.len() && (#[trigger] r@[a])@ == ParseErrorView::UndefinedSymbol(n) by {
                let c = choose|c: int| 0 <= c < k.len() && #[trigger] k[c].0 == n;
                assert(undefined_act(self@, k[c].0));
                let a = choose|a: int| 0 <= a < idx.len() && #[trigger] idx[a] == c;
                assert(r@[a]@ == ParseErrorView::UndefinedSymbol(n));
            }
            assert forall|a: int, b: int| 0 <= a < b < r@.len() implies key_lt(
                (#[trigger] r@[a])@->UndefinedSymbol_0,
                (#[trigger] r@[b])@->UndefinedSymbol_0,
            ) by {
                assert(idx[a] < idx[b]);
                assert(key_lt(k[idx[a]].0, k[idx[b]].0));
            }
        }
        r
    }

    /// Runs the three checks, always all three, and records whether all passed.
    pub fn run_checks(&mut self) -> (r: bool)
        requires
            old(self).wf(),
        ensures
            final(self).wf(),
            r == checks_hold(old(self)@),
            final(self)@ == (CompilerView { checks_passed: r, ..old(self)@ }),
    {
        let success: [bool; 3] = [
            self.are_symbols_defined(),
            self.is_error_free(),
            self.all_acts_defined(),
        ];
        self.checks_passed = success[0] && success[1] && success[2];
        self.checks_passed
    }

    /// Whether the last run of the checks passed.
    pub fn checks_passed(&self) -> (r: bool)
        ensures
            r == self@.checks_passed,
    {
        self.checks_passed
    }
}


/// The display name that a character's attributes give: the value of the last
/// attribute keyed `name`, or `current` where there is none.
pub open spec fn display_of(attrs: Seq<(Seq<char>, Seq<char>)>, current: Seq<char>) -> Seq<char>
    decreases attrs.len(),
{
    if attrs.len() == 0 {
        current
    } else if attrs.last().0 == "name"@ {
        attrs.last().1
    } else {
        display_of(attrs.drop_last(), current)
    }
}

/// An item with its character's attributes and display name copied onto it.
pub open spec fn propagate_item(
    it: NarrativeItemView,
    symbols: Map<Seq<char>, SymbolInfo>,
) -> NarrativeItemView {
    let attrs = attrs_view(symbols[item_character(it)].attributes@);
    match it {
        NarrativeItemView::Dialogue { character, display_name, dialogue, .. } =>
            NarrativeItemView::Dialogue {
            character,
            display_name: display_of(attrs, display_name),
            dialogue,
            attributes: attrs,
        },
        NarrativeItemView::ChoiceSet { character, display_name, choices, .. } =>
            NarrativeItemView::ChoiceSet {
            character,
            display_name: display_of(attrs, display_name),
            choices,
            attributes: attrs,
        },
    }
}

pub open spec fn propagate_items(
    items: Seq<NarrativeItemView>,
    symbols: Map<Seq<char>, SymbolInfo>,
) -> Seq<NarrativeItemView> {
    items.map_values(|it: NarrativeItemView| propagate_item(it, symbols))
}

/// The definitions of `m` after the attribute pass.
pub open spec fn propagated(m: CompilerView) -> Map<Seq<char>, (Seq<char>, Seq<NarrativeItemView>)> {
    Map::new(
        |k: Seq<char>| m.definitions.contains_key(k),
        |k: Seq<char>| (m.definitions[k].0, propagate_items(m.definitions[k].1, m.symbols)),
    )
}

proof fn lemma_table_pointwise(
    s: Seq<(Seq<char>, (Seq<char>, Seq<NarrativeItemView>))>,
    t: Seq<(Seq<char>, (Seq<char>, Seq<NarrativeItemView>))>,
    symbols: Map<Seq<char>, SymbolInfo>,
)
    requires
        keys_sorted(s),
        t.len() == s.len(),
        forall|i: int| 0 <= i < s.len() ==> #[trigger] t[i] == (s[i].0, (s[i].1.0, propagate_items(s[i].1.1, symbols))),
    ensures
        keys_sorted(t),
        table_map(t) == Map::new(
            |k: Seq<char>| table_map(s).contains_key(k),
            |k: Seq<char>| (table_map(s)[k].0, propagate_items(table_map(s)[k].1, symbols)),
        ),
{
    assert forall|i: int| 0 <= i < s.len() implies #[trigger] t[i].0 == s[i].0 by {
        assert(t[i] == (s[i].0, (s[i].1.0, propagate_items(s[i].1.1, symbols))));
    }
    assert forall|i: int, j: int| 0 <= i < j < t.len() implies key_lt(#[trigger] t[i].0, #[trigger] t[j].0) by {
        assert(key_lt(s[i].0, s[j].0));
    }
    let goal = Map::new(
        |k: Seq<char>| table_map(s).contains_key(k),
        |k: Seq<char>| (table_map(s)[k].0, propagate_items(table_map(s)[k].1, symbols)),
    );
    assert forall|k: Seq<char>| has_key(t, k) <==> has_key(s, k) by {
        if has_key(t, k) {
            let c = choose|c: int| 0 <= c < t.len() && #[trigger] t[c].0 == k;
            assert(s[c].0 == k);
        }
        if has_key(s, k) {
            let c = choose|c: int| 0 <= c < s.len() && #[trigger] s[c].0 == k;
            assert(t[c].0 == k);
        }
    }
    assert forall|k: Seq<char>| #[trigger] table_map(t).contains_key(k) implies table_map(t)[k] == goal[k] by {
        let c = choose|c: int| 0 <= c < s.len() && #[trigger] s[c].0 == k;
        lemma_table_map_at(s, c);
        lemma_table_map_at(t, c);
        assert(t[c] == (s[c].0, (s[c].1.0, propagate_items(s[c].1.1, symbols))));
    }
    assert(table_map(t) =~= goal);
}

impl Compiler {
    /// The act table in key order.
    pub fn definitions(&self) -> (r: &Vec<(String, ActDefinition)>)
        requires
            self.wf(),
        ensures
            keys_sorted(acts_view(r@)),
            table_map(acts_view(r@)) == self@.definitions,
    {
        &self.definition
    }

    /// The items of an act, if it is defined.
    pub fn definition_of(&self, act: &str) -> (r: Option<&Vec<NarrativeItem>>)
        requires
            self.wf(),
        ensures
            r is Some <==> self@.definitions.contains_key(act@),
            r is Some ==> items_view(r->Some_0@) == self@.definitions[act@].1,
    {
        proof {
            lemma_acts_keys(self.definition@);
        }
        let (pos, found) = seek(&self.definition, act);
        if found {
            proof {
                lemma_table_map_at(acts_view(self.definition@), pos as int);
            }
            Some(&self.definition[pos].1.items)
        } else {
            None
        }
    }

    /// The symbol of a name, if it is declared.
    pub fn symbol(&self, name: &str) -> (r: Option<&SymbolInfo>)
        requires
            self.wf(),
        ensures
            r is Some <==> self@.symbols.contains_key(name@),
            r is Some ==> *r->Some_0 == self@.symbols[name@],
    {
        let (pos, found) = seek(&self.symbols, name);
        if found {
            proof {
                lemma_table_map_at(keyed(self.symbols@), pos as int);
            }
            Some(&self.symbols[pos].1)
        } else {
            None
        }
    }

    /// The display name that `attrs` give, starting from `current`.
    fn display_name_from(attrs: &Vec<SymbolAttributes>, current: &String) -> (r: String)
        ensures
            r@ == display_of(attrs_view(attrs@), current@),
    {
        let mut r = current.clone();
        let mut i: usize = 0;
        proof {
            assert(attrs_view(attrs@).take(0) =~= Seq::<(Seq<char>, Seq<char>)>::empty());
        }
        while i < attrs.len()
            invariant
                i <= attrs@.len(),
                r@ == display_of(attrs_view(attrs@).take(i as int), current@),
            decreases attrs@.len() - i,
        {
            if same_text(attrs[i].key.as_str(), "name") {
                r = attrs[i].value.clone();
            }
            proof {
                let a = attrs_view(attrs@);
                assert(a.take(i + 1).drop_last() =~= a.take(i as int));
                assert(a.take(i + 1).last() == attrs@[i as int]@);
            }
            i = i + 1;
        }
        proof {
            assert(attrs_view(attrs@).take(i as int) =~= attrs_view(attrs@));
        }
        r
    }

    /// An item with the attributes of its character copied onto it.
    fn patch(&self, it: &NarrativeItem) -> (r: NarrativeItem)
        requires
            self.wf(),
            self@.symbols.contains_key(item_character(it@)),
        ensures
            r@ == propagate_item(it@, self@.symbols),
    {
        let info = match self.symbol(it.character().as_str()) {
            Some(info) => info,
            None => {
                assert(false);
                return NarrativeItem::Dialogue {
                    character: String::new(),
                    display_name: String::new(),
                    dialogue: String::new(),
                    attributes: Vec::new(),
                };
            },
        };
        match it {
            NarrativeItem::Dialogue { character, display_name, dialogue, .. } => {
                NarrativeItem::Dialogue {
                    character: character.clone(),
                    display_name: Self::display_name_from(&info.attributes, display_name),
                    dialogue: dialogue.clone(),
                    attributes: duplicate_attributes(&info.attributes),
                }
            },
            NarrativeItem::ChoiceSet { character, display_name, choices, .. } => {
                NarrativeItem::ChoiceSet {
                    character: character.clone(),
                    display_name: Self::display_name_from(&info.attributes, display_name),
                    choices: duplicate_choices(choices),
                    attributes: duplicate_attributes(&info.attributes),
                }
            },
        }
    }

    /// Copies each referenced character's attributes, and its display name,
    /// onto every narrative item that speaks through it.
    fn update_narrative_items(&mut self)
        requires
            old(self).wf(),
            old(self)@.checks_passed,
        ensures
            final(self).wf(),
            final(self)@ == (CompilerView { definitions: propagated(old(self)@), ..old(self)@ }),
    {
        let ghost m = self@;
        let ghost s = acts_view(self.definition@);
        let mut updated: Vec<(String, ActDefinition)> = Vec::new();
        let mut i: usize = 0;
        while i < self.definition.len()
            invariant
                self.wf(),
                self@ == m,
                s == acts_view(self.definition@),
                m.checks_passed,
                i <= s.len(),
                updated@.len() == i,
                forall|j: int| 0 <= j < i ==> #[trigger] acts_view(updated@)[j] == (s[j].0, (s[j].1.0, propagate_items(s[j].1.1, m.symbols))),
            decreases s.len() - i,
        {
            let items = &self.definition[i].1.items;
            let mut patched: Vec<NarrativeItem> = Vec::new();
            let mut j: usize = 0;
            proof {
                lemma_table_map_at(s, i as int);
            }
            while j < items.len()
                invariant
                    self.wf(),
                    self@ == m,
                    s == acts_view(self.definition@),
                    m.checks_passed,
                    i < s.len(),
                    items == &self.definition@[i as int].1.items,
                    m.definitions[s[i as int].0] == s[i as int].1,
                    j <= items@.len(),
                    patched@.len() == j,
                    forall|a: int| 0 <= a < j ==> (#[trigger] patched@[a])@ == propagate_item(items@[a]@, m.symbols),
                decreases items@.len() - j,
            {
                proof {
                    let it = m.definitions[s[i as int].0].1[j as int];
                    assert(it == items@[j as int]@);
                    assert(m.symbols.contains_key(item_character(it)) || m.pending.contains(item_character(it)));
                }
                patched.push(self.patch(&items[j]));
                j = j + 1;
            }
            let entry = ActDefinition { source: self.definition[i].1.source.clone(), items: patched };
            let ghost before = updated@;
            updated.push((self.definition[i].0.clone(), entry));
            proof {
                assert(items_view(patched@) =~= propagate_items(s[i as int].1.1, m.symbols));
                let u = acts_view(updated@);
                assert forall|a: int| 0 <= a < i + 1 implies #[trigger] u[a] == (s[a].0, (s[a].1.0, propagate_items(s[a].1.1, m.symbols))) by {
                    if a < i {
                        assert(updated@[a] == before[a]);
                        assert(acts_view(before)[a] == (s[a].0, (s[a].1.0, propagate_items(s[a].1.1, m.symbols))));
                    } else {
                        assert(updated@[a] == (self.definition@[i as int].0, entry));
                        assert(s[a].1.1 == items_view(self.definition@[i as int].1.items@));
                        assert(items_view(patched@) =~= propagate_items(s[a].1.1, m.symbols));
                    }
                }
            }
            i = i + 1;
        }
        proof {
            lemma_table_pointwise(s, acts_view(updated@), m.symbols);
            assert(forall|i: int| 0 <= i < s.len() ==> #[trigger] acts_view(updated@)[i] == (s[i].0, (s[i].1.0, propagate_items(s[i].1.1, m.symbols))));
        }
        self.definition = updated;
        proof {
            assert(self@.definitions =~= propagated(m));
            assert forall|a: Seq<char>, i: int|
                #![trigger self@.definitions[a].1[i]]
                self@.definitions.contains_key(a) && 0 <= i < self@.definitions[a].1.len() implies {
                let c = item_character(self@.definitions[a].1[i]);
                self@.symbols.contains_key(c) || self@.pending.contains(c)
            } by {
                let c = item_character(m.definitions[a].1[i]);
                assert(m.symbols.contains_key(c) || m.pending.contains(c));
                assert(item_character(self@.definitions[a].1[i]) == c);
            }
        }
    }

    /// Refuses unless the checks have passed; then runs the attribute pass, so
    /// that each act's items are ready to be serialised and stored.
    pub fn generate_data_files(&mut self) -> (r: Result<(), crate::error::EncodeError>)
        requires
            old(self).wf(),
        ensures
            final(self).wf(),
            !old(self)@.checks_passed ==> r is Err && r->Err_0 is ChecksNotPassed && final(self)@ == old(self)@,
            old(self)@.checks_passed ==> r is Ok && final(self)@ == (CompilerView {
                definitions: propagated(old(self)@),
                ..old(self)@
            }),
    {
        if !self.checks_passed {
            return Err(crate::error::EncodeError::ChecksNotPassed);
        }
        self.update_narrative_items();
        Ok(())
    }
}

} // verus!

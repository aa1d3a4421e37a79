//! Properties that hold across calls: resolution, conflicts, and the stored story.

use vstd::prelude::*;
use crate::codec::{compressible, snappy_block};
use crate::compiler::{
    acts_defined, body_items, checks_hold, compile_steps, declare_step, define_step, display_of,
    lemma_steps_inv, stops_file,
    propagate_item, statement_step, undefined_act, view_inv, CompilerView, SymbolInfo,
};
use crate::error::ParseErrorView;
use crate::model::{
    attrs_view, item_character, item_display_name, symbol_type_of, Declaration, Definition,
    NarrativeItemView, Statement,
};
use crate::store::{
    block_start, concat_blocks, encodable, lemma_concat_prefix_len, lemma_distinct_map_at,
    record_blocks, NarrativeIndex,
};

verus! {

/// The state after compiling each file in turn: its statements and its source.
pub open spec fn compile_files(m: CompilerView, files: Seq<(Seq<Statement>, String)>) -> CompilerView
    decreases files.len(),
{
    if files.len() == 0 {
        m
    } else {
        let last = files.last();
        compile_steps(compile_files(m, files.drop_last()), last.0, last.1)
    }
}

/// Whatever files are compiled, in whatever order, a declared name is never
/// pending: every reference to it resolves, before or after the declaration.
pub proof fn lemma_declared_names_resolve(m: CompilerView, files: Seq<(Seq<Statement>, String)>)
    requires
        view_inv(m),
    ensures
        view_inv(compile_files(m, files)),
        forall|n: Seq<char>|
            #[trigger] compile_files(m, files).symbols.contains_key(n) ==> !compile_files(
                m,
                files,
            ).pending.contains(n),
    decreases files.len(),
{
    if files.len() > 0 {
        lemma_declared_names_resolve(m, files.drop_last());
        let last = files.last();
        lemma_steps_inv(compile_files(m, files.drop_last()), last.0, last.1);
    }
}

/// Compiling one file that holds a single statement.
pub open spec fn compile_one(m: CompilerView, s: Statement, src: String) -> CompilerView {
    compile_steps(m, seq![s], src)
}

proof fn lemma_compile_one(m: CompilerView, s: Statement, src: String)
    ensures
        compile_one(m, s, src) == statement_step(m, s, src),
{
    assert(seq![s].drop_last() =~= Seq::<Statement>::empty());
    assert(seq![s].last() == s);
    assert(!stops_file(Seq::<Statement>::empty()));
    assert(compile_steps(m, Seq::<Statement>::empty(), src) == m);
    assert(compile_steps(m, seq![s], src) == statement_step(
        compile_steps(m, seq![s].drop_last(), src),
        s,
        src,
    ));
}

/// A file whose statements are all of kinds that the resolver skips changes
/// nothing, not even the outcome of the checks.
pub proof fn lemma_ignored_statements(m: CompilerView, s: Seq<Statement>, src: String)
    requires
        forall|i: int| 0 <= i < s.len() ==> #[trigger] s[i] is Other,
    ensures
        compile_steps(m, s, src) == m,
    decreases s.len(),
{
    if s.len() > 0 {
        assert forall|i: int| 0 <= i < s.drop_last().len() implies #[trigger] s.drop_last()[i] is Other by {
            assert(s.drop_last()[i] == s[i]);
        }
        lemma_ignored_statements(m, s.drop_last(), src);
        assert(s.last() is Other);
    }
}

/// A second declaration of a name, in a later compile call, adds exactly one
/// `Redeclared` record naming both sources, and the symbol keeps what the
/// first declaration gave it.
pub proof fn lemma_redeclaration(
    m: CompilerView,
    first: Declaration,
    first_src: String,
    second: Declaration,
    second_src: String,
)
    requires
        !m.symbols.contains_key(first.name@),
        second.name@ == first.name@,
        symbol_type_of(first.kind@) is Some,
        symbol_type_of(second.kind@) is Some,
    ensures
        ({
            let r = compile_one(
                compile_one(m, Statement::Declaration(first), first_src),
                Statement::Declaration(second),
                second_src,
            );
            &&& r.errors == m.errors.push(
                ParseErrorView::Redeclared {
                    symbol: first.name@,
                    original: first_src@,
                    conflict: second_src@,
                },
            )
            &&& r.symbols[first.name@] == (SymbolInfo {
                source: first_src,
                start_position: first.position,
                symbol_type: symbol_type_of(first.kind@)->Some_0,
                attributes: first.attributes,
            })
        }),
{
    lemma_compile_one(m, Statement::Declaration(first), first_src);
    let m1 = compile_one(m, Statement::Declaration(first), first_src);
    lemma_compile_one(m1, Statement::Declaration(second), second_src);
}

/// A second definition of an act, in a later compile call, adds exactly one
/// `Redefined` record naming both sources, and the act keeps the first body.
pub proof fn lemma_redefinition(
    m: CompilerView,
    first: Definition,
    first_src: String,
    second: Definition,
    second_src: String,
)
    requires
        !m.definitions.contains_key(first.name@),
        second.name@ == first.name@,
    ensures
        ({
            let r = compile_one(
                compile_one(m, Statement::Definition(first), first_src),
                Statement::Definition(second),
                second_src,
            );
            &&& r.errors == m.errors.push(
                ParseErrorView::Redefined {
                    symbol: first.name@,
                    original: first_src@,
                    conflict: second_src@,
                },
            )
            &&& r.definitions[first.name@] == (first_src@, body_items(first.body@))
        }),
{
    lemma_compile_one(m, Statement::Definition(first), first_src);
    let m1 = compile_one(m, Statement::Definition(first), first_src);
    lemma_compile_one(m1, Statement::Definition(second), second_src);
}

proof fn lemma_display_of_settles(attrs: Seq<(Seq<char>, Seq<char>)>, current: Seq<char>)
    ensures
        display_of(attrs, display_of(attrs, current)) == display_of(attrs, current),
    decreases attrs.len(),
{
    if attrs.len() > 0 && attrs.last().0 != "name"@ {
        lemma_display_of_settles(attrs.drop_last(), current);
        lemma_display_of_keeps(attrs.drop_last(), current);
    }
}

proof fn lemma_display_of_keeps(attrs: Seq<(Seq<char>, Seq<char>)>, current: Seq<char>)
    ensures
        display_of(attrs, current) == current || (exists|i: int|
            0 <= i < attrs.len() && attrs[i].0 == "name"@ && display_of(attrs, current) == attrs[i].1),
    decreases attrs.len(),
{
    if attrs.len() > 0 {
        lemma_display_of_keeps(attrs.drop_last(), current);
        if attrs.last().0 != "name"@ && display_of(attrs, current) != current {
            let i = choose|i: int|
                0 <= i < attrs.drop_last().len() && attrs.drop_last()[i].0 == "name"@
                    && display_of(attrs.drop_last(), current) == attrs.drop_last()[i].1;
            assert(attrs[i] == attrs.drop_last()[i]);
        }
    }
}

/// The attribute pass may run again: a second run changes nothing.
pub proof fn lemma_propagation_idempotent(it: NarrativeItemView, symbols: Map<Seq<char>, SymbolInfo>)
    ensures
        propagate_item(propagate_item(it, symbols), symbols) == propagate_item(it, symbols),
{
    let attrs = attrs_view(symbols[item_character(it)].attributes@);
    lemma_display_of_settles(attrs, item_display_name(it));
}

/// An act symbol without a definition fails the act check, and so the checks.
pub proof fn lemma_undefined_act_fails(m: CompilerView, n: Seq<char>)
    requires
        undefined_act(m, n),
    ensures
        !acts_defined(m),
        !checks_hold(m),
{
}

proof fn lemma_concat_prefix(b: Seq<Seq<u8>>, i: int)
    requires
        0 <= i <= b.len(),
    ensures
        concat_blocks(b.take(i)) == concat_blocks(b).subrange(0, concat_blocks(b.take(i)).len() as int),
    decreases b.len() - i,
{
    if i < b.len() {
        lemma_concat_prefix(b, i + 1);
        assert(b.take(i + 1).drop_last() =~= b.take(i));
        let p = concat_blocks(b.take(i));
        let q = concat_blocks(b.take(i + 1));
        lemma_concat_prefix_len(b, i + 1);
        assert(q =~= p + b[i]);
        assert(p =~= q.subrange(0, p.len() as int));
        assert(concat_blocks(b).subrange(0, p.len() as int) =~= concat_blocks(b).subrange(
            0,
            q.len() as int,
        ).subrange(0, p.len() as int));
    } else {
        assert(b.take(i) =~= b);
        assert(concat_blocks(b).subrange(0, concat_blocks(b).len() as int) =~= concat_blocks(b));
    }
}

/// In the index that the encoder gives, each act's range holds, whole, the
/// block of its record; so reading the act back gives its record.
pub proof fn lemma_story_round_trip(records: Seq<(String, Vec<u8>)>, index: NarrativeIndex, i: int)
    requires
        encodable(records),
        index.wf(),
        index.ranges().len() == records.len(),
        forall|j: int|
            0 <= j < records.len() ==> #[trigger] index.ranges()[j] == (
                records[j].0@,
                (block_start(records, j) as usize, block_start(records, j + 1) as usize),
            ),
        0 <= i < records.len(),
    ensures
        index.range_map().contains_key(records[i].0@),
        index.range_map()[records[i].0@] == (
            block_start(records, i) as usize,
            block_start(records, i + 1) as usize,
        ),
        0 <= block_start(records, i) <= block_start(records, i + 1) <= concat_blocks(
            record_blocks(records),
        ).len(),
        concat_blocks(record_blocks(records)).subrange(
            block_start(records, i),
            block_start(records, i + 1),
        ) == snappy_block(records[i].1@),
        compressible(records[i].1@.len()),
{
    let b = record_blocks(records);
    lemma_concat_prefix(b, i + 1);
    lemma_concat_prefix_len(b, i + 1);
    assert(b.take(i + 1).drop_last() =~= b.take(i));
    let p = concat_blocks(b.take(i));
    let q = concat_blocks(b.take(i + 1));
    assert(q =~= p + b[i]);
    assert(concat_blocks(b).subrange(p.len() as int, q.len() as int) =~= q.subrange(
        p.len() as int,
        q.len() as int,
    ));
    assert(q.subrange(p.len() as int, q.len() as int) =~= b[i]);
    lemma_distinct_map_at(index.ranges(), i);
}

/// The sum of the lengths of the first `n` ranges.
pub open spec fn ranges_total(records: Seq<(String, Vec<u8>)>, n: int) -> int
    decreases n,
{
    if n <= 0 {
        0
    } else {
        ranges_total(records, n - 1) + (block_start(records, n) - block_start(records, n - 1))
    }
}

/// The ranges, taken in key order, start at 0, each ends where the next
/// starts, and the last ends at the blob's end: their lengths add up to it.
pub proof fn lemma_ranges_partition(records: Seq<(String, Vec<u8>)>)
    ensures
        block_start(records, 0) == 0,
        forall|i: int|
            0 <= i < records.len() ==> #[trigger] block_start(records, i) <= block_start(
                records,
                i + 1,
            ),
        block_start(records, records.len() as int) == concat_blocks(record_blocks(records)).len(),
        ranges_total(records, records.len() as int) == concat_blocks(record_blocks(records)).len(),
{
    let b = record_blocks(records);
    assert(b.take(0) =~= Seq::<Seq<u8>>::empty());
    assert(b.take(records.len() as int) =~= b);
    assert forall|i: int| 0 <= i < records.len() implies #[trigger] block_start(records, i)
        <= block_start(records, i + 1) by {
        assert(b.take(i + 1).drop_last() =~= b.take(i));
    }
    lemma_ranges_total(records, records.len() as int);
}

proof fn lemma_ranges_total(records: Seq<(String, Vec<u8>)>, n: int)
    requires
        0 <= n,
    ensures
        ranges_total(records, n) == block_start(records, n) - block_start(records, 0),
    decreases n,
{
    if n > 0 {
        lemma_ranges_total(records, n - 1);
    }
}

/// A declaration of a name that is already declared, wherever it stands,
/// adds exactly one `Redeclared` record naming both sources and changes no
/// symbol.
pub proof fn lemma_redeclared_statement(m: CompilerView, d: Declaration, src: String)
    requires
        m.symbols.contains_key(d.name@),
        symbol_type_of(d.kind@) is Some,
    ensures
        declare_step(m, d, src).errors == m.errors.push(
            ParseErrorView::Redeclared {
                symbol: d.name@,
                original: m.symbols[d.name@].source@,
                conflict: src@,
            },
        ),
        declare_step(m, d, src).symbols == m.symbols,
{
}

/// A definition of an act that is already defined, wherever it stands, adds
/// exactly one `Redefined` record naming both sources, keeps every body, and
/// adds to the pending names at most the act's own name.
pub proof fn lemma_redefined_statement(m: CompilerView, d: Definition, src: String)
    requires
        m.definitions.contains_key(d.name@),
    ensures
        define_step(m, d, src).errors == m.errors.push(
            ParseErrorView::Redefined {
                symbol: d.name@,
                original: m.definitions[d.name@].0,
                conflict: src@,
            },
        ),
        define_step(m, d, src).definitions == m.definitions,
        define_step(m, d, src).pending.subset_of(m.pending.insert(d.name@)),
{
}

/// Over any files, once a name is declared or defined, what the first
/// declaration or definition entered stays as it was.
pub proof fn lemma_first_entries_kept(m: CompilerView, files: Seq<(Seq<Statement>, String)>)
    ensures
        forall|n: Seq<char>|
            #[trigger] m.symbols.contains_key(n) ==> compile_files(m, files).symbols.contains_key(n)
                && compile_files(m, files).symbols[n] == m.symbols[n],
        forall|n: Seq<char>|
            #[trigger] m.definitions.contains_key(n) ==> compile_files(
                m,
                files,
            ).definitions.contains_key(n) && compile_files(m, files).definitions[n]
                == m.definitions[n],
    decreases files.len(),
{
    if files.len() > 0 {
        lemma_first_entries_kept(m, files.drop_last());
        let mid = compile_files(m, files.drop_last());
        let last = files.last();
        lemma_steps_keep_entries(mid, last.0, last.1);
    }
}

proof fn lemma_steps_keep_entries(m: CompilerView, s: Seq<Statement>, src: String)
    ensures
        forall|n: Seq<char>|
            #[trigger] m.symbols.contains_key(n) ==> compile_steps(m, s, src).symbols.contains_key(n)
                && compile_steps(m, s, src).symbols[n] == m.symbols[n],
        forall|n: Seq<char>|
            #[trigger] m.definitions.contains_key(n) ==> compile_steps(
                m,
                s,
                src,
            ).definitions.contains_key(n) && compile_steps(m, s, src).definitions[n]
                == m.definitions[n],
    decreases s.len(),
{
    if s.len() > 0 {
        lemma_steps_keep_entries(m, s.drop_last(), src);
    }
}

} // verus!

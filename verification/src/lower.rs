//! Lowering: the surface tree to the positional core IR.
//!
//! Everything surface-level is resolved here: predicates are interned in
//! first-appearance order with their arities checked; named arguments are
//! placed by the field schema a `declare` or an import gave (omitted fields
//! become fresh anonymous slots); wildcards become fresh slots and named
//! variables dense per-clause slots; inline arithmetic in an atom argument is
//! hoisted to an `=`-assignment (or, in a fact, folded to its value); an
//! aggregate becomes a body literal of its own binding a fresh result slot.
//! Then every rule and query is checked for safety against the body schedule,
//! and the rules are stratified. Every error found is reported, not only the
//! first.
use vstd::prelude::*;

use crate::ast;
use crate::error::{Error, ErrorKind};
use crate::ir;
use crate::ir::ValueView;
use crate::print::{spec_lit_preds_ok, spec_lits_preds_ok, spec_rule_preds_ok};
use crate::schedule::spec_schedule;
use crate::text::{push_str, str_equal, to_owned};

verus! {

// --- Messages ---

/// The concatenation of `parts`.
pub open spec fn spec_concat(parts: Seq<Seq<char>>) -> Seq<char>
    decreases parts.len(),
{
    if parts.len() == 0 {
        seq![]
    } else {
        spec_concat(parts.drop_last()) + parts.last()
    }
}

/// Joins message parts into one string.
fn cat(parts: &[&str]) -> (r: String)
    ensures
        r@ == spec_concat(parts@.map_values(|p: &str| p@)),
{
    let ghost all = parts@.map_values(|p: &str| p@);
    let mut out = String::new();
    let mut i: usize = 0;
    while i < parts.len()
        invariant
            i <= parts.len(),
            all == parts@.map_values(|p: &str| p@),
            out@ == spec_concat(all.take(i as int)),
        decreases parts.len() - i,
    {
        push_str(&mut out, parts[i]);
        proof {
            assert(all.take(i + 1).drop_last() =~= all.take(i as int));
        }
        i += 1;
    }
    assert(all.take(all.len() as int) =~= all);
    out
}

/// The decimal numeral of `n`.
fn num(n: u64) -> (r: String)
    ensures
        r@ == crate::text::decimal(n as nat),
{
    let digits = crate::text::decimal_chars(n);
    crate::text::string_of(digits.as_slice())
}

/// `items` joined by `, `.
fn join_names(items: &Vec<String>) -> (r: String)
    ensures
        r@ == crate::text::comma_joined(items@.map_values(|n: String| n@)),
{
    let ghost all = items@.map_values(|n: String| n@);
    let mut out = String::new();
    let mut i: usize = 0;
    while i < items.len()
        invariant
            i <= items@.len(),
            all == items@.map_values(|n: String| n@),
            out@ == crate::text::comma_joined(all.take(i as int)),
        decreases items.len() - i,
    {
        if i > 0 {
            push_str(&mut out, ", ");
        }
        push_str(&mut out, items[i].as_str());
        proof {
            reveal_strlit(", ");
            assert(all.take(i + 1).drop_last() =~= all.take(i as int));
            assert(all.take(i + 1).last() == items@[i as int]@);
            if i == 0 {
                assert(out@ =~= all.take(1)[0]);
            }
        }
        i += 1;
    }
    assert(all.take(all.len() as int) =~= all);
    out
}

/// Every error is a lowering error.
pub open spec fn all_semantic(errors: Seq<Error>) -> bool {
    forall|i: int| 0 <= i < errors.len() ==> (#[trigger] errors[i]).kind == ErrorKind::Semantic
}

// --- Copies ---

fn copy_strings(v: &Vec<String>) -> (r: Vec<String>)
    ensures
        r@.len() == v@.len(),
        forall|i: int| 0 <= i < v@.len() ==> (#[trigger] r@[i])@ == v@[i]@,
{
    let mut out: Vec<String> = Vec::new();
    let mut i: usize = 0;
    while i < v.len()
        invariant
            i <= v.len(),
            out@.len() == i,
            forall|j: int| 0 <= j < i ==> (#[trigger] out@[j])@ == v@[j]@,
        decreases v.len() - i,
    {
        out.push(to_owned(v[i].as_str()));
        i += 1;
    }
    out
}

fn copy_types(v: &Vec<Option<ast::TypeName>>) -> (r: Vec<Option<ast::TypeName>>)
    ensures
        r@ == v@,
{
    let mut out: Vec<Option<ast::TypeName>> = Vec::new();
    let mut i: usize = 0;
    while i < v.len()
        invariant
            i <= v.len(),
            out@ == v@.take(i as int),
        decreases v.len() - i,
    {
        out.push(v[i]);
        i += 1;
        assert(out@ =~= v@.take(i as int));
    }
    assert(v@.take(v@.len() as int) =~= v@);
    out
}

fn strings_equal(a: &Vec<String>, b: &Vec<String>) -> (r: bool)
    ensures
        r == (a@.len() == b@.len() && forall|i: int| 0 <= i < a@.len() ==> (#[trigger] a@[i])@ == b@[i]@),
{
    if a.len() != b.len() {
        return false;
    }
    let mut i: usize = 0;
    while i < a.len()
        invariant
            i <= a.len() == b.len(),
            forall|j: int| 0 <= j < i ==> (#[trigger] a@[j])@ == b@[j]@,
        decreases a.len() - i,
    {
        if !str_equal(a[i].as_str(), b[i].as_str()) {
            return false;
        }
        i += 1;
    }
    true
}

fn types_equal(a: &Vec<Option<ast::TypeName>>, b: &Vec<Option<ast::TypeName>>) -> (r: bool)
    ensures
        r == (a@ == b@),
{
    if a.len() != b.len() {
        return false;
    }
    let mut i: usize = 0;
    while i < a.len()
        invariant
            i <= a.len() == b.len(),
            forall|j: int| 0 <= j < i ==> a@[j] == b@[j],
        decreases a.len() - i,
    {
        if a[i] != b[i] {
            return false;
        }
        i += 1;
    }
    assert(a@ =~= b@);
    true
}

// --- Lowering state ---

/// Where a schema came from, so a conflict can name both sources.
#[derive(Debug, Clone, Copy, PartialEq, Eq, Structural)]
enum SchemaOrigin {
    Declare,
    Import,
    /// Field names from a loaded source's header.
    SourceHeader,
}

fn origin_label(o: SchemaOrigin) -> (r: &'static str)
    ensures
        r@ == match o {
            SchemaOrigin::Declare => "`declare`"@,
            SchemaOrigin::Import => "the import schema"@,
            SchemaOrigin::SourceHeader => "the source header"@,
        },
{
    match o {
        SchemaOrigin::Declare => "`declare`",
        SchemaOrigin::Import => "the import schema",
        SchemaOrigin::SourceHeader => "the source header",
    }
}

/// One predicate's field names and declared types, by position.
struct FieldSchema {
    pred: String,
    fields: Vec<String>,
    field_types: Vec<Option<ast::TypeName>>,
    origin: SchemaOrigin,
}

/// No two schemas are for the same predicate.
spec fn schemas_unique(schemas: Seq<FieldSchema>) -> bool {
    forall|i: int, j: int|
        0 <= i < schemas.len() && 0 <= j < schemas.len() && i != j ==> (#[trigger] schemas[i]).pred@
            != (#[trigger] schemas[j]).pred@
}

/// Whether some schema is for `name`.
spec fn schema_named(schemas: Seq<FieldSchema>, name: Seq<char>) -> bool {
    exists|k: int| 0 <= k < schemas.len() && (#[trigger] schemas[k]).pred@ == name
}

/// `after` is `before` with a schema for `name` recorded: a new schema when
/// none was for `name`, with one error per repeated field name; otherwise the
/// schemas unchanged, with one more error where the fields or their types
/// differ from the recorded schema's.
spec fn schema_recorded(
    before: Lowerer,
    after: Lowerer,
    name: Seq<char>,
    fields: Seq<Seq<char>>,
    types: Seq<Option<ast::TypeName>>,
    origin: SchemaOrigin,
) -> bool {
    &&& after.errors@.subrange(0, before.errors@.len() as int) == before.errors@
    &&& !schema_named(before.schemas@, name) ==> after.errors@.len() == before.errors@.len() + dup_count(fields)
        && after.schemas@.drop_last() == before.schemas@ && after.schemas@.len() == before.schemas@.len() + 1
        && after.schemas@.last().pred@ == name && after.schemas@.last().fields@.map_values(|n: String| n@)
        == fields && after.schemas@.last().field_types@ == types && after.schemas@.last().origin == origin
    &&& forall|k: int|
        0 <= k < before.schemas@.len() && (#[trigger] before.schemas@[k]).pred@ == name ==> after.schemas
            == before.schemas && after.errors@.len() == before.errors@.len() + dup_count(fields) + if before.schemas@[k].fields@.map_values(
            |n: String| n@,
        ) == fields && before.schemas@[k].field_types@ == types {
            0int
        } else {
            1int
        }
}

/// `new` is `old` with the schema `schema` attached where its length is the
/// predicate's arity: the same name and arity, and the schema's field names
/// and types; otherwise `old` unchanged.
pub open spec fn field_names_attached(
    old: ir::PredicateInfo,
    new: ir::PredicateInfo,
    schema: Option<(Seq<Seq<char>>, Seq<Option<ast::TypeName>>)>,
) -> bool {
    match schema {
        Some((fields, types)) => if fields.len() == old.arity {
            &&& new.name@ == old.name@
            &&& new.arity == old.arity
            &&& new.fields matches Some(f) && f@.map_values(|n: String| n@) == fields
            &&& new.field_types matches Some(t) && t@ == types
        } else {
            new == old
        },
        None => new == old,
    }
}

/// How many of `names` repeat a name before them.
spec fn dup_count(names: Seq<Seq<char>>) -> nat
    decreases names.len(),
{
    if names.len() == 0 {
        0
    } else {
        dup_count(names.drop_last()) + if names.drop_last().contains(names.last()) {
            1nat
        } else {
            0nat
        }
    }
}

/// `name` is interned at `arity`.
pub open spec fn interned(preds: Seq<ir::PredicateInfo>, name: Seq<char>, arity: u32) -> bool {
    exists|i: int| 0 <= i < preds.len() && (#[trigger] preds[i]).name@ == name && preds[i].arity == arity
}

/// A literal's atom, where it is a positional atom, is interned at its arity.
pub open spec fn atom_collected(preds: Seq<ir::PredicateInfo>, l: ast::Literal) -> bool {
    l.kind matches ast::LiteralKind::Atom { atom, .. } ==> (atom.args matches ast::Args::Positional(terms)
        ==> interned(preds, atom.predicate.name@, terms@.len() as u32))
}

/// Some predicate of `preds` is named `name`.
pub open spec fn named(preds: Seq<ir::PredicateInfo>, name: Seq<char>) -> bool {
    exists|i: int| 0 <= i < preds.len() && (#[trigger] preds[i]).name@ == name
}

/// `new` keeps every entry of `old`, in place, and may add more.
pub open spec fn keeps(old: Seq<ir::PredicateInfo>, new: Seq<ir::PredicateInfo>) -> bool {
    &&& old.len() <= new.len()
    &&& forall|i: int| 0 <= i < old.len() ==> #[trigger] new[i] == old[i]
}

/// `new` extends `old` and names each of its predicates as `old` did, at the
/// same arity.
pub open spec fn keeps_names(old: Seq<ir::PredicateInfo>, new: Seq<ir::PredicateInfo>) -> bool {
    &&& old.len() <= new.len()
    &&& forall|i: int| 0 <= i < old.len() ==> (#[trigger] new[i]).name@ == old[i].name@ && new[i].arity == old[i].arity
}

proof fn lemma_keeps_interned(a: Seq<ir::PredicateInfo>, b: Seq<ir::PredicateInfo>, name: Seq<char>, arity: u32)
    requires
        keeps(a, b),
        interned(a, name, arity),
    ensures
        interned(b, name, arity),
{
    let i = choose|i: int| 0 <= i < a.len() && (#[trigger] a[i]).name@ == name && a[i].arity == arity;
    assert(b[i] == a[i]);
}

proof fn lemma_keeps_collected(a: Seq<ir::PredicateInfo>, b: Seq<ir::PredicateInfo>, l: ast::Literal)
    requires
        keeps(a, b),
        atom_collected(a, l),
    ensures
        atom_collected(b, l),
{
    if let ast::LiteralKind::Atom { atom, .. } = l.kind {
        if let ast::Args::Positional(terms) = atom.args {
            lemma_keeps_interned(a, b, atom.predicate.name@, terms@.len() as u32);
        }
    }
}

/// What pass one interns for a statement: a declared or schema-giving
/// imported relation at its schema's length, and every positional atom of a
/// clause or query at its arity.
pub open spec fn statement_collected(preds: Seq<ir::PredicateInfo>, st: ast::Statement) -> bool {
    match st.kind {
        ast::StatementKind::Import(im) => im.kind matches ast::ImportKind::Data { relation, schema, .. } ==> (
        schema matches Some(fields) ==> interned(preds, relation.name@, fields@.len() as u32)),
        ast::StatementKind::Declare(d) => interned(preds, d.relation.name@, d.fields@.len() as u32),
        ast::StatementKind::Clause(c) => (c.head.args matches ast::Args::Positional(terms) ==> interned(
            preds,
            c.head.predicate.name@,
            terms@.len() as u32,
        )) && forall|k: int| 0 <= k < c.body@.len() ==> atom_collected(preds, #[trigger] c.body@[k]),
        ast::StatementKind::Query(q) => forall|k: int|
            0 <= k < q.body@.len() ==> atom_collected(preds, #[trigger] q.body@[k]),
    }
}

proof fn lemma_keeps_statement(a: Seq<ir::PredicateInfo>, b: Seq<ir::PredicateInfo>, st: ast::Statement)
    requires
        keeps(a, b),
        statement_collected(a, st),
    ensures
        statement_collected(b, st),
{
    match st.kind {
        ast::StatementKind::Import(im) => {
            if let ast::ImportKind::Data { relation, schema, .. } = im.kind {
                if let Some(fields) = schema {
                    lemma_keeps_interned(a, b, relation.name@, fields@.len() as u32);
                }
            }
        },
        ast::StatementKind::Declare(d) => lemma_keeps_interned(a, b, d.relation.name@, d.fields@.len() as u32),
        ast::StatementKind::Clause(c) => {
            if let ast::Args::Positional(terms) = c.head.args {
                lemma_keeps_interned(a, b, c.head.predicate.name@, terms@.len() as u32);
            }
            assert forall|k: int| 0 <= k < c.body@.len() implies atom_collected(b, #[trigger] c.body@[k]) by {
                lemma_keeps_collected(a, b, c.body@[k]);
            }
        },
        ast::StatementKind::Query(q) => {
            assert forall|k: int| 0 <= k < q.body@.len() implies atom_collected(b, #[trigger] q.body@[k]) by {
                lemma_keeps_collected(a, b, q.body@[k]);
            }
        },
    }
}

proof fn lemma_keeps_trans(a: Seq<ir::PredicateInfo>, b: Seq<ir::PredicateInfo>, c: Seq<ir::PredicateInfo>)
    requires
        keeps(a, b),
        keeps(b, c),
    ensures
        keeps(a, c),
{
    assert forall|i: int| 0 <= i < a.len() implies #[trigger] c[i] == a[i] by {
        assert(c[i] == b[i]);
    }
}

/// Whether an atom is a clause head (named form must supply every field) or a
/// body atom (named form may select some).
#[derive(Debug, Clone, Copy, PartialEq, Eq, Structural)]
enum AtomPos {
    Head,
    Body,
}

/// How an inline-arithmetic atom argument is resolved: hoisted to an
/// `=`-assignment (rules and queries) or folded to its value (facts).
#[derive(Debug, Clone, Copy, PartialEq, Eq, Structural)]
enum ArgMode {
    Hoist,
    Fold,
}

/// Predicate names occur once each.
pub open spec fn names_unique(preds: Seq<ir::PredicateInfo>) -> bool {
    forall|i: int, j: int|
        0 <= i < preds.len() && 0 <= j < preds.len() && i != j ==> (#[trigger] preds[i]).name@
            != (#[trigger] preds[j]).name@
}

/// Lowering state: the interned predicates, the field schemas, and the
/// errors found so far.
pub struct Lowerer {
    pub predicates: Vec<ir::PredicateInfo>,
    schemas: Vec<FieldSchema>,
    pub errors: Vec<Error>,
}

impl Lowerer {
    /// Predicates are named once each and numbered by `u32`; every error is a
    /// lowering error.
    pub closed spec fn wf(&self) -> bool {
        &&& self.predicates@.len() <= u32::MAX
        &&& names_unique(self.predicates@)
        &&& all_semantic(self.errors@)
        &&& schemas_unique(self.schemas@)
    }

    /// The predicate table so far.
    pub closed spec fn preds(&self) -> Seq<ir::PredicateInfo> {
        self.predicates@
    }

    /// The field names and declared types recorded for predicate `name`.
    pub closed spec fn schema_of(&self, name: Seq<char>) -> Option<(Seq<Seq<char>>, Seq<Option<ast::TypeName>>)> {
        if schema_named(self.schemas@, name) {
            let k = choose|k: int| 0 <= k < self.schemas@.len() && (#[trigger] self.schemas@[k]).pred@ == name;
            Some((self.schemas@[k].fields@.map_values(|n: String| n@), self.schemas@[k].field_types@))
        } else {
            None
        }
    }

    /// How many errors were recorded so far.
    pub closed spec fn error_count(&self) -> nat {
        self.errors@.len()
    }

    /// `self` continues `old`: no predicate lost, no error withdrawn.
    pub closed spec fn grows(&self, old: &Lowerer) -> bool {
        &&& self.wf()
        &&& keeps_names(old.predicates@, self.predicates@)
        &&& old.errors@.len() <= self.errors@.len()
    }

    fn err(&mut self, message: String)
        requires
            old(self).wf(),
        ensures
            final(self).grows(&*old(self)),
            final(self).errors@.len() == old(self).errors@.len() + 1,
            final(self).errors@.drop_last() == old(self).errors@,
            final(self).errors@.last().message@ == message@,
            final(self).predicates == old(self).predicates,
            final(self).schemas == old(self).schemas,
    {
        let e = Error::semantic(message);
        self.errors.push(e);
        assert(forall|i: int|
            0 <= i < old(self).errors@.len() ==> self.errors@[i] == old(self).errors@[i]);
        assert(self.errors@.drop_last() =~= old(self).errors@);
    }

    /// The index of the predicate named `name`, if interned.
    fn find_pred(&self, name: &str) -> (r: Option<usize>)
        ensures
            match r {
                Some(i) => i < self.predicates@.len() && self.predicates@[i as int].name@ == name@,
                None => forall|i: int|
                    0 <= i < self.predicates@.len() ==> (#[trigger] self.predicates@[i]).name@
                        != name@,
            },
    {
        let mut i: usize = 0;
        while i < self.predicates.len()
            invariant
                i <= self.predicates@.len(),
                forall|j: int| 0 <= j < i ==> (#[trigger] self.predicates@[j]).name@ != name@,
            decreases self.predicates.len() - i,
        {
            if str_equal(self.predicates[i].name.as_str(), name) {
                return Some(i);
            }
            i += 1;
        }
        None
    }

    /// Interns `name` at `arity`, reporting an error when it was interned
    /// before at another arity.
    fn intern_checked(&mut self, name: &str, arity: u32) -> (r: ir::PredId)
        requires
            old(self).wf(),
        ensures
            final(self).grows(&*old(self)),
            final(self).schemas == old(self).schemas,
            (r.0 as int) < final(self).predicates@.len(),
            final(self).predicates@[r.0 as int].name@ == name@ || final(self).errors@.len()
                > old(self).errors@.len(),
            keeps(old(self).predicates@, final(self).predicates@),
            final(self).errors@.len() == old(self).errors@.len() ==> interned(final(self).predicates@, name@, arity),
            final(self).predicates@.len() <= old(self).predicates@.len() + 1,
            final(self).predicates@.len() == old(self).predicates@.len() + 1 ==> final(self).predicates@.last().name@
                == name@ && final(self).predicates@.last().arity == arity,
            interned(old(self).predicates@, name@, arity) || (!named(old(self).predicates@, name@) && old(
                self).predicates@.len() < 0xffff_ffff) ==> final(self).errors@ == old(self).errors@,
    {
        match self.find_pred(name) {
            Some(i) => {
                let known = self.predicates[i].arity;
                if known != arity {
                    let m = cat(
                        &[
                            "predicate `",
                            name,
                            "` used with arity ",
                            num(arity as u64).as_str(),
                            ", but previously with arity ",
                            num(known as u64).as_str(),
                        ],
                    );
                    self.err(m);
                }
                ir::PredId(i as u32)
            },
            None => {
                let n = self.predicates.len();
                if n >= 0xffff_ffff {
                    let m = cat(&["too many predicates to intern `", name, "`"]);
                    self.err(m);
                    return ir::PredId(0);
                }
                let info = ir::PredicateInfo {
                    name: to_owned(name),
                    arity,
                    fields: None,
                    field_types: None,
                };
                self.predicates.push(info);
                proof {
                    assert forall|i: int, j: int|
                        0 <= i < self.predicates@.len() && 0 <= j < self.predicates@.len() && i
                            != j implies (#[trigger] self.predicates@[i]).name@
                        != (#[trigger] self.predicates@[j]).name@ by {
                        if i < n && j < n {
                            assert(self.predicates@[i] == old(self).predicates@[i]);
                            assert(self.predicates@[j] == old(self).predicates@[j]);
                        } else if i < n {
                            assert(self.predicates@[i] == old(self).predicates@[i]);
                        } else {
                            assert(self.predicates@[j] == old(self).predicates@[j]);
                        }
                    }
                }
                ir::PredId(n as u32)
            },
        }
    }

    /// An interned predicate, or `name` interned at arity 0 (a schema-less
    /// import no clause uses, whose arity only its loaded source could give).
    fn pred_id(&mut self, name: &str) -> (r: ir::PredId)
        requires
            old(self).wf(),
        ensures
            final(self).grows(&*old(self)),
            final(self).schemas == old(self).schemas,
            (r.0 as int) < final(self).predicates@.len(),
            final(self).predicates@[r.0 as int].name@ == name@ || final(self).errors@.len() > old(self).errors@.len(),
            keeps(old(self).predicates@, final(self).predicates@),
            named(old(self).predicates@, name@) ==> final(self).errors@ == old(self).errors@ && final(self).predicates@
                == old(self).predicates@ && final(self).predicates@[r.0 as int].name@ == name@,
    {
        match self.find_pred(name) {
            Some(i) => ir::PredId(i as u32),
            None => self.intern_checked(name, 0),
        }
    }

    /// The schema recorded for `pred`.
    fn find_schema(&self, pred: &str) -> (r: Option<usize>)
        ensures
            r matches Some(i) ==> i < self.schemas@.len() && self.schemas@[i as int].pred@ == pred@,
            r is None ==> !schema_named(self.schemas@, pred@),
    {
        let mut i: usize = 0;
        while i < self.schemas.len()
            invariant
                i <= self.schemas@.len(),
                forall|k: int| 0 <= k < i ==> (#[trigger] self.schemas@[k]).pred@ != pred@,
            decreases self.schemas.len() - i,
        {
            if str_equal(self.schemas[i].pred.as_str(), pred) {
                return Some(i);
            }
            i += 1;
        }
        None
    }

    /// Records a schema for `name`, reporting a field named twice and a
    /// conflict with a schema recorded before.
    fn collect_schema_parts(
        &mut self,
        name: &str,
        positions: Vec<String>,
        field_types: Vec<Option<ast::TypeName>>,
        origin: SchemaOrigin,
    )
        requires
            old(self).wf(),
        ensures
            final(self).grows(&*old(self)),
            final(self).predicates == old(self).predicates,
            final(self).errors@.subrange(0, old(self).errors@.len() as int) == old(self).errors@,
            !schema_named(old(self).schemas@, name@) ==> final(self).errors@.len() == old(self).errors@.len()
                + dup_count(positions@.map_values(|n: String| n@)) && final(self).schemas@.drop_last() == old(
                self).schemas@ && final(self).schemas@.len() == old(self).schemas@.len() + 1 && final(
                self).schemas@.last() == (FieldSchema { pred: final(self).schemas@.last().pred, fields: positions, field_types, origin })
                && final(self).schemas@.last().pred@ == name@,
            forall|k: int|
                0 <= k < old(self).schemas@.len() && (#[trigger] old(self).schemas@[k]).pred@ == name@ ==> final(
                    self).schemas == old(self).schemas && final(self).errors@.len() == old(self).errors@.len()
                    + dup_count(positions@.map_values(|n: String| n@)) + if old(self).schemas@[k].fields@.map_values(
                    |n: String| n@,
                ) == positions@.map_values(|n: String| n@) && old(self).schemas@[k].field_types@ == field_types@ {
                    0int
                } else {
                    1int
                },
    {
        let ghost names = positions@.map_values(|n: String| n@);
        let ghost e0 = self.errors@.len();
        let mut p: usize = 0;
        while p < positions.len()
            invariant
                p <= positions@.len(),
                names == positions@.map_values(|n: String| n@),
                e0 == old(self).errors@.len(),
                self.grows(&*old(self)),
                self.predicates == old(self).predicates,
                self.schemas == old(self).schemas,
                self.errors@.len() == e0 + dup_count(names.take(p as int)),
                self.errors@.subrange(0, e0 as int) == old(self).errors@,
            decreases positions.len() - p,
        {
            let mut q: usize = 0;
            let mut seen = false;
            while q < p
                invariant
                    q <= p < positions.len(),
                    names == positions@.map_values(|n: String| n@),
                    seen == exists|j: int| 0 <= j < q && names[j] == names[p as int],
                decreases p - q,
            {
                proof {
                    assert(names[q as int] == positions@[q as int]@);
                    assert(names[p as int] == positions@[p as int]@);
                }
                if str_equal(positions[q].as_str(), positions[p].as_str()) {
                    seen = true;
                }
                q += 1;
            }
            proof {
                let t = names.take(p + 1);
                assert(t.drop_last() =~= names.take(p as int));
                assert(t.last() == names[p as int]);
                if seen {
                    let j = choose|j: int| 0 <= j < p && names[j] == names[p as int];
                    assert(names.take(p as int)[j] == names[p as int]);
                } else {
                    assert(!names.take(p as int).contains(names[p as int]));
                }
            }
            let ghost before = self.errors@;
            if seen {
                let m = cat(
                    &[
                        "duplicate field `",
                        positions[p].as_str(),
                        "` in the schema for `",
                        name,
                        "`",
                    ],
                );
                self.err(m);
                proof {
                    assert(self.errors@.subrange(0, e0 as int) =~= before.subrange(0, e0 as int));
                }
            }
            p += 1;
        }
        assert(names.take(positions@.len() as int) =~= names);
        let ghost e1 = self.errors@.len();
        let ghost before = self.errors@;
        match self.find_schema(name) {
            Some(k) => {
                let existing = &self.schemas[k];
                proof {
                    assert forall|j: int| 0 <= j < self.schemas@.len() && (#[trigger] self.schemas@[j]).pred@ == name@ implies j == k by {}
                    if existing.fields@.len() == positions@.len() && (forall|i: int| 0 <= i < existing.fields@.len() ==> (#[trigger] existing.fields@[i])@ == positions@[i]@) {
                        assert(existing.fields@.map_values(|n: String| n@) =~= names);
                    } else {
                        if existing.fields@.map_values(|n: String| n@) == names {
                            assert forall|i: int| 0 <= i < existing.fields@.len() implies (#[trigger] existing.fields@[i])@ == positions@[i]@ by {
                                assert(existing.fields@.map_values(|n: String| n@)[i] == names[i]);
                            }
                        }
                    }
                }
                if !strings_equal(&existing.fields, &positions) {
                    let m = cat(
                        &[
                            "conflicting schemas for `",
                            name,
                            "`: ",
                            origin_label(existing.origin),
                            " gives (",
                            join_names(&existing.fields).as_str(),
                            "), ",
                            origin_label(origin),
                            " gives (",
                            join_names(&positions).as_str(),
                            ")",
                        ],
                    );
                    self.err(m);
                } else if !types_equal(&existing.field_types, &field_types) {
                    let m = cat(
                        &[
                            "conflicting declared types for `",
                            name,
                            "`: ",
                            origin_label(existing.origin),
                            " and ",
                            origin_label(origin),
                            " give different column types",
                        ],
                    );
                    self.err(m);
                }
            },
            None => {
                self.schemas.push(
                    FieldSchema { pred: to_owned(name), fields: positions, field_types, origin },
                );
            },
        }
    }

    fn collect_schema(&mut self, name: &str, fields: &Vec<ast::FieldDecl>, origin: SchemaOrigin)
        requires
            old(self).wf(),
        ensures
            final(self).grows(&*old(self)),
            final(self).predicates == old(self).predicates,
            schema_recorded(
                *old(self),
                *final(self),
                name@,
                fields@.map_values(|f: ast::FieldDecl| f.name.name@),
                fields@.map_values(|f: ast::FieldDecl| f.ty),
                origin,
            ),
    {
        let ghost want = fields@.map_values(|f: ast::FieldDecl| f.name.name@);
        let ghost want_types = fields@.map_values(|f: ast::FieldDecl| f.ty);
        let mut names: Vec<String> = Vec::new();
        let mut types: Vec<Option<ast::TypeName>> = Vec::new();
        let mut i: usize = 0;
        while i < fields.len()
            invariant
                i <= fields@.len(),
                want == fields@.map_values(|f: ast::FieldDecl| f.name.name@),
                want_types == fields@.map_values(|f: ast::FieldDecl| f.ty),
                names@.len() == i,
                names@.map_values(|n: String| n@) == want.take(i as int),
                types@ == want_types.take(i as int),
            decreases fields.len() - i,
        {
            let ghost prev = names@;
            names.push(to_owned(fields[i].name.name.as_str()));
            types.push(fields[i].ty);
            proof {
                assert(want[i as int] == fields@[i as int].name.name@);
                assert forall|k: int| 0 <= k < i implies #[trigger] names@[k]@ == want[k] by {
                    assert(names@[k] == prev[k]);
                    assert(prev.map_values(|n: String| n@)[k] == want.take(i as int)[k]);
                }
            }
            i += 1;
            assert(names@.map_values(|n: String| n@) =~= want.take(i as int));
            assert(types@ =~= want_types.take(i as int));
        }
        assert(want.take(i as int) =~= want);
        assert(want_types.take(i as int) =~= want_types);
        self.collect_schema_parts(name, names, types, origin);
    }

    /// A source header names fields but types none.
    fn collect_schema_from_header(&mut self, name: &str, header: &Vec<String>)
        requires
            old(self).wf(),
        ensures
            final(self).grows(&*old(self)),
            final(self).predicates == old(self).predicates,
            schema_recorded(
                *old(self),
                *final(self),
                name@,
                header@.map_values(|n: String| n@),
                Seq::new(header@.len(), |k: int| None::<ast::TypeName>),
                SchemaOrigin::SourceHeader,
            ),
    {
        let ghost untyped = Seq::new(header@.len(), |k: int| None::<ast::TypeName>);
        let mut types: Vec<Option<ast::TypeName>> = Vec::new();
        let mut i: usize = 0;
        while i < header.len()
            invariant
                i <= header@.len(),
                untyped == Seq::new(header@.len(), |k: int| None::<ast::TypeName>),
                types@ == untyped.take(i as int),
            decreases header.len() - i,
        {
            types.push(None);
            i += 1;
            assert(types@ =~= untyped.take(i as int));
        }
        assert(untyped.take(i as int) =~= untyped);
        let names = copy_strings(header);
        assert(names@.map_values(|n: String| n@) =~= header@.map_values(|n: String| n@));
        self.collect_schema_parts(name, names, types, SchemaOrigin::SourceHeader);
    }

    /// Copies each schema onto its interned predicate when its length matches
    /// the interned arity (a mismatch was already reported as an arity clash).
    pub fn attach_field_names(&mut self)
        requires
            old(self).wf(),
        ensures
            final(self).grows(&*old(self)),
            final(self).error_count() == old(self).error_count(),
            final(self).preds().len() == old(self).preds().len(),
            forall|id: int|
                0 <= id < old(self).preds().len() ==> field_names_attached(
                    old(self).preds()[id],
                    #[trigger] final(self).preds()[id],
                    old(self).schema_of(old(self).preds()[id].name@),
                ),
    {
        let ghost n = self.predicates@.len();
        let mut k: usize = 0;
        while k < self.schemas.len()
            invariant
                k <= self.schemas@.len(),
                self.grows(&*old(self)),
                self.predicates@.len() == old(self).predicates@.len(),
                n == old(self).predicates@.len(),
                self.errors == old(self).errors,
                self.schemas == old(self).schemas,
                forall|id: int| 0 <= id < n ==> (#[trigger] self.predicates@[id]).name@ == old(self).predicates@[id].name@,
                forall|id: int|
                    0 <= id < n && (forall|j: int| 0 <= j < k ==> (#[trigger] self.schemas@[j]).pred@ != old(
                        self).predicates@[id].name@) ==> #[trigger] self.predicates@[id] == old(self).predicates@[id],
                forall|id: int, j: int|
                    0 <= id < n && 0 <= j < k && (#[trigger] self.schemas@[j]).pred@ == old(self).predicates@[id].name@
                        ==> field_names_attached(
                        old(self).predicates@[id],
                        #[trigger] self.predicates@[id],
                        Some((self.schemas@[j].fields@.map_values(|n: String| n@), self.schemas@[j].field_types@)),
                    ),
            decreases self.schemas.len() - k,
        {
            let ghost before = self.predicates@;
            let ghost mut found: Option<int> = None;
            let ghost sname = self.schemas@[k as int].pred@;
            let found_id = self.find_pred(self.schemas[k].pred.as_str());
            match found_id {
                Some(id) => {
                    proof {
                        found = Some(id as int);
                    }
                    let schema = &self.schemas[k];
                    if schema.fields.len() == self.predicates[id].arity as usize {
                        let info = ir::PredicateInfo {
                            name: to_owned(self.predicates[id].name.as_str()),
                            arity: self.predicates[id].arity,
                            fields: Some(copy_strings(&schema.fields)),
                            field_types: Some(copy_types(&schema.field_types)),
                        };
                        self.predicates.set(id, info);
                        proof {
                            let f = self.predicates@[id as int].fields->0;
                            assert(f@.map_values(|n: String| n@) =~= self.schemas@[k as int].fields@.map_values(
                                |n: String| n@,
                            ));
                            assert forall|i: int, j: int|
                                0 <= i < self.predicates@.len() && 0 <= j < self.predicates@.len()
                                    && i != j implies (#[trigger] self.predicates@[i]).name@
                                != (#[trigger] self.predicates@[j]).name@ by {
                                assert(self.predicates@[i].name@ == before[i].name@);
                                assert(self.predicates@[j].name@ == before[j].name@);
                            }
                        }
                    }
                },
                None => {},
            }
            proof {
                assert forall|id: int|
                    0 <= id < n && (forall|j: int| 0 <= j < k + 1 ==> (#[trigger] self.schemas@[j]).pred@ != old(
                        self).predicates@[id].name@) implies #[trigger] self.predicates@[id] == old(self).predicates@[id] by {
                    assert(self.schemas@[k as int].pred@ != old(self).predicates@[id].name@);
                    assert(before[id] == self.predicates@[id]);
                }
                assert forall|id: int, j: int|
                    0 <= id < n && 0 <= j < k + 1 && (#[trigger] self.schemas@[j]).pred@ == old(self).predicates@[id].name@
                        implies field_names_attached(
                        old(self).predicates@[id],
                        #[trigger] self.predicates@[id],
                        Some((self.schemas@[j].fields@.map_values(|n: String| n@), self.schemas@[j].field_types@)),
                    ) by {
                    if j < k {
                        assert(self.schemas@[j].pred@ != self.schemas@[k as int].pred@);
                        assert(before[id] == self.predicates@[id]);
                    } else {
                        assert forall|j2: int| 0 <= j2 < k implies (#[trigger] self.schemas@[j2]).pred@ != old(
                            self).predicates@[id].name@ by {
                            assert(self.schemas@[j2].pred@ != self.schemas@[k as int].pred@);
                        }
                        assert(before[id] == old(self).predicates@[id]);
                        assert(before[id].name@ == sname);
                        assert(found is Some);
                        let id0 = found->0;
                        assert(before[id0].name@ == sname);
                        assert(id0 == id);
                    }
                }
            }
            k += 1;
        }
        proof {
            assert forall|id: int| 0 <= id < old(self).preds().len() implies field_names_attached(
                old(self).preds()[id],
                #[trigger] self.preds()[id],
                old(self).schema_of(old(self).preds()[id].name@),
            ) by {
                let name = old(self).predicates@[id].name@;
                if schema_named(self.schemas@, name) {
                    let j = choose|j: int| 0 <= j < self.schemas@.len() && (#[trigger] self.schemas@[j]).pred@ == name;
                    assert(self.schemas@[j].pred@ == name);
                } else {
                    assert forall|j: int| 0 <= j < k implies (#[trigger] self.schemas@[j]).pred@ != name by {
                        if self.schemas@[j].pred@ == name {
                            assert(schema_named(self.schemas@, name));
                        }
                    }
                }
            }
        }
    }
}

// --- What stays in range ---

proof fn lemma_lit_preds_mono(l: ir::BodyLiteral, n: nat, m: nat)
    requires
        spec_lit_preds_ok(l, n),
        n <= m,
    ensures
        spec_lit_preds_ok(l, m),
    decreases l,
{
    match l.kind {
        ir::BodyLiteralKind::Aggregate { goal, .. } => {
            lemma_lits_preds_mono(goal@, n, m);
        },
        _ => {},
    }
}

proof fn lemma_lits_preds_mono(ls: Seq<ir::BodyLiteral>, n: nat, m: nat)
    requires
        spec_lits_preds_ok(ls, n),
        n <= m,
    ensures
        spec_lits_preds_ok(ls, m),
    decreases ls,
{
    if ls.len() > 0 {
        lemma_lits_preds_mono(ls.drop_last(), n, m);
        lemma_lit_preds_mono(ls.last(), n, m);
    }
}

proof fn lemma_lits_push(ls: Seq<ir::BodyLiteral>, l: ir::BodyLiteral, n: nat)
    requires
        spec_lits_preds_ok(ls, n),
        spec_lit_preds_ok(l, n),
    ensures
        spec_lits_preds_ok(ls.push(l), n),
{
    assert(ls.push(l).drop_last() =~= ls);
}

proof fn lemma_lits_append(a: Seq<ir::BodyLiteral>, b: Seq<ir::BodyLiteral>, n: nat)
    requires
        spec_lits_preds_ok(a, n),
        spec_lits_preds_ok(b, n),
    ensures
        spec_lits_preds_ok(a + b, n),
    decreases b.len(),
{
    if b.len() == 0 {
        assert(a + b =~= a);
    } else {
        lemma_lits_append(a, b.drop_last(), n);
        assert((a + b).drop_last() =~= a + b.drop_last());
        assert((a + b).last() == b.last());
    }
}

proof fn lemma_lits_index(ls: Seq<ir::BodyLiteral>, n: nat, i: int)
    requires
        spec_lits_preds_ok(ls, n),
        0 <= i < ls.len(),
    ensures
        spec_lit_preds_ok(ls[i], n),
    decreases ls.len(),
{
    if i < ls.len() - 1 {
        lemma_lits_index(ls.drop_last(), n, i);
    }
}

// --- Variable slots ---

/// Per-clause variable numbering: named variables take dense slots in order
/// of first occurrence, each wildcard or lowering-made slot a fresh one.
struct VarScope {
    names: Vec<Option<String>>,
    /// Set when a clause needed more slots than a `u32` can number.
    full: bool,
}

/// The named slots of `names` carry distinct names.
spec fn names_distinct(names: Seq<Option<String>>) -> bool {
    forall|i: int, j: int|
        0 <= i < j < names.len() && #[trigger] names[i] is Some && #[trigger] names[j] is Some
            ==> names[i]->0@ != names[j]->0@
}

/// `b` keeps every slot of `a`, in place, and may add more.
spec fn names_extend(a: Seq<Option<String>>, b: Seq<Option<String>>) -> bool {
    &&& a.len() <= b.len()
    &&& forall|i: int| 0 <= i < a.len() ==> #[trigger] b[i] == a[i]
}

/// Whether some slot of `names` is named `name`.
spec fn names_has(names: Seq<Option<String>>, name: Seq<char>) -> bool {
    exists|k: int| 0 <= k < names.len() && #[trigger] names[k] is Some && names[k]->0@ == name
}

impl VarScope {
    spec fn wf(&self) -> bool {
        &&& self.names@.len() <= u32::MAX
        &&& names_distinct(self.names@)
        &&& self.full ==> self.names@.len() >= u32::MAX
    }

    fn new() -> (r: VarScope)
        ensures
            r.wf(),
            r.names@.len() == 0,
            !r.full,
    {
        VarScope { names: Vec::new(), full: false }
    }

    /// The slot of variable `name`, taken on its first occurrence.
    fn slot(&mut self, name: &str) -> (r: ir::Var)
        requires
            old(self).wf(),
        ensures
            final(self).wf(),
            old(self).names@.len() <= final(self).names@.len(),
            old(self).full ==> final(self).full,
            names_has(old(self).names@, name@) ==> final(self).names@ == old(self).names@ && final(self).full
                == old(self).full,
            !names_has(old(self).names@, name@) && old(self).names@.len() < u32::MAX ==> final(self).full
                == old(self).full && final(self).names@.len() == old(self).names@.len() + 1 && final(
                self).names@.drop_last() == old(self).names@,
            !names_has(old(self).names@, name@) && old(self).names@.len() >= u32::MAX ==> final(self).full
                && final(self).names@ == old(self).names@ && r.0 == 0,
            !final(self).full ==> (r.0 as int) < final(self).names@.len() && final(self).names@[r.0 as int]
                is Some && final(self).names@[r.0 as int]->0@ == name@,
            names_extend(old(self).names@, final(self).names@),
    {
        let mut i: usize = 0;
        while i < self.names.len()
            invariant
                i <= self.names@.len() <= u32::MAX,
                self.names == old(self).names,
                self.full == old(self).full,
                self.wf(),
                forall|k: int| 0 <= k < i ==> !(#[trigger] self.names@[k] is Some && self.names@[k]->0@ == name@),
            decreases self.names.len() - i,
        {
            match &self.names[i] {
                Some(n) => {
                    if str_equal(n.as_str(), name) {
                        return ir::Var(i as u32);
                    }
                },
                None => {},
            }
            i += 1;
        }
        let n = self.names.len();
        if n >= 0xffff_ffff {
            self.full = true;
            return ir::Var(0);
        }
        let ghost before = self.names@;
        self.names.push(Some(to_owned(name)));
        proof {
            assert(self.names@.drop_last() =~= before);
            assert forall|i: int, j: int|
                0 <= i < j < self.names@.len() && #[trigger] self.names@[i] is Some
                    && #[trigger] self.names@[j] is Some implies self.names@[i]->0@ != self.names@[j]->0@ by {
                if j < n {
                    assert(self.names@[i] == before[i] && self.names@[j] == before[j]);
                } else {
                    assert(self.names@[i] == before[i]);
                }
            }
        }
        ir::Var(n as u32)
    }

    /// A fresh unnamed slot.
    fn fresh(&mut self) -> (r: ir::Var)
        requires
            old(self).wf(),
        ensures
            final(self).wf(),
            old(self).names@.len() <= final(self).names@.len(),
            old(self).full ==> final(self).full,
            old(self).names@.len() < u32::MAX ==> final(self).full == old(self).full && final(self).names@
                == old(self).names@.push(None) && r.0 == old(self).names@.len(),
            old(self).names@.len() >= u32::MAX ==> final(self).full && final(self).names@ == old(self).names@
                && r.0 == 0,
            names_extend(old(self).names@, final(self).names@),
    {
        let n = self.names.len();
        if n >= 0xffff_ffff {
            self.full = true;
            return ir::Var(0);
        }
        let ghost before = self.names@;
        self.names.push(None);
        proof {
            assert forall|i: int, j: int|
                0 <= i < j < self.names@.len() && #[trigger] self.names@[i] is Some
                    && #[trigger] self.names@[j] is Some implies self.names@[i]->0@ != self.names@[j]->0@ by {
                assert(self.names@[i] == before[i] && self.names@[j] == before[j]);
            }
        }
        ir::Var(n as u32)
    }
}

// --- Terms, constants, expressions ---

fn lower_constant(c: &ast::Constant) -> (r: ir::Value)
    ensures
        r@ == crate::parser::spec_constant_value(*c),
{
    match c {
        ast::Constant::Symbol(s) => ir::Value::Symbol(to_owned(s.as_str())),
        ast::Constant::String(s) => ir::Value::String(to_owned(s.as_str())),
        ast::Constant::Int(i) => ir::Value::Int(*i),
        ast::Constant::Float(f) => ir::Value::Float(ast::FloatLit { text: to_owned(f.text.as_str()) }),
        ast::Constant::Bool(b) => ir::Value::Bool(*b),
        ast::Constant::Absent => ir::Value::Absent,
        ast::Constant::Temporal(t) => match t {
            crate::temporal::Temporal::Date(d) => ir::Value::Date(*d),
            crate::temporal::Temporal::Timestamp(m) => ir::Value::Timestamp(*m),
            crate::temporal::Temporal::Duration(u) => ir::Value::Duration(*u),
        },
    }
}

fn lower_term(term: &ast::Term, scope: &mut VarScope) -> (r: ir::Term)
    requires
        old(scope).wf(),
    ensures
        final(scope).wf(),
        old(scope).names@.len() <= final(scope).names@.len(),
        old(scope).full ==> final(scope).full,
        term.kind matches ast::TermKind::Constant(c) ==> r matches ir::Term::Const(v) && v@
            == crate::parser::spec_constant_value(c) && *final(scope) == *old(scope),
        term.kind matches ast::TermKind::Variable(name) ==> r is Var && (!final(scope).full ==> (r->Var_0.0 as int)
            < final(scope).names@.len() && final(scope).names@[r->Var_0.0 as int] is Some && final(
            scope).names@[r->Var_0.0 as int]->0@ == name@),
        term.kind is Wildcard ==> r is Var && (!final(scope).full ==> r->Var_0.0 == old(scope).names@.len()
            && final(scope).names@ == old(scope).names@.push(None)),
        names_extend(old(scope).names@, final(scope).names@),
        final(scope).names@.len() <= old(scope).names@.len() + 1,
{
    match &term.kind {
        ast::TermKind::Constant(c) => ir::Term::Const(lower_constant(c)),
        ast::TermKind::Variable(name) => ir::Term::Var(scope.slot(name.as_str())),
        ast::TermKind::Wildcard => ir::Term::Var(scope.fresh()),
    }
}

/// The value of a ground integer expression: checked arithmetic, with an
/// `absent` operand absorbing the result. `None` where the expression has no
/// value here: a variable, an overflow, a division by zero, or an operand
/// that is not an integer.
/// Rust's `/` on integers: the quotient rounded toward zero.
pub open spec fn spec_trunc_div(x: int, y: int) -> int {
    let q = (if x < 0 { -x } else { x }) / (if y < 0 { -y } else { y });
    if (x < 0) == (y < 0) {
        q
    } else {
        -q
    }
}

/// An integer operation's exact result.
pub open spec fn spec_int_op(op: ast::ArithOp, x: int, y: int) -> int {
    match op {
        ast::ArithOp::Add => x + y,
        ast::ArithOp::Sub => x - y,
        ast::ArithOp::Mul => x * y,
        ast::ArithOp::Div => spec_trunc_div(x, y),
    }
}

/// The value of a ground integer expression, as `fold_ground` computes it.
pub open spec fn spec_fold(e: ir::Expr) -> Option<ValueView>
    decreases e,
{
    match e {
        ir::Expr::Term(ir::Term::Const(v)) => Some(v@),
        ir::Expr::Binary { op, lhs, rhs } => match (spec_fold(*lhs), spec_fold(*rhs)) {
            (Some(ValueView::Absent), Some(_)) => Some(ValueView::Absent),
            (Some(_), Some(ValueView::Absent)) => Some(ValueView::Absent),
            (Some(ValueView::Int(x)), Some(ValueView::Int(y))) => if op == ast::ArithOp::Div && y == 0 {
                None
            } else if i64::MIN <= spec_int_op(op, x, y) <= i64::MAX {
                Some(ValueView::Int(spec_int_op(op, x, y)))
            } else {
                None
            },
            _ => None,
        },
        _ => None,
    }
}

/// `q` is `x / y` rounded toward zero: what is left over, `x - q * y`, is
/// smaller than the divisor and has the dividend's sign.
pub open spec fn spec_is_trunc_quotient(x: int, y: int, q: int) -> bool {
    let rem = x - q * y;
    &&& (if rem < 0 { -rem } else { rem }) < (if y < 0 { -y } else { y })
    &&& rem == 0 || (rem < 0) == (x < 0)
}

proof fn lemma_trunc_div_is_quotient(x: int, y: int)
    requires
        y != 0,
    ensures
        spec_is_trunc_quotient(x, y, spec_trunc_div(x, y)),
        -(if x < 0 { -x } else { x }) <= spec_trunc_div(x, y) <= (if x < 0 { -x } else { x }),
        (y >= 2 || y <= -2) ==> -(if x < 0 { -x } else { x }) <= 2 * spec_trunc_div(x, y) <= (if x < 0 {
            -x
        } else {
            x
        }),
        y == 1 ==> spec_trunc_div(x, y) == x,
{
    let ax = if x < 0 { -x } else { x };
    let ay = if y < 0 { -y } else { y };
    let q0 = ax / ay;
    let r0 = ax % ay;
    vstd::arithmetic::div_mod::lemma_fundamental_div_mod(ax, ay);
    assert(0 <= r0 < ay);
    assert(0 <= q0 <= ax) by (nonlinear_arith)
        requires
            ax == ay * q0 + r0,
            0 <= r0 < ay,
            ay >= 1,
            ax >= 0,
    ;
    if ay >= 2 {
        assert(2 * q0 <= ax) by (nonlinear_arith)
            requires
                ax == ay * q0 + r0,
                0 <= r0,
                ay >= 2,
                q0 >= 0,
        ;
    }
    if ay == 1 {
        assert(q0 == ax) by (nonlinear_arith)
            requires
                ax == ay * q0 + r0,
                0 <= r0 < ay,
                ay == 1,
        ;
    }
    let q = spec_trunc_div(x, y);
    if x >= 0 && y > 0 {
        assert(x - q * y == r0);
    } else if x >= 0 && y < 0 {
        assert(q * y == q0 * ay) by (nonlinear_arith)
            requires
                q == -q0,
                y == -ay,
        ;
        assert(x - q * y == r0) by (nonlinear_arith)
            requires
                q * y == q0 * ay,
                ax == ay * q0 + r0,
                x == ax,
        ;
    } else if x < 0 && y > 0 {
        assert(q * y == -(q0 * ay)) by (nonlinear_arith)
            requires
                q == -q0,
                y == ay,
        ;
        assert(x - q * y == -r0) by (nonlinear_arith)
            requires
                q * y == -(q0 * ay),
                ax == ay * q0 + r0,
                x == -ax,
        ;
    } else {
        assert(q * y == -(q0 * ay)) by (nonlinear_arith)
            requires
                q == q0,
                y == -ay,
        ;
        assert(x - q * y == -r0) by (nonlinear_arith)
            requires
                q * y == -(q0 * ay),
                ax == ay * q0 + r0,
                x == -ax,
        ;
    }
}

/// Folding a ground binary expression is exact integer arithmetic on the
/// values its operands fold to: `+`, `-` and `*` give the sum, the difference
/// (left minus right) and the product, and `/` the quotient rounded toward
/// zero, wherever the result fits in an `i64`; a result that does not fit, or
/// a zero divisor, leaves the expression without a value.
pub proof fn lemma_fold_is_arithmetic(op: ast::ArithOp, lhs: ir::Expr, rhs: ir::Expr, x: int, y: int)
    requires
        spec_fold(lhs) == Some(ValueView::Int(x)),
        spec_fold(rhs) == Some(ValueView::Int(y)),
        i64::MIN <= x <= i64::MAX,
        i64::MIN <= y <= i64::MAX,
    ensures
        ({
            let r = spec_fold(ir::Expr::Binary { op, lhs: Box::new(lhs), rhs: Box::new(rhs) });
            &&& op == ast::ArithOp::Add ==> if i64::MIN <= x + y <= i64::MAX {
                r == Some(ValueView::Int(x + y))
            } else {
                r is None
            }
            &&& op == ast::ArithOp::Sub ==> if i64::MIN <= x - y <= i64::MAX {
                r == Some(ValueView::Int(x - y))
            } else {
                r is None
            }
            &&& op == ast::ArithOp::Mul ==> if i64::MIN <= x * y <= i64::MAX {
                r == Some(ValueView::Int(x * y))
            } else {
                r is None
            }
            &&& op == ast::ArithOp::Div ==> if y == 0 || (x == i64::MIN && y == -1) {
                r is None
            } else {
                r matches Some(ValueView::Int(q)) && spec_is_trunc_quotient(x, y, q)
            }
        }),
{
    if op == ast::ArithOp::Div && y != 0 {
        lemma_trunc_div_is_quotient(x, y);
        let q = spec_trunc_div(x, y);
        if x == i64::MIN && y == -1 {
            assert((-x) / 1 == -x);
            assert(q == -x);
        } else {
            assert(i64::MIN <= q <= i64::MAX);
        }
    }
}

/// `absent` absorbs arithmetic: a ground binary expression with an `absent`
/// operand (the other having a value) folds to `absent`; with operands that
/// have values, neither `absent` and not both integers, it has no value.
pub proof fn lemma_fold_absent_absorbs(op: ast::ArithOp, lhs: ir::Expr, rhs: ir::Expr)
    requires
        spec_fold(lhs) is Some,
        spec_fold(rhs) is Some,
    ensures
        ({
            let r = spec_fold(ir::Expr::Binary { op, lhs: Box::new(lhs), rhs: Box::new(rhs) });
            &&& spec_fold(lhs) == Some(ValueView::Absent) || spec_fold(rhs) == Some(ValueView::Absent) ==> r == Some(
                ValueView::Absent,
            )
            &&& spec_fold(lhs) != Some(ValueView::Absent) && spec_fold(rhs) != Some(ValueView::Absent) && !(spec_fold(
                lhs,
            )->0 is Int && spec_fold(rhs)->0 is Int) ==> r is None
        }),
{
}

fn fold_ground(e: &ir::Expr) -> (r: Option<ir::Value>)
    ensures
        match spec_fold(*e) {
            Some(v) => r matches Some(x) && x@ == v,
            None => r is None,
        },
    decreases e,
{
    match e {
        ir::Expr::Term(ir::Term::Const(v)) => Some(ir::copy_value(v)),
        ir::Expr::Term(ir::Term::Var(_)) => None,
        ir::Expr::Binary { op, lhs, rhs } => {
            let a = fold_ground(lhs);
            let b = fold_ground(rhs);
            match (a, b) {
                (Some(ir::Value::Absent), Some(_)) => Some(ir::Value::Absent),
                (Some(_), Some(ir::Value::Absent)) => Some(ir::Value::Absent),
                (Some(ir::Value::Int(x)), Some(ir::Value::Int(y))) => {
                    let r = match op {
                        ast::ArithOp::Add => x.checked_add(y),
                        ast::ArithOp::Sub => x.checked_sub(y),
                        ast::ArithOp::Mul => x.checked_mul(y),
                        ast::ArithOp::Div => x.checked_div(y),
                    };
                    match r {
                        Some(v) => Some(ir::Value::Int(v)),
                        None => None,
                    }
                },
                _ => None,
            }
        },
        _ => None,
    }
}

/// `r` is what lowering makes of the surface expression `e`: constants as
/// their values, variables and wildcards as slots, arithmetic and casts node
/// for node, and an aggregate as the slot of its result.
pub open spec fn spec_lowered_expr(e: ast::Expr, r: ir::Expr) -> bool
    decreases e,
{
    match e.kind {
        ast::ExprKind::Term(t) => r matches ir::Expr::Term(x) && match t.kind {
            ast::TermKind::Constant(c) => x matches ir::Term::Const(v) && v@ == crate::parser::spec_constant_value(c),
            _ => x is Var,
        },
        ast::ExprKind::Binary { op, lhs, rhs } => r matches ir::Expr::Binary { op: op2, lhs: l2, rhs: r2 } && op2
            == op && spec_lowered_expr(*lhs, *l2) && spec_lowered_expr(*rhs, *r2),
        ast::ExprKind::Cast { expr, ty } => r matches ir::Expr::Cast { expr: e2, ty: ty2 } && ty2 == ty
            && spec_lowered_expr(*expr, *e2),
        ast::ExprKind::Aggregate(_) => r matches ir::Expr::Term(ir::Term::Var(_)),
    }
}

/// What a fact's compound argument `e` comes to: its lowered expression's
/// value where that has no variable (an error and `0` where it has no value
/// here), or a fresh slot where it has variables.
spec fn spec_folded_arg(e: ast::Expr, r: ir::Term, errors_before: nat, errors_after: nat) -> bool {
    exists|x: ir::Expr|
        #[trigger] spec_lowered_expr(e, x) && if crate::schedule::spec_expr_vars(x).len() == 0 {
            match spec_fold(x) {
                Some(v) => r matches ir::Term::Const(c) && c@ == v,
                None => r == ir::Term::Const(ir::Value::Int(0)) && errors_after > errors_before,
            }
        } else {
            r is Var
        }
}

/// `lit` is the assignment `r = e'` of the slot `r` to the lowered `e`.
spec fn spec_hoisted_eq(r: ir::Term, lit: ir::BodyLiteral, e: ast::Expr) -> bool {
    match (r, lit.kind) {
        (ir::Term::Var(v), ir::BodyLiteralKind::Compare { op, lhs, rhs }) => op == ast::CmpOp::Eq && lhs
            == ir::Expr::Term(ir::Term::Var(v)) && spec_lowered_expr(e, rhs),
        _ => false,
    }
}

/// `new` extends `old`: `old` is a prefix of it.
spec fn extends<T>(old: Seq<T>, new: Seq<T>) -> bool {
    old.len() <= new.len() && forall|i: int| 0 <= i < old.len() ==> #[trigger] new[i] == old[i]
}

/// An optional index as an integer.
pub open spec fn spec_opt_int(o: Option<usize>) -> Option<int> {
    match o {
        Some(x) => Some(x as int),
        None => None,
    }
}

/// The last position of `f` in `fields`.
pub open spec fn spec_last_position(fields: Seq<Seq<char>>, f: Seq<char>) -> Option<int>
    decreases fields.len(),
{
    if fields.len() == 0 {
        None
    } else if fields.last() == f {
        Some(fields.len() - 1)
    } else {
        spec_last_position(fields.drop_last(), f)
    }
}

proof fn lemma_last_position_bound(fields: Seq<Seq<char>>, f: Seq<char>)
    ensures
        spec_last_position(fields, f) matches Some(p) ==> 0 <= p < fields.len(),
    decreases fields.len(),
{
    if fields.len() > 0 {
        lemma_last_position_bound(fields.drop_last(), f);
    }
}

/// The error for a named atom of a predicate with no known field names.
pub open spec fn spec_no_schema_message(pred: Seq<char>) -> Seq<char> {
    "named arguments require known field names for `"@ + pred + "`: add a `declare "@ + pred
        + "(...)` or an explicit import schema"@
}

/// The report for a named argument whose field the schema lacks.
pub open spec fn spec_unknown_field_message(f: Seq<char>, pred: Seq<char>, fields: Seq<Seq<char>>) -> Seq<char> {
    "unknown field `"@ + f + "` for predicate `"@ + pred + "`; known fields: "@ + crate::text::comma_joined(fields)
}

/// The report for a field given twice.
pub open spec fn spec_given_twice_message(f: Seq<char>, pred: Seq<char>) -> Seq<char> {
    "field `"@ + f + "` is given twice in one `"@ + pred + "` literal"@
}

/// The report for a head that leaves fields out.
pub open spec fn spec_missing_fields_message(pred: Seq<char>, missing: Seq<Seq<char>>) -> Seq<char> {
    "head `"@ + pred + "` uses named arguments and must supply every field; missing: "@ + crate::text::comma_joined(
        missing,
    )
}

/// The first `n` named arguments placed against the schema's fields: which
/// argument each position got, and the reports so far (an unknown field, or a
/// field given twice).
pub open spec fn spec_arg_places(named: Seq<ast::NamedArg>, fields: Seq<Seq<char>>, pred: Seq<char>, n: int) -> (
    Seq<Option<int>>,
    Seq<Seq<char>>,
)
    decreases n,
{
    if n <= 0 {
        (Seq::new(fields.len(), |q: int| None::<int>), Seq::<Seq<char>>::empty())
    } else {
        let (a, reports) = spec_arg_places(named, fields, pred, n - 1);
        let f = named[n - 1].field.name@;
        match spec_last_position(fields, f) {
            None => (a, reports.push(spec_unknown_field_message(f, pred, fields))),
            Some(p) => if a[p] is Some {
                (a, reports.push(spec_given_twice_message(f, pred)))
            } else {
                (a.update(p, Some(n - 1)), reports)
            },
        }
    }
}

/// The fields among the first `q` that no argument was placed at, in order.
pub open spec fn spec_unplaced(a: Seq<Option<int>>, fields: Seq<Seq<char>>, q: int) -> Seq<Seq<char>>
    decreases q,
{
    if q <= 0 {
        Seq::<Seq<char>>::empty()
    } else {
        spec_unplaced(a, fields, q - 1) + if a[q - 1] is None {
            seq![fields[q - 1]]
        } else {
            Seq::<Seq<char>>::empty()
        }
    }
}

/// Everything wrong with a named atom, in report order: each unknown field
/// and each field given twice, then, for a head, the fields it leaves out.
pub open spec fn spec_named_reports(named: Seq<ast::NamedArg>, fields: Seq<Seq<char>>, pred: Seq<char>, head: bool) -> Seq<
    Seq<char>,
> {
    let (a, reports) = spec_arg_places(named, fields, pred, named.len() as int);
    let missing = spec_unplaced(a, fields, fields.len() as int);
    if head && missing.len() > 0 {
        reports.push(spec_missing_fields_message(pred, missing))
    } else {
        reports
    }
}

proof fn lemma_placed_shape(named: Seq<ast::NamedArg>, fields: Seq<Seq<char>>, pred: Seq<char>, n: int)
    requires
        0 <= n <= named.len(),
    ensures
        spec_arg_places(named, fields, pred, n).0.len() == fields.len(),
        forall|q: int|
            0 <= q < fields.len() ==> (#[trigger] spec_arg_places(named, fields, pred, n).0[q] matches Some(x) ==> 0 <= x
                < n),
    decreases n,
{
    if n > 0 {
        lemma_placed_shape(named, fields, pred, n - 1);
        lemma_last_position_bound(fields, named[n - 1].field.name@);
    }
}

/// What lowering a named atom comes to: with no schema for the predicate,
/// one error saying so; otherwise, where anything is wrong, exactly its
/// reports appended as errors and no atom; else an atom with one argument per
/// field, a fresh slot at each field no argument names.
spec fn named_atom_outcome(
    before: Lowerer,
    after: Lowerer,
    named: Seq<ast::NamedArg>,
    pred: Seq<char>,
    head: bool,
    r: Option<ir::Atom>,
) -> bool {
    match before.schema_of(pred) {
        None => r is None && after.errors@.len() == before.errors@.len() + 1 && after.errors@.last().message@
            == spec_no_schema_message(pred),
        Some((fields, _)) => {
            let reports = spec_named_reports(named, fields, pred, head);
            &&& r is Some <==> reports.len() == 0
            &&& reports.len() > 0 ==> after.errors@.len() == before.errors@.len() + reports.len() && forall|x: int|
                0 <= x < reports.len() ==> (#[trigger] after.errors@[before.errors@.len() + x]).message@ == reports[x]
            &&& r matches Some(a) ==> a.args@.len() == fields.len() && forall|q: int|
                0 <= q < fields.len() && spec_arg_places(named, fields, pred, named.len() as int).0[q] is None
                    ==> (#[trigger] a.args@[q]) is Var
        },
    }
}

/// Every named argument's value is a term, and none is `absent` in a body.
pub open spec fn spec_named_terms(named: Seq<ast::NamedArg>, body: bool) -> bool {
    forall|i: int|
        0 <= i < named.len() ==> (#[trigger] named[i]).value.kind is Term && !(body && spec_is_absent_term(
            named[i].value,
        ))
}

/// The field names of the schema recorded for `pred`.
pub open spec fn spec_schema_fields(lw: Lowerer, pred: Seq<char>) -> Seq<Seq<char>> {
    match lw.schema_of(pred) {
        Some((fields, _)) => fields,
        None => Seq::empty(),
    }
}

/// A named atom lowering reports nothing for: its values are terms, its
/// predicate is interned and has a schema, and every field is known, given
/// once, and (in a head) all given.
pub open spec fn spec_named_ready(lw: Lowerer, given: Seq<ast::NamedArg>, pred: Seq<char>, head: bool) -> bool {
    &&& spec_named_terms(given, !head)
    &&& named(lw.preds(), pred)
    &&& lw.schema_of(pred) is Some
    &&& spec_named_reports(given, spec_schema_fields(lw, pred), pred, head).len() == 0
}

/// A fresh slot: unnamed, and not among the first `first` slots.
pub open spec fn spec_fresh_slot(t: ir::Term, first: int, names: Seq<Option<String>>) -> bool {
    match t {
        ir::Term::Var(v) => first <= v.0 && (v.0 as int) < names.len() && names[v.0 as int] is None,
        ir::Term::Const(_) => false,
    }
}

/// The slot a term names (-1 for a constant).
pub open spec fn spec_slot_of(t: ir::Term) -> int {
    match t {
        ir::Term::Var(v) => v.0 as int,
        ir::Term::Const(_) => -1,
    }
}

/// The arguments of a named atom at the schema's positions: a field given
/// holds its value lowered; every other field a fresh slot, each its own.
pub open spec fn spec_named_args_is(
    named: Seq<ast::NamedArg>,
    places: Seq<Option<int>>,
    args: Seq<ir::Term>,
    first: int,
    names: Seq<Option<String>>,
) -> bool {
    &&& args.len() == places.len()
    &&& forall|q: int|
        0 <= q < places.len() ==> match places[q] {
            Some(i) => 0 <= i < named.len() && spec_arg_is(named[i].value, #[trigger] args[q], names),
            None => spec_fresh_slot(args[q], first, names),
        }
    &&& forall|q1: int, q2: int|
        0 <= q1 < q2 < places.len() && places[q1] is None && places[q2] is None ==> spec_slot_of(#[trigger] args[q1])
            < spec_slot_of(#[trigger] args[q2])
}

impl Lowerer {
    fn lower_expr(
        &mut self,
        expr: &ast::Expr,
        scope: &mut VarScope,
        hoisted: &mut Vec<ir::BodyLiteral>,
    ) -> (r: ir::Expr)
        requires
            old(self).wf(),
            old(scope).wf(),
            spec_lits_preds_ok(old(hoisted)@, old(self).predicates@.len()),
        ensures
            final(self).grows(&*old(self)),
            final(scope).wf(),
            old(scope).full ==> final(scope).full,
            spec_lits_preds_ok(final(hoisted)@, final(self).predicates@.len()),
            spec_lowered_expr(*expr, r),
            extends(old(hoisted)@, final(hoisted)@),
        decreases expr, 4int,
    {
        match &expr.kind {
            ast::ExprKind::Term(t) => ir::Expr::Term(lower_term(t, scope)),
            ast::ExprKind::Binary { op, lhs, rhs } => {
                let ghost h0 = hoisted@;
                let l = self.lower_expr(lhs, scope, hoisted);
                let ghost h1 = hoisted@;
                let r = self.lower_expr(rhs, scope, hoisted);
                ir::Expr::Binary { op: *op, lhs: Box::new(l), rhs: Box::new(r) }
            },
            ast::ExprKind::Cast { expr: inner, ty } => {
                let l = self.lower_expr(inner, scope, hoisted);
                ir::Expr::Cast { expr: Box::new(l), ty: *ty }
            },
            ast::ExprKind::Aggregate(agg) => self.lower_aggregate(agg, expr.span, scope, hoisted),
        }
    }

    /// An aggregate becomes a literal of its own binding a fresh result slot,
    /// appended to `hoisted`; the expression is left naming that slot. The
    /// goal shares the clause's scope, so a variable also used outside is a
    /// group key and a goal-only one is existential to the goal.
    fn lower_aggregate(
        &mut self,
        agg: &ast::Aggregate,
        span: ast::Span,
        scope: &mut VarScope,
        hoisted: &mut Vec<ir::BodyLiteral>,
    ) -> (r: ir::Expr)
        requires
            old(self).wf(),
            old(scope).wf(),
            spec_lits_preds_ok(old(hoisted)@, old(self).predicates@.len()),
        ensures
            final(self).grows(&*old(self)),
            final(scope).wf(),
            old(scope).full ==> final(scope).full,
            spec_lits_preds_ok(final(hoisted)@, final(self).predicates@.len()),
            extends(old(hoisted)@, final(hoisted)@),
            final(hoisted)@.len() > old(hoisted)@.len(),
            final(hoisted)@.last().span == span,
            final(hoisted)@.last().kind is Aggregate,
            final(hoisted)@.last().kind matches ir::BodyLiteralKind::Aggregate { result, op, params, expr, .. } ==> (r
                == ir::Expr::Term(ir::Term::Var(result)) && op == agg.op && params@.len() == agg.params@.len()
                && spec_lowered_expr(*agg.expr, expr) && (forall|k: int|
                0 <= k < params@.len() ==> spec_lowered_expr(agg.params@[k], #[trigger] params@[k]))),
        decreases agg, 4int,
    {
        let ghost n0 = self.predicates@.len();
        let mut goal = self.lower_body(&agg.goal, scope);
        let expr = self.lower_expr(&agg.expr, scope, &mut goal);
        let ghost n1 = self.predicates@.len();
        proof {
            lemma_lits_preds_mono(hoisted@, old(self).predicates@.len(), n1);
        }
        let mut params: Vec<ir::Expr> = Vec::new();
        let mut i: usize = 0;
        while i < agg.params.len()
            invariant
                i <= agg.params@.len(),
                params@.len() == i,
                forall|k: int| 0 <= k < i ==> spec_lowered_expr(agg.params@[k], #[trigger] params@[k]),
                extends(old(hoisted)@, hoisted@),
                self.grows(&*old(self)),
                n1 <= self.predicates@.len(),
                scope.wf(),
                old(scope).full ==> scope.full,
                spec_lits_preds_ok(hoisted@, self.predicates@.len()),
                spec_lits_preds_ok(goal@, n1),
            decreases agg.params.len() - i,
        {
            assert(decreases_to!(agg => agg.params@[i as int]));
            let ghost h0 = hoisted@;
            let p = self.lower_expr(&agg.params[i], scope, hoisted);
            params.push(p);
            i += 1;
        }
        let result = scope.fresh();
        proof {
            lemma_lits_preds_mono(goal@, n1, self.predicates@.len());
        }
        let lit = ir::BodyLiteral {
            kind: ir::BodyLiteralKind::Aggregate { result, op: agg.op, params, expr, goal },
            span,
        };
        proof {
            lemma_lits_push(hoisted@, lit, self.predicates@.len());
        }
        let ghost h0 = hoisted@;
        hoisted.push(lit);
        proof {
            assert forall|i: int| 0 <= i < old(hoisted)@.len() implies #[trigger] hoisted@[i] == old(hoisted)@[i] by {
                assert(hoisted@[i] == h0[i]);
            }
        }
        ir::Expr::Term(ir::Term::Var(result))
    }

    /// Lowers one atom argument. A bare term lowers directly (a literal
    /// `absent` in a body atom is refused: no value unifies with it); a
    /// compound expression is hoisted to a fresh `V = expr` or, in a fact,
    /// folded to its value.
    fn lower_arg_expr(
        &mut self,
        expr: &ast::Expr,
        scope: &mut VarScope,
        pos: AtomPos,
        mode: ArgMode,
        hoisted: &mut Vec<ir::BodyLiteral>,
    ) -> (r: ir::Term)
        requires
            old(self).wf(),
            old(scope).wf(),
            spec_lits_preds_ok(old(hoisted)@, old(self).predicates@.len()),
        ensures
            final(self).grows(&*old(self)),
            final(scope).wf(),
            old(scope).full ==> final(scope).full,
            spec_lits_preds_ok(final(hoisted)@, final(self).predicates@.len()),
            extends(old(hoisted)@, final(hoisted)@),
            expr.kind matches ast::ExprKind::Term(t) ==> if pos == AtomPos::Body && t.kind == ast::TermKind::Constant(
                ast::Constant::Absent,
            ) {
                r is Var && final(self).errors@.len() == old(self).errors@.len() + 1
            } else {
                final(self).errors@ == old(self).errors@ && final(hoisted)@ == old(hoisted)@ && match t.kind {
                    ast::TermKind::Constant(c) => r matches ir::Term::Const(v) && v@ == crate::parser::spec_constant_value(
                        c,
                    ),
                    _ => r is Var,
                }
            },
            crate::parser::spec_expr_value(*expr) is Some && pos == AtomPos::Head ==> *final(scope) == *old(scope)
                && *final(self) == *old(self),
            expr.kind is Term && !(pos == AtomPos::Body && spec_is_absent_term(*expr)) ==> names_extend(
                old(scope).names@,
                final(scope).names@,
            ) && (!final(scope).full ==> spec_arg_is(*expr, r, final(scope).names@)) && final(self).predicates@
                == old(self).predicates@ && final(scope).names@.len() <= old(scope).names@.len() + 1,
            !(expr.kind is Term) && mode == ArgMode::Hoist ==> final(hoisted)@.len() > old(hoisted)@.len()
                && final(hoisted)@.last().span == expr.span && spec_hoisted_eq(r, final(hoisted)@.last(), *expr),
            !(expr.kind is Term) && mode == ArgMode::Fold ==> spec_folded_arg(
                *expr,
                r,
                old(self).errors@.len(),
                final(self).errors@.len(),
            ),
        decreases expr, 5int,
    {
        match &expr.kind {
            ast::ExprKind::Term(term) => {
                let is_absent = match &term.kind {
                    ast::TermKind::Constant(ast::Constant::Absent) => true,
                    _ => false,
                };
                if pos == AtomPos::Body && is_absent {
                    self.err(
                        to_owned(
                            "`absent` cannot be matched in a body atom argument (a value never unifies with absent); test presence with `X is absent` / `X is not absent` instead",
                        ),
                    );
                    return ir::Term::Var(scope.fresh());
                }
                return lower_term(term, scope);
            },
            _ => {},
        }
        let ghost n0 = self.predicates@.len();
        let ir_expr = self.lower_expr(expr, scope, hoisted);
        match mode {
            ArgMode::Hoist => {
                let var = scope.fresh();
                let lit = ir::BodyLiteral {
                    kind: ir::BodyLiteralKind::Compare {
                        op: ast::CmpOp::Eq,
                        lhs: ir::Expr::Term(ir::Term::Var(var)),
                        rhs: ir_expr,
                    },
                    span: expr.span,
                };
                proof {
                    lemma_lits_push(hoisted@, lit, self.predicates@.len());
                }
                hoisted.push(lit);
                ir::Term::Var(var)
            },
            ArgMode::Fold => {
                let ghost e1 = self.errors@.len();
                let vars = crate::schedule::expr_vars(&ir_expr);
                if vars.len() == 0 {
                    match fold_ground(&ir_expr) {
                        Some(v) => {
                            let t = ir::Term::Const(v);
                            assert(spec_lowered_expr(*expr, ir_expr));
                            t
                        },
                        None => {
                            self.err(
                                to_owned(
                                    "cannot evaluate an argument of a fact: a ground argument must be integer arithmetic that neither overflows nor divides by zero",
                                ),
                            );
                            let t = ir::Term::Const(ir::Value::Int(0));
                            assert(spec_lowered_expr(*expr, ir_expr));
                            t
                        },
                    }
                } else {
                    let t = ir::Term::Var(scope.fresh());
                    assert(spec_lowered_expr(*expr, ir_expr));
                    t
                }
            },
        }
    }

    /// Lowers an atom to positional form, or reports why it cannot be and
    /// returns `None`.
    fn lower_atom(
        &mut self,
        atom: &ast::Atom,
        scope: &mut VarScope,
        pos: AtomPos,
        mode: ArgMode,
        hoisted: &mut Vec<ir::BodyLiteral>,
    ) -> (r: Option<ir::Atom>)
        requires
            old(self).wf(),
            old(scope).wf(),
            spec_lits_preds_ok(old(hoisted)@, old(self).predicates@.len()),
        ensures
            final(self).grows(&*old(self)),
            final(scope).wf(),
            old(scope).full ==> final(scope).full,
            spec_lits_preds_ok(final(hoisted)@, final(self).predicates@.len()),
            r matches Some(a) ==> (a.pred.0 as int) < final(self).predicates@.len(),
            r is None ==> final(self).errors@.len() > old(self).errors@.len(),
            pos == AtomPos::Head && spec_ground_positional(*atom) && named(old(self).predicates@, atom.predicate.name@)
                ==> (r matches Some(a) && final(self).errors@ == old(self).errors@ && final(self).predicates@ == old(
                self).predicates@ && spec_ground_lowered(*atom, a, final(self).predicates@) && *final(scope)
                == *old(scope) && final(hoisted)@ == old(hoisted)@),
            spec_atom_terms(*atom) && !(pos == AtomPos::Body && spec_atom_has_absent(*atom)) && named(
                old(self).predicates@,
                atom.predicate.name@,
            ) ==> (r matches Some(a) && final(self).errors@ == old(self).errors@ && final(self).predicates@ == old(
                self).predicates@ && final(hoisted)@ == old(hoisted)@ && names_extend(
                old(scope).names@,
                final(scope).names@,
            ) && (!final(scope).full ==> spec_atom_is(*atom, a, final(self).predicates@, final(scope).names@))
                && final(scope).names@.len() <= old(scope).names@.len() + spec_arg_count(*atom)),
        decreases atom, 3int,
    {
        let ghost gt = spec_atom_terms(*atom) && !(pos == AtomPos::Body && spec_atom_has_absent(*atom)) && named(
            old(self).predicates@,
            atom.predicate.name@,
        );
        let ghost g = pos == AtomPos::Head && spec_ground_positional(*atom) && named(
            old(self).predicates@,
            atom.predicate.name@,
        );
        match &atom.args {
            ast::Args::Positional(exprs) => {
                let pred = self.pred_id(atom.predicate.name.as_str());
                proof {
                    lemma_lits_preds_mono(hoisted@, old(self).predicates@.len(), self.predicates@.len());
                }
                let mut args: Vec<ir::Term> = Vec::new();
                let mut i: usize = 0;
                while i < exprs.len()
                    invariant
                        self.grows(&*old(self)),
                        (pred.0 as int) < self.predicates@.len(),
                        atom.args is Positional,
                        atom.args->Positional_0 == *exprs,
                        scope.wf(),
                        old(scope).full ==> scope.full,
                        spec_lits_preds_ok(hoisted@, self.predicates@.len()),
                        i <= exprs@.len(),
                        args@.len() == i,
                        g == (pos == AtomPos::Head && spec_ground_positional(*atom) && named(
                            old(self).predicates@,
                            atom.predicate.name@,
                        )),
                        gt == (spec_atom_terms(*atom) && !(pos == AtomPos::Body && spec_atom_has_absent(*atom))
                            && named(old(self).predicates@, atom.predicate.name@)),
                        gt ==> self.errors@ == old(self).errors@ && self.predicates@ == old(self).predicates@
                            && self.predicates@[pred.0 as int].name@ == atom.predicate.name@ && hoisted@ == old(
                            hoisted)@ && names_extend(old(scope).names@, scope.names@) && (!scope.full ==> forall|j: int|
                            0 <= j < i ==> spec_arg_is(exprs@[j], #[trigger] args@[j], scope.names@))
                            && scope.names@.len() <= old(scope).names@.len() + i,
                        g ==> self.errors@ == old(self).errors@ && self.predicates@ == old(self).predicates@
                            && self.predicates@[pred.0 as int].name@ == atom.predicate.name@ && *scope == *old(scope)
                            && hoisted@ == old(hoisted)@ && forall|j: int|
                            0 <= j < i ==> spec_const_arg(
                                #[trigger] args@[j],
                                crate::parser::spec_expr_value(exprs@[j]).unwrap(),
                            ),
                    decreases exprs.len() - i,
                {
                    proof {
                        assert(decreases_to!(*atom => atom.args));
                        assert(decreases_to!(atom.args => atom.args->Positional_0));
                        assert(atom.args->Positional_0 == *exprs);
                        assert(decreases_to!(*exprs => exprs@));
                        assert(decreases_to!(exprs@ => exprs@[i as int]));
                    }
                    let ghost names0 = scope.names@;
                    proof {
                        if gt {
                            assert(exprs@[i as int].kind is Term);
                            if pos == AtomPos::Body && spec_is_absent_term(exprs@[i as int]) {
                                assert(spec_atom_has_absent(*atom));
                            }
                        }
                    }
                    let t = self.lower_arg_expr(&exprs[i], scope, pos, mode, hoisted);
                    let ghost a0 = args@;
                    args.push(t);
                    proof {
                        if gt && !scope.full {
                            assert forall|j: int| 0 <= j < i + 1 implies spec_arg_is(
                                exprs@[j],
                                #[trigger] args@[j],
                                scope.names@,
                            ) by {
                                if j < i {
                                    assert(args@[j] == a0[j]);
                                    lemma_arg_is_extend(exprs@[j], a0[j], names0, scope.names@);
                                }
                            }
                        }
                    }
                    proof {
                        if g {
                            assert(crate::parser::spec_expr_value(exprs@[i as int]) is Some);
                            assert forall|j: int| 0 <= j < i + 1 implies spec_const_arg(
                                #[trigger] args@[j],
                                crate::parser::spec_expr_value(exprs@[j]).unwrap(),
                            ) by {
                                if j < i {
                                    assert(args@[j] == a0[j]);
                                }
                            }
                        }
                    }
                    i += 1;
                }
                Some(ir::Atom { pred, args })
            },
            ast::Args::Named(_) => self.lower_named_atom(atom, scope, pos, mode, hoisted),
        }
    }

    /// The last position of `field` in a schema (a field named twice was
    /// already reported).
    fn field_position(&self, k: usize, field: &str) -> (r: Option<usize>)
        requires
            k < self.schemas@.len(),
        ensures
            r matches Some(p) ==> p < self.schemas@[k as int].fields@.len(),
            spec_opt_int(r) == spec_last_position(self.schemas@[k as int].fields@.map_values(|n: String| n@), field@),
    {
        let fields = &self.schemas[k].fields;
        let ghost fv = fields@.map_values(|n: String| n@);
        let mut found: Option<usize> = None;
        let mut i: usize = 0;
        while i < fields.len()
            invariant
                i <= fields@.len(),
                fields@.len() == self.schemas@[k as int].fields@.len(),
                fv == fields@.map_values(|n: String| n@),
                found matches Some(p) ==> p < fields@.len(),
                spec_opt_int(found) == spec_last_position(fv.take(i as int), field@),
            decreases fields.len() - i,
        {
            proof {
                assert(fv.take(i + 1).drop_last() =~= fv.take(i as int));
                assert(fv.take(i + 1).last() == fields@[i as int]@);
            }
            if str_equal(fields[i].as_str(), field) {
                found = Some(i);
            }
            i += 1;
        }
        assert(fv.take(i as int) =~= fv);
        found
    }

    /// Resolves a named-argument atom against its predicate's field schema:
    /// each field lands at its schema position whatever order it was written
    /// in, and an omitted field becomes a fresh anonymous slot. A head must
    /// supply every field.
    fn lower_named_atom(
        &mut self,
        atom: &ast::Atom,
        scope: &mut VarScope,
        pos: AtomPos,
        mode: ArgMode,
        hoisted: &mut Vec<ir::BodyLiteral>,
    ) -> (r: Option<ir::Atom>)
        requires
            old(self).wf(),
            old(scope).wf(),
            spec_lits_preds_ok(old(hoisted)@, old(self).predicates@.len()),
        ensures
            final(self).grows(&*old(self)),
            final(scope).wf(),
            old(scope).full ==> final(scope).full,
            spec_lits_preds_ok(final(hoisted)@, final(self).predicates@.len()),
            r matches Some(a) ==> (a.pred.0 as int) < final(self).predicates@.len(),
            r is None ==> final(self).errors@.len() > old(self).errors@.len(),
            atom.args is Positional ==> r is None && final(self).errors@.len() == old(self).errors@.len() + 1,
            atom.args matches ast::Args::Named(named) ==> named_atom_outcome(
                *old(self),
                *final(self),
                named@,
                atom.predicate.name@,
                pos == AtomPos::Head,
                r,
            ),
            atom.args matches ast::Args::Named(named) ==> (spec_named_ready(
                *old(self),
                named@,
                atom.predicate.name@,
                pos == AtomPos::Head,
            ) ==> (r matches Some(a) && final(self).errors@ == old(self).errors@ && names_extend(
                old(scope).names@,
                final(scope).names@,
            ) && (!final(scope).full ==> spec_named_args_is(
                named@,
                spec_arg_places(
                    named@,
                    spec_schema_fields(*old(self), atom.predicate.name@),
                    atom.predicate.name@,
                    named@.len() as int,
                ).0,
                a.args@,
                old(scope).names@.len() as int,
                final(scope).names@,
            )))),
        decreases atom, 2int,
    {
        let ghost first = scope.names@.len() as int;
        let named = match &atom.args {
            ast::Args::Named(named) => named,
            ast::Args::Positional(_) => {
                self.err(to_owned("named arguments expected"));
                return None;
            },
        };
        let predicate = atom.predicate.name.as_str();
        let k = match self.find_schema(predicate) {
            Some(k) => k,
            None => {
                let mut m = to_owned("named arguments require known field names for `");
                push_str(&mut m, predicate);
                push_str(&mut m, "`: add a `declare ");
                push_str(&mut m, predicate);
                push_str(&mut m, "(...)` or an explicit import schema");
                self.err(m);
                return None;
            },
        };
        let ghost fields = self.schemas@[k as int].fields@.map_values(|n: String| n@);
        let ghost pred = predicate@;
        proof {
            let j = choose|j: int| 0 <= j < self.schemas@.len() && (#[trigger] self.schemas@[j]).pred@ == pred;
            assert(self.schemas@[j].pred@ == self.schemas@[k as int].pred@);
            assert(j == k);
        }
        let nfields = self.schemas[k].fields.len();
        let mut assigned: Vec<Option<usize>> = Vec::new();
        let mut j: usize = 0;
        while j < nfields
            invariant
                j <= nfields,
                assigned@.len() == j,
                forall|q: int| 0 <= q < j ==> (#[trigger] assigned@[q]) is None,
            decreases nfields - j,
        {
            assigned.push(None);
            j += 1;
        }
        proof {
            assert(assigned@.map_values(|o: Option<usize>| spec_opt_int(o)) =~= spec_arg_places(named@, fields, pred, 0).0);
        }
        let mut reported: Vec<String> = Vec::new();
        let mut index: usize = 0;
        while index < named.len()
            invariant
                self.wf(),
                self.predicates == old(self).predicates,
                self.errors == old(self).errors,
                self.schemas == old(self).schemas,
                k < self.schemas@.len(),
                nfields == self.schemas@[k as int].fields@.len(),
                fields == self.schemas@[k as int].fields@.map_values(|n: String| n@),
                pred == predicate@,
                index <= named@.len(),
                assigned@.len() == nfields,
                forall|q: int|
                    0 <= q < nfields ==> (#[trigger] assigned@[q] matches Some(x) ==> x
                        < named@.len()),
                assigned@.map_values(|o: Option<usize>| spec_opt_int(o)) == spec_arg_places(named@, fields, pred, index as int).0,
                reported@.map_values(|m: String| m@) == spec_arg_places(named@, fields, pred, index as int).1,
            decreases named.len() - index,
        {
            let field = named[index].field.name.as_str();
            let ghost a0 = assigned@;
            let ghost r0 = reported@;
            proof {
                lemma_placed_shape(named@, fields, pred, index as int);
                lemma_last_position_bound(fields, field@);
            }
            match self.field_position(k, field) {
                None => {
                    let mut m = to_owned("unknown field `");
                    push_str(&mut m, field);
                    push_str(&mut m, "` for predicate `");
                    push_str(&mut m, predicate);
                    push_str(&mut m, "`; known fields: ");
                    push_str(&mut m, join_names(&self.schemas[k].fields).as_str());
                    reported.push(m);
                    proof {
                        assert(reported@.map_values(|m: String| m@) =~= r0.map_values(|m: String| m@).push(
                            spec_unknown_field_message(field@, pred, fields),
                        ));
                    }
                },
                Some(position) => {
                    proof {
                        assert(assigned@.map_values(|o: Option<usize>| spec_opt_int(o))[position as int] == spec_opt_int(
                            assigned@[position as int],
                        ));
                    }
                    if assigned[position].is_some() {
                        let mut m = to_owned("field `");
                        push_str(&mut m, field);
                        push_str(&mut m, "` is given twice in one `");
                        push_str(&mut m, predicate);
                        push_str(&mut m, "` literal");
                        reported.push(m);
                        proof {
                            assert(reported@.map_values(|m: String| m@) =~= r0.map_values(|m: String| m@).push(
                                spec_given_twice_message(field@, pred),
                            ));
                        }
                    } else {
                        assigned.set(position, Some(index));
                        proof {
                            assert(assigned@.map_values(|o: Option<usize>| spec_opt_int(o)) =~= a0.map_values(
                                |o: Option<usize>| spec_opt_int(o),
                            ).update(position as int, Some(index as int)));
                        }
                    }
                },
            }
            index += 1;
        }
        let ghost places = spec_arg_places(named@, fields, pred, named@.len() as int).0;
        if pos == AtomPos::Head {
            let mut missing: Vec<String> = Vec::new();
            let mut q: usize = 0;
            while q < nfields
                invariant
                    k < self.schemas@.len(),
                    nfields == self.schemas@[k as int].fields@.len(),
                    fields == self.schemas@[k as int].fields@.map_values(|n: String| n@),
                    assigned@.len() == nfields,
                    q <= nfields,
                    places == assigned@.map_values(|o: Option<usize>| spec_opt_int(o)),
                    missing@.map_values(|m: String| m@) == spec_unplaced(places, fields, q as int),
                decreases nfields - q,
            {
                let ghost m0 = missing@;
                proof {
                    assert(places[q as int] == spec_opt_int(assigned@[q as int]));
                }
                if assigned[q].is_none() {
                    missing.push(to_owned(self.schemas[k].fields[q].as_str()));
                }
                assert(missing@.map_values(|m: String| m@) =~= spec_unplaced(places, fields, q + 1));
                q += 1;
            }
            if missing.len() > 0 {
                let ghost r0 = reported@;
                let mut m = to_owned("head `");
                push_str(&mut m, predicate);
                push_str(&mut m, "` uses named arguments and must supply every field; missing: ");
                push_str(&mut m, join_names(&missing).as_str());
                reported.push(m);
                proof {
                    assert(reported@.map_values(|m: String| m@) =~= r0.map_values(|m: String| m@).push(
                        spec_missing_fields_message(pred, spec_unplaced(places, fields, fields.len() as int)),
                    ));
                }
            }
        }
        let ghost reports = spec_named_reports(named@, fields, pred, pos == AtomPos::Head);
        assert(reported@.map_values(|m: String| m@) == reports);
        if reported.len() > 0 {
            let mut e: usize = 0;
            while e < reported.len()
                invariant
                    self.grows(&*old(self)),
                    self.predicates == old(self).predicates,
                    e <= reported@.len(),
                    reported@.map_values(|m: String| m@) == reports,
                    self.errors@.len() == old(self).errors@.len() + e,
                    forall|x: int| 0 <= x < e ==> (#[trigger] self.errors@[old(self).errors@.len() + x]).message@ == reports[x],
                    forall|x: int| 0 <= x < old(self).errors@.len() ==> #[trigger] self.errors@[x] == old(self).errors@[x],
                decreases reported.len() - e,
            {
                let ghost before = self.errors@;
                self.err(to_owned(reported[e].as_str()));
                proof {
                    assert(reports[e as int] == reported@[e as int]@);
                    assert forall|x: int| 0 <= x < e + 1 implies (#[trigger] self.errors@[old(self).errors@.len() + x]).message@
                        == reports[x] by {
                        if x < e {
                            assert(self.errors@[old(self).errors@.len() + x] == before[old(self).errors@.len() + x]);
                        }
                    }
                    assert forall|x: int| 0 <= x < old(self).errors@.len() implies #[trigger] self.errors@[x] == old(
                        self,
                    ).errors@[x] by {
                        assert(self.errors@[x] == before[x]);
                    }
                }
                e += 1;
            }
            return None;
        }
        let ghost gn = spec_named_ready(*old(self), named@, atom.predicate.name@, pos == AtomPos::Head);
        proof {
            if gn {
                assert(spec_schema_fields(*old(self), pred) == fields);
            }
        }
        let pred_id = self.pred_id(predicate);
        let ghost p_mid = self.predicates@;
        proof {
            lemma_lits_preds_mono(hoisted@, old(self).predicates@.len(), self.predicates@.len());
        }
        let mut args: Vec<ir::Term> = Vec::new();
        let mut q: usize = 0;
        while q < nfields
            invariant
                self.grows(&*old(self)),
                (pred_id.0 as int) < self.predicates@.len(),
                atom.args is Named,
                atom.args->Named_0 == *named,
                assigned@.len() == nfields,
                forall|x: int|
                    0 <= x < nfields ==> (#[trigger] assigned@[x] matches Some(y) ==> y
                        < named@.len()),
                scope.wf(),
                old(scope).full ==> scope.full,
                spec_lits_preds_ok(hoisted@, self.predicates@.len()),
                q <= nfields,
                args@.len() == q,
                places == assigned@.map_values(|o: Option<usize>| spec_opt_int(o)),
                forall|x: int| 0 <= x < q && places[x] is None ==> (#[trigger] args@[x]) is Var,
                gn == spec_named_ready(*old(self), named@, atom.predicate.name@, pos == AtomPos::Head),
                first == old(scope).names@.len(),
                gn ==> self.errors@ == old(self).errors@ && self.predicates@ == p_mid && names_extend(
                    old(scope).names@,
                    scope.names@,
                ) && (!scope.full ==> (forall|x: int|
                    0 <= x < q ==> match places[x] {
                        Some(i) => 0 <= i < named@.len() && spec_arg_is(named@[i].value, #[trigger] args@[x], scope.names@),
                        None => spec_fresh_slot(args@[x], first, scope.names@),
                    }) && (forall|x1: int, x2: int|
                    0 <= x1 < x2 < q && places[x1] is None && places[x2] is None ==> spec_slot_of(#[trigger] args@[x1])
                        < spec_slot_of(#[trigger] args@[x2])) && (forall|x: int|
                    0 <= x < q && places[x] is None ==> spec_slot_of(#[trigger] args@[x]) < scope.names@.len())),
            decreases nfields - q,
        {
            let ghost names0 = scope.names@;
            let ghost args0 = args@;
            proof {
                assert(places[q as int] == spec_opt_int(assigned@[q as int]));
            }
            let t = match assigned[q] {
                Some(idx) => {
                    proof {
                        assert(decreases_to!(*atom => atom.args));
                        assert(decreases_to!(atom.args => atom.args->Named_0));
                        assert(atom.args->Named_0 == *named);
                        assert(decreases_to!(*named => named@));
                        assert(decreases_to!(named@ => named@[idx as int]));
                        assert(decreases_to!(named@[idx as int] => named@[idx as int].value));
                    }
                    self.lower_arg_expr(&named[idx].value, scope, pos, mode, hoisted)
                },
                None => ir::Term::Var(scope.fresh()),
            };
            args.push(t);
            proof {
                if gn && !scope.full {
                    assert forall|x: int| 0 <= x < q + 1 implies match places[x] {
                        Some(i) => 0 <= i < named@.len() && spec_arg_is(named@[i].value, #[trigger] args@[x], scope.names@),
                        None => spec_fresh_slot(args@[x], first, scope.names@),
                    } by {
                        if x < q {
                            assert(args@[x] == args0[x]);
                            if let Some(i) = places[x] {
                                lemma_arg_is_extend(named@[i].value, args0[x], names0, scope.names@);
                            } else {
                                assert(scope.names@[spec_slot_of(args0[x])] == names0[spec_slot_of(args0[x])]);
                            }
                        }
                    }
                    assert forall|x1: int, x2: int|
                        0 <= x1 < x2 < q + 1 && places[x1] is None && places[x2] is None implies spec_slot_of(
                        #[trigger] args@[x1],
                    ) < spec_slot_of(#[trigger] args@[x2]) by {
                        assert(args@[x1] == args0[x1]);
                        if x2 < q {
                            assert(args@[x2] == args0[x2]);
                        }
                    }
                    assert forall|x: int| 0 <= x < q + 1 && places[x] is None implies spec_slot_of(#[trigger] args@[x])
                        < scope.names@.len() by {
                        if x < q {
                            assert(args@[x] == args0[x]);
                        }
                    }
                }
            }
            q += 1;
        }
        Some(ir::Atom { pred: pred_id, args })
    }

    /// Lowers a body, in order; inline arithmetic and aggregates hoist to the
    /// literals just before the one that uses them.
    fn lower_body(&mut self, body: &Vec<ast::Literal>, scope: &mut VarScope) -> (r: Vec<
        ir::BodyLiteral,
    >)
        requires
            old(self).wf(),
            old(scope).wf(),
        ensures
            final(self).grows(&*old(self)),
            final(scope).wf(),
            old(scope).full ==> final(scope).full,
            spec_lits_preds_ok(r@, final(self).predicates@.len()),
            spec_body_atoms(body@, old(self).predicates@) ==> final(self).errors@ == old(self).errors@ && final(
                self).predicates@ == old(self).predicates@ && names_extend(old(scope).names@, final(scope).names@)
                && r@.len() == body@.len() && (!final(scope).full ==> forall|k: int|
                0 <= k < body@.len() ==> spec_lit_is(
                    body@[k],
                    #[trigger] r@[k],
                    final(self).predicates@,
                    final(scope).names@,
                )) && final(scope).names@.len() <= old(scope).names@.len() + spec_body_args(body@),
        decreases body, 4int,
    {
        let ghost gb = spec_body_atoms(body@, old(self).predicates@);
        let mut lowered: Vec<ir::BodyLiteral> = Vec::new();
        let mut i: usize = 0;
        while i < body.len()
            invariant
                self.grows(&*old(self)),
                scope.wf(),
                old(scope).full ==> scope.full,
                spec_lits_preds_ok(lowered@, self.predicates@.len()),
                i <= body@.len(),
                gb == spec_body_atoms(body@, old(self).predicates@),
                gb ==> self.errors@ == old(self).errors@ && self.predicates@ == old(self).predicates@ && names_extend(
                    old(scope).names@,
                    scope.names@,
                ) && lowered@.len() == i && (!scope.full ==> forall|k: int|
                    0 <= k < i ==> spec_lit_is(body@[k], #[trigger] lowered@[k], self.predicates@, scope.names@))
                    && scope.names@.len() <= old(scope).names@.len() + spec_body_args(body@.take(i as int)),
            decreases body.len() - i,
        {
            let ghost names0 = scope.names@;
            let ghost low0 = lowered@;
            proof {
                if gb {
                    assert(body@[i as int].kind is Atom);
                    assert(body@.take(i + 1).drop_last() =~= body@.take(i as int));
                    assert(body@.take(i + 1).last() == body@[i as int]);
                }
            }
            assert(decreases_to!(body => body@[i as int]));
            let literal = &body[i];
            let ghost n0 = self.predicates@.len();
            let mut hoisted: Vec<ir::BodyLiteral> = Vec::new();
            match &literal.kind {
                ast::LiteralKind::Atom { negated, atom } => {
                    let la = self.lower_atom(atom, scope, AtomPos::Body, ArgMode::Hoist, &mut hoisted);
                    match la {
                        Some(a) => {
                            let kind = if *negated {
                                ir::BodyLiteralKind::NegAtom(a)
                            } else {
                                ir::BodyLiteralKind::Atom(a)
                            };
                            let lit = ir::BodyLiteral { kind, span: literal.span };
                            proof {
                                lemma_lits_preds_mono(lowered@, n0, self.predicates@.len());
                                lemma_lits_append(lowered@, hoisted@, self.predicates@.len());
                                lemma_lits_push(lowered@ + hoisted@, lit, self.predicates@.len());
                            }
                            lowered.append(&mut hoisted);
                            lowered.push(lit);
                            proof {
                                if gb {
                                    assert(lowered@ == low0.push(lit));
                                    if !scope.full {
                                        assert forall|k: int| 0 <= k < i + 1 implies spec_lit_is(
                                            body@[k],
                                            #[trigger] lowered@[k],
                                            self.predicates@,
                                            scope.names@,
                                        ) by {
                                            if k < i {
                                                assert(lowered@[k] == low0[k]);
                                                lemma_lit_is_extend(
                                                    body@[k],
                                                    low0[k],
                                                    self.predicates@,
                                                    self.predicates@,
                                                    names0,
                                                    scope.names@,
                                                );
                                            }
                                        }
                                    }
                                }
                            }
                        },
                        None => {
                            proof {
                                lemma_lits_preds_mono(lowered@, n0, self.predicates@.len());
                            }
                        },
                    }
                },
                ast::LiteralKind::Comparison(c) => {
                    let lhs = self.lower_expr(&c.lhs, scope, &mut hoisted);
                    let rhs = self.lower_expr(&c.rhs, scope, &mut hoisted);
                    let lit = ir::BodyLiteral {
                        kind: ir::BodyLiteralKind::Compare { op: c.op, lhs, rhs },
                        span: literal.span,
                    };
                    proof {
                        lemma_lits_preds_mono(lowered@, n0, self.predicates@.len());
                        lemma_lits_append(lowered@, hoisted@, self.predicates@.len());
                        lemma_lits_push(lowered@ + hoisted@, lit, self.predicates@.len());
                    }
                    lowered.append(&mut hoisted);
                    lowered.push(lit);
                },
                ast::LiteralKind::Presence { expr, negated } => {
                    let e = self.lower_expr(expr, scope, &mut hoisted);
                    let lit = ir::BodyLiteral {
                        kind: ir::BodyLiteralKind::Presence { expr: e, negated: *negated },
                        span: literal.span,
                    };
                    proof {
                        lemma_lits_preds_mono(lowered@, n0, self.predicates@.len());
                        lemma_lits_append(lowered@, hoisted@, self.predicates@.len());
                        lemma_lits_push(lowered@ + hoisted@, lit, self.predicates@.len());
                    }
                    lowered.append(&mut hoisted);
                    lowered.push(lit);
                },
            }
            i += 1;
        }
        assert(body@.take(body@.len() as int) =~= body@);
        lowered
    }
}

// --- Safety ---

/// Every variable of the head is bound by the body.
pub open spec fn spec_head_bound(head: ir::Atom, bound: Seq<ir::Var>) -> bool {
    forall|k: int|
        0 <= k < head.args@.len() ==> (#[trigger] head.args@[k] matches ir::Term::Var(v) ==> bound.contains(v))
}

/// A rule is safe: its body has an order in which every literal's inputs are
/// bound before it runs, and that order binds every head variable.
pub open spec fn spec_rule_safe(r: ir::Rule) -> bool {
    match spec_schedule(r.body@, Seq::empty()) {
        Ok((_, bound)) => spec_head_bound(r.head, bound),
        Err(_) => false,
    }
}

/// A query is safe: its body has such an order.
pub open spec fn spec_query_safe(q: ir::Query) -> bool {
    spec_schedule(q.body@, Seq::empty()) is Ok
}

/// The name of a slot for a message: its source name, `_` where it has none.
/// A slot's source name, `_` where it has none.
pub open spec fn spec_slot_name(var_names: Seq<Option<String>>, slot: u32) -> Seq<char> {
    if (slot as int) < var_names.len() && var_names[slot as int] is Some {
        var_names[slot as int]->0@
    } else {
        "_"@
    }
}

fn slot_name(var_names: &Vec<Option<String>>, slot: u32) -> (r: String)
    ensures
        r@ == spec_slot_name(var_names@, slot),
{
    let i = slot as usize;
    if i < var_names.len() {
        match &var_names[i] {
            Some(n) => return to_owned(n.as_str()),
            None => {},
        }
    }
    to_owned("_")
}

/// Whether the slot has a source name.
fn is_named(var_names: &Vec<Option<String>>, slot: u32) -> (r: bool)
    ensures
        r == ((slot as int) < var_names@.len() && var_names@[slot as int] is Some),
{
    let i = slot as usize;
    i < var_names.len() && var_names[i].is_some()
}

/// The variables of the positive atoms of a body.
/// The variables of a list of terms, in order.
pub open spec fn spec_term_vars(ts: Seq<ir::Term>) -> Seq<ir::Var>
    decreases ts.len(),
{
    if ts.len() == 0 {
        seq![]
    } else {
        spec_term_vars(ts.drop_last()) + match ts.last() {
            ir::Term::Var(v) => seq![v],
            ir::Term::Const(_) => Seq::<ir::Var>::empty(),
        }
    }
}

/// The variables of the positive atoms of a body, in order.
pub open spec fn spec_positive_vars(body: Seq<ir::BodyLiteral>) -> Seq<ir::Var>
    decreases body.len(),
{
    if body.len() == 0 {
        seq![]
    } else {
        spec_positive_vars(body.drop_last()) + match body.last().kind {
            ir::BodyLiteralKind::Atom(a) => spec_term_vars(a.args@),
            _ => Seq::<ir::Var>::empty(),
        }
    }
}

fn positive_vars(body: &Vec<ir::BodyLiteral>) -> (r: Vec<ir::Var>)
    ensures
        r@ == spec_positive_vars(body@),
{
    let mut out: Vec<ir::Var> = Vec::new();
    let mut i: usize = 0;
    while i < body.len()
        invariant
            i <= body@.len(),
            out@ == spec_positive_vars(body@.take(i as int)),
        decreases body.len() - i,
    {
        let ghost before = out@;
        proof {
            assert(body@.take(i + 1).drop_last() =~= body@.take(i as int));
            assert(body@.take(i + 1).last() == body@[i as int]);
        }
        match &body[i].kind {
            ir::BodyLiteralKind::Atom(a) => {
                let mut k: usize = 0;
                while k < a.args.len()
                    invariant
                        k <= a.args@.len(),
                        out@ == before + spec_term_vars(a.args@.take(k as int)),
                    decreases a.args.len() - k,
                {
                    proof {
                        assert(a.args@.take(k + 1).drop_last() =~= a.args@.take(k as int));
                        assert(a.args@.take(k + 1).last() == a.args@[k as int]);
                    }
                    match &a.args[k] {
                        ir::Term::Var(v) => out.push(*v),
                        ir::Term::Const(_) => {},
                    }
                    assert(out@ =~= before + spec_term_vars(a.args@.take(k + 1)));
                    k += 1;
                }
                assert(a.args@.take(a.args@.len() as int) =~= a.args@);
            },
            _ => {},
        }
        assert(out@ =~= spec_positive_vars(body@.take(i + 1)));
        i += 1;
    }
    assert(body@.take(body@.len() as int) =~= body@);
    out
}

/// What the body binds: everything its schedule binds, or, where it has no
/// schedule (an error reported elsewhere), the variables of its positive atoms.
/// What a body binds: its schedule's bindings, else its positive atoms'
/// variables.
pub open spec fn spec_safe_bound(body: Seq<ir::BodyLiteral>) -> Seq<ir::Var> {
    match spec_schedule(body, Seq::empty()) {
        Ok((_, bound)) => bound,
        Err(_) => spec_positive_vars(body),
    }
}

/// The message for a variable nothing binds, used in `place`.
pub open spec fn spec_unsafe_message(place: Seq<char>, context: Seq<char>, name: Seq<char>) -> Seq<char> {
    "unsafe "@ + place + " in `"@ + context + "`: variable `"@ + name + "` is never bound — it must occur in a positive body atom, or be bound by an `=`-assignment or an aggregate result"@
}

/// The message for a literal whose variable only a literal needing it binds.
pub open spec fn spec_cycle_message(place: Seq<char>, context: Seq<char>, name: Seq<char>) -> Seq<char> {
    "circular dependency in `"@ + context + "`: the "@ + place + " needs `"@ + name + "`, which is only bound by a literal that in turn needs this one; no order of the body can run"@
}

/// The message for a comparison against the literal `absent`.
pub open spec fn spec_absent_message(op: ast::CmpOp, context: Seq<char>) -> Seq<char> {
    "`"@ + crate::ast::spec_cmp_symbol(op) + "` against the literal `absent` in `"@ + context + "` is always false (every comparison with absent is false, so `=` and `!=` are both false); test presence with `X is absent` / `X is not absent` instead"@
}

/// How a failing literal is named.
pub open spec fn spec_failure_place(body: Seq<ir::BodyLiteral>, lit: int) -> Seq<char> {
    if 0 <= lit < body.len() {
        match body[lit].kind {
            ir::BodyLiteralKind::Compare { .. } => "comparison"@,
            ir::BodyLiteralKind::Presence { .. } => "presence test"@,
            ir::BodyLiteralKind::Aggregate { .. } => "aggregate"@,
            ir::BodyLiteralKind::NegAtom(_) => "negated atom"@,
            ir::BodyLiteralKind::Atom(_) => "body literal"@,
        }
    } else {
        "body literal"@
    }
}

/// The message for a body with no schedule.
pub open spec fn spec_schedule_message(
    f: crate::schedule::ScheduleError,
    body: Seq<ir::BodyLiteral>,
    names: Seq<Option<String>>,
    context: Seq<char>,
) -> Seq<char> {
    let place = spec_failure_place(body, f.literal as int);
    let name = spec_slot_name(names, f.variable.0);
    match f.cause {
        crate::schedule::ScheduleFailure::Unbound => spec_unsafe_message(place, context, name),
        crate::schedule::ScheduleFailure::Cycle => spec_cycle_message(place, context, name),
    }
}

/// Reports for a negated atom's arguments: each named variable the body
/// does not bind.
pub open spec fn spec_neg_reports(args: Seq<ir::Term>, names: Seq<Option<String>>, bound: Seq<ir::Var>, context: Seq<char>) -> Seq<
    Seq<char>,
>
    decreases args.len(),
{
    if args.len() == 0 {
        Seq::<Seq<char>>::empty()
    } else {
        spec_neg_reports(args.drop_last(), names, bound, context) + match args.last() {
            ir::Term::Var(v) => if (v.0 as int) < names.len() && names[v.0 as int] is Some && !bound.contains(v) {
                seq![spec_unsafe_message("negated atom"@, context, spec_slot_name(names, v.0))]
            } else {
                Seq::<Seq<char>>::empty()
            },
            ir::Term::Const(_) => Seq::<Seq<char>>::empty(),
        }
    }
}

/// Reports for an aggregate's collected variables: each one neither its goal
/// nor the group keys bind.
pub open spec fn spec_collected_reports(vars: Seq<ir::Var>, goal_bound: Seq<ir::Var>, names: Seq<Option<String>>, context: Seq<char>) -> Seq<
    Seq<char>,
>
    decreases vars.len(),
{
    if vars.len() == 0 {
        Seq::<Seq<char>>::empty()
    } else {
        spec_collected_reports(vars.drop_last(), goal_bound, names, context) + if !goal_bound.contains(vars.last()) {
            seq![spec_unsafe_message("aggregate expression"@, context, spec_slot_name(names, vars.last().0))]
        } else {
            Seq::<Seq<char>>::empty()
        }
    }
}

/// Everything the safety check reports for a body with `seed` bound: a body
/// with no schedule is one report; otherwise each literal's, in order.
pub open spec fn spec_safety_reports(
    body: Seq<ir::BodyLiteral>,
    names: Seq<Option<String>>,
    seed: Seq<ir::Var>,
    context: Seq<char>,
) -> Seq<Seq<char>>
    decreases body, 2int, 0int,
{
    match spec_schedule(body, seed) {
        Err(f) => seq![spec_schedule_message(f, body, names, context)],
        Ok((_, bound)) => spec_lits_reports(body, names, bound, spec_positive_vars(body) + seed, context, body.len() as int),
    }
}

/// The reports of the first `n` literals of a scheduled body.
pub open spec fn spec_lits_reports(
    body: Seq<ir::BodyLiteral>,
    names: Seq<Option<String>>,
    bound: Seq<ir::Var>,
    positive: Seq<ir::Var>,
    context: Seq<char>,
    n: int,
) -> Seq<Seq<char>>
    decreases body, 1int, n,
{
    if n <= 0 || n > body.len() {
        Seq::<Seq<char>>::empty()
    } else {
        spec_lits_reports(body, names, bound, positive, context, n - 1) + spec_lit_reports(
            body[n - 1],
            names,
            bound,
            positive,
            context,
        )
    }
}

/// One literal's reports: a negated atom's unbound named variables; a
/// comparison against the literal `absent` that produces nothing; an
/// aggregate's goal's reports, then its collected variables the goal and the
/// group keys leave unbound.
pub open spec fn spec_lit_reports(
    l: ir::BodyLiteral,
    names: Seq<Option<String>>,
    bound: Seq<ir::Var>,
    positive: Seq<ir::Var>,
    context: Seq<char>,
) -> Seq<Seq<char>>
    decreases l, 0int, 0int,
{
    match l.kind {
        ir::BodyLiteralKind::NegAtom(atom) => spec_neg_reports(atom.args@, names, bound, context),
        ir::BodyLiteralKind::Compare { op, lhs, rhs } => {
            let unbound_l = lhs matches ir::Expr::Term(ir::Term::Var(v)) && !positive.contains(v);
            let unbound_r = rhs matches ir::Expr::Term(ir::Term::Var(v)) && !positive.contains(v);
            let produces = op == ast::CmpOp::Eq && (unbound_l || unbound_r);
            let absent_l = lhs matches ir::Expr::Term(ir::Term::Const(v)) && v is Absent;
            let absent_r = rhs matches ir::Expr::Term(ir::Term::Const(v)) && v is Absent;
            if !produces && (absent_l || absent_r) {
                seq![spec_absent_message(op, context)]
            } else {
                Seq::<Seq<char>>::empty()
            }
        },
        ir::BodyLiteralKind::Aggregate { expr, goal, .. } => spec_safety_reports(goal@, names, bound, context)
            + spec_collected_reports(crate::schedule::spec_expr_vars(expr), spec_safe_bound(goal@) + bound, names, context),
        _ => Seq::<Seq<char>>::empty(),
    }
}

/// `after` is `before` with errors carrying `messages` appended.
pub open spec fn spec_appended(before: Seq<Error>, after: Seq<Error>, messages: Seq<Seq<char>>) -> bool {
    &&& after.len() == before.len() + messages.len()
    &&& forall|i: int| 0 <= i < before.len() ==> #[trigger] after[i] == before[i]
    &&& forall|x: int| 0 <= x < messages.len() ==> (#[trigger] after[before.len() + x]).message@ == messages[x]
}

proof fn lemma_appended_trans(a: Seq<Error>, b: Seq<Error>, c: Seq<Error>, m1: Seq<Seq<char>>, m2: Seq<Seq<char>>)
    requires
        spec_appended(a, b, m1),
        spec_appended(b, c, m2),
    ensures
        spec_appended(a, c, m1 + m2),
{
    assert forall|i: int| 0 <= i < a.len() implies #[trigger] c[i] == a[i] by {
        assert(c[i] == b[i]);
    }
    assert forall|x: int| 0 <= x < (m1 + m2).len() implies (#[trigger] c[a.len() + x]).message@ == (m1 + m2)[x] by {
        if x < m1.len() {
            assert(c[a.len() + x] == b[a.len() + x]);
        } else {
            assert(c[b.len() + (x - m1.len())].message@ == m2[x - m1.len()]);
        }
    }
}

proof fn lemma_appended_none(a: Seq<Error>)
    ensures
        spec_appended(a, a, Seq::<Seq<char>>::empty()),
{
}

proof fn lemma_appended_one(a: Seq<Error>, b: Seq<Error>, m: Seq<char>)
    requires
        b.len() == a.len() + 1,
        b.drop_last() == a,
        b.last().message@ == m,
    ensures
        spec_appended(a, b, seq![m]),
{
    assert forall|i: int| 0 <= i < a.len() implies #[trigger] b[i] == a[i] by {
        assert(b.drop_last()[i] == b[i]);
    }
}

/// The message for a head variable the body does not bind.
pub open spec fn spec_head_message(head: Seq<char>, name: Seq<char>) -> Seq<char> {
    "unsafe rule for `"@ + head + "`: head variable `"@ + name + "` is not bound by the body — it must occur in a positive body atom, or be bound by an `=`-assignment or an aggregate result"@
}

/// Reports for a rule head's arguments: each variable (a wildcard too) that
/// `bound` lacks.
pub open spec fn spec_head_reports(args: Seq<ir::Term>, names: Seq<Option<String>>, bound: Seq<ir::Var>, head: Seq<char>) -> Seq<
    Seq<char>,
>
    decreases args.len(),
{
    if args.len() == 0 {
        Seq::<Seq<char>>::empty()
    } else {
        spec_head_reports(args.drop_last(), names, bound, head) + match args.last() {
            ir::Term::Var(v) => if !bound.contains(v) {
                seq![spec_head_message(head, spec_slot_name(names, v.0))]
            } else {
                Seq::<Seq<char>>::empty()
            },
            ir::Term::Const(_) => Seq::<Seq<char>>::empty(),
        }
    }
}

/// Everything the safety check reports for a rule of `head`: where its body
/// has a schedule, each head variable the schedule leaves unbound; then the
/// body's own reports.
pub open spec fn spec_rule_reports(rule: ir::Rule, head: Seq<char>) -> Seq<Seq<char>> {
    (match spec_schedule(rule.body@, Seq::empty()) {
        Ok((_, bound)) => spec_head_reports(rule.head.args@, rule.var_names@, bound, head),
        Err(_) => Seq::<Seq<char>>::empty(),
    }) + spec_safety_reports(rule.body@, rule.var_names@, Seq::empty(), head)
}

/// The last errors of `errors` carry `messages`, in order.
pub open spec fn spec_ends_with_reports(errors: Seq<Error>, messages: Seq<Seq<char>>) -> bool {
    &&& errors.len() >= messages.len()
    &&& forall|x: int| 0 <= x < messages.len() ==> (#[trigger] errors[errors.len() - messages.len() + x]).message@ == messages[x]
}

fn safe_bound_vars(body: &Vec<ir::BodyLiteral>) -> (r: Vec<ir::Var>)
    ensures
        spec_schedule(body@, Seq::empty()) matches Ok((_, bound)) ==> r@ == bound,
        r@ == spec_safe_bound(body@),
{
    let seed: Vec<ir::Var> = Vec::new();
    assert(seed@ =~= Seq::<ir::Var>::empty());
    match crate::schedule::schedule_body_with(body.as_slice(), seed.as_slice()) {
        Ok((_, bound)) => bound,
        Err(_) => positive_vars(body),
    }
}

/// Whether an operand is the bare literal `absent`.
fn is_literal_absent(e: &ir::Expr) -> (r: bool)
    ensures
        r == (e matches ir::Expr::Term(ir::Term::Const(v)) && v is Absent),
{
    match e {
        ir::Expr::Term(ir::Term::Const(ir::Value::Absent)) => true,
        _ => false,
    }
}

/// Whether an operand is a variable outside `positive` (an `=` producing it).
fn is_unbound_var(e: &ir::Expr, positive: &Vec<ir::Var>) -> (r: bool)
    ensures
        r == (e matches ir::Expr::Term(ir::Term::Var(v)) && !positive@.contains(*v)),
{
    match e {
        ir::Expr::Term(ir::Term::Var(v)) => !crate::schedule::contains_var(positive.as_slice(), *v),
        _ => false,
    }
}

/// A scheduling failure as an error: an unbound variable wants a binder, a
/// cycle cannot be fixed by moving anything.
fn schedule_error(
    failure: &crate::schedule::ScheduleError,
    body: &Vec<ir::BodyLiteral>,
    var_names: &Vec<Option<String>>,
    context: &str,
) -> (r: Error)
    ensures
        r.kind == ErrorKind::Semantic,
        r.message@ == spec_schedule_message(*failure, body@, var_names@, context@),
{
    let name = slot_name(var_names, failure.variable.0);
    let place = if failure.literal < body.len() {
        match &body[failure.literal].kind {
            ir::BodyLiteralKind::Compare { .. } => "comparison",
            ir::BodyLiteralKind::Presence { .. } => "presence test",
            ir::BodyLiteralKind::Aggregate { .. } => "aggregate",
            ir::BodyLiteralKind::NegAtom(_) => "negated atom",
            ir::BodyLiteralKind::Atom(_) => "body literal",
        }
    } else {
        "body literal"
    };
    match failure.cause {
        crate::schedule::ScheduleFailure::Unbound => {
            let mut m = to_owned("unsafe ");
            push_str(&mut m, place);
            push_str(&mut m, " in `");
            push_str(&mut m, context);
            push_str(&mut m, "`: variable `");
            push_str(&mut m, name.as_str());
            push_str(&mut m, "` is never bound — it must occur in a positive body atom, or be bound by an `=`-assignment or an aggregate result");
            Error::semantic(m)
        },
        crate::schedule::ScheduleFailure::Cycle => {
            let mut m = to_owned("circular dependency in `");
            push_str(&mut m, context);
            push_str(&mut m, "`: the ");
            push_str(&mut m, place);
            push_str(&mut m, " needs `");
            push_str(&mut m, name.as_str());
            push_str(&mut m, "`, which is only bound by a literal that in turn needs this one; no order of the body can run");
            Error::semantic(m)
        },
    }
}

/// The error for a comparison against the literal `absent`.
fn absent_comparison_message(op: ast::CmpOp, context: &str) -> (r: String)
    ensures
        r@ == "`"@ + crate::ast::spec_cmp_symbol(op) + "` against the literal `absent` in `"@ + context@
            + "` is always false (every comparison with absent is false, so `=` and `!=` are both false); test presence with `X is absent` / `X is not absent` instead"@,
{
    let mut m = to_owned("`");
    push_str(&mut m, crate::ast::cmp_symbol(op));
    push_str(&mut m, "` against the literal `absent` in `");
    push_str(&mut m, context);
    push_str(
        &mut m,
        "` is always false (every comparison with absent is false, so `=` and `!=` are both false); test presence with `X is absent` / `X is not absent` instead",
    );
    m
}

impl Lowerer {
    /// Records that a variable nothing in the body binds was used in `place`.
    fn push_unsafe(&mut self, slot: u32, var_names: &Vec<Option<String>>, place: &str, context: &str)
        requires
            old(self).wf(),
        ensures
            final(self).grows(&*old(self)),
            final(self).predicates == old(self).predicates,
            final(self).errors@.len() == old(self).errors@.len() + 1,
            final(self).errors@.drop_last() == old(self).errors@,
            final(self).errors@.last().message@ == "unsafe "@ + place@ + " in `"@ + context@ + "`: variable `"@
                + spec_slot_name(var_names@, slot)
                + "` is never bound — it must occur in a positive body atom, or be bound by an `=`-assignment or an aggregate result"@,
    {
        let name = slot_name(var_names, slot);
        let mut m = to_owned("unsafe ");
        push_str(&mut m, place);
        push_str(&mut m, " in `");
        push_str(&mut m, context);
        push_str(&mut m, "`: variable `");
        push_str(&mut m, name.as_str());
        push_str(
            &mut m,
            "` is never bound — it must occur in a positive body atom, or be bound by an `=`-assignment or an aggregate result",
        );
        self.err(m);
    }

    /// Checks a body with `seed` already bound (the group keys an aggregate's
    /// goal sees): that it has a schedule; that a named variable of a negated
    /// atom is bound by something; that no comparison tests against the
    /// literal `absent` (always false); and, in each aggregate, that the goal
    /// is safe and the collected expression uses only goal-bound variables or
    /// group keys.
    fn check_body_safety_seeded(
        &mut self,
        body: &Vec<ir::BodyLiteral>,
        var_names: &Vec<Option<String>>,
        seed: &Vec<ir::Var>,
        context: &str,
    )
        requires
            old(self).wf(),
        ensures
            final(self).grows(&*old(self)),
            final(self).predicates == old(self).predicates,
            final(self).errors@.len() == old(self).errors@.len() ==> spec_schedule(body@, seed@) is Ok,
            spec_appended(
                old(self).errors@,
                final(self).errors@,
                spec_safety_reports(body@, var_names@, seed@, context@),
            ),
        decreases body,
    {
        let bound = match crate::schedule::schedule_body_with(body.as_slice(), seed.as_slice()) {
            Ok((_, bound)) => bound,
            Err(failure) => {
                let e = schedule_error(&failure, body, var_names, context);
                self.errors.push(e);
                assert(all_semantic(self.errors@)) by {
                    assert forall|i: int| 0 <= i < self.errors@.len() implies (
                    #[trigger] self.errors@[i]).kind == ErrorKind::Semantic by {
                        if i < old(self).errors@.len() {
                            assert(self.errors@[i] == old(self).errors@[i]);
                        }
                    }
                }
                proof {
                    assert(self.errors@.drop_last() =~= old(self).errors@);
                    lemma_appended_one(old(self).errors@, self.errors@, e.message@);
                }
                return;
            },
        };
        let ghost positive0 = spec_positive_vars(body@) + seed@;
        let mut positive = positive_vars(body);
        crate::schedule::extend_vars(&mut positive, seed.as_slice());
        proof {
            lemma_appended_none(old(self).errors@);
        }
        let mut i: usize = 0;
        while i < body.len()
            invariant
                i <= body@.len(),
                self.grows(&*old(self)),
                self.predicates == old(self).predicates,
                positive@ == positive0,
                positive0 == spec_positive_vars(body@) + seed@,
                spec_schedule(body@, seed@) == Ok::<(Seq<int>, Seq<ir::Var>), crate::schedule::ScheduleError>((
                    spec_schedule(body@, seed@)->Ok_0.0,
                    bound@,
                )),
                spec_appended(
                    old(self).errors@,
                    self.errors@,
                    spec_lits_reports(body@, var_names@, bound@, positive0, context@, i as int),
                ),
            decreases body.len() - i,
        {
            let ghost e0 = self.errors@;
            let ghost lit = body@[i as int];
            match &body[i].kind {
                ir::BodyLiteralKind::Atom(_) => {
                    proof {
                        lemma_appended_none(e0);
                    }
                },
                ir::BodyLiteralKind::NegAtom(atom) => {
                    proof {
                        lemma_appended_none(e0);
                    }
                    let mut k: usize = 0;
                    while k < atom.args.len()
                        invariant
                            k <= atom.args@.len(),
                            self.grows(&*old(self)),
                            self.predicates == old(self).predicates,
                            spec_appended(e0, self.errors@, spec_neg_reports(atom.args@.take(k as int), var_names@, bound@, context@)),
                        decreases atom.args.len() - k,
                    {
                        let ghost e1 = self.errors@;
                        proof {
                            assert(atom.args@.take(k + 1).drop_last() =~= atom.args@.take(k as int));
                            assert(atom.args@.take(k + 1).last() == atom.args@[k as int]);
                            lemma_appended_none(e1);
                        }
                        match &atom.args[k] {
                            ir::Term::Var(v) => {
                                if is_named(var_names, v.0) && !crate::schedule::contains_var(
                                    bound.as_slice(),
                                    *v,
                                ) {
                                    self.push_unsafe(v.0, var_names, "negated atom", context);
                                    proof {
                                        lemma_appended_one(e1, self.errors@, self.errors@.last().message@);
                                    }
                                }
                            },
                            ir::Term::Const(_) => {},
                        }
                        proof {
                            lemma_appended_trans(
                                e0,
                                e1,
                                self.errors@,
                                spec_neg_reports(atom.args@.take(k as int), var_names@, bound@, context@),
                                spec_neg_reports(atom.args@.take(k + 1), var_names@, bound@, context@).skip(
                                    spec_neg_reports(atom.args@.take(k as int), var_names@, bound@, context@).len() as int,
                                ),
                            );
                            assert(spec_neg_reports(atom.args@.take(k as int), var_names@, bound@, context@) + spec_neg_reports(
                                atom.args@.take(k + 1),
                                var_names@,
                                bound@,
                                context@,
                            ).skip(spec_neg_reports(atom.args@.take(k as int), var_names@, bound@, context@).len() as int)
                                =~= spec_neg_reports(atom.args@.take(k + 1), var_names@, bound@, context@));
                        }
                        k += 1;
                    }
                    assert(atom.args@.take(atom.args@.len() as int) =~= atom.args@);
                },
                ir::BodyLiteralKind::Compare { op, lhs, rhs } => {
                    let produces = *op == ast::CmpOp::Eq && (is_unbound_var(lhs, &positive)
                        || is_unbound_var(rhs, &positive));
                    if !produces && (is_literal_absent(lhs) || is_literal_absent(rhs)) {
                        self.err(absent_comparison_message(*op, context));
                        proof {
                            lemma_appended_one(e0, self.errors@, self.errors@.last().message@);
                        }
                    } else {
                        proof {
                            lemma_appended_none(e0);
                        }
                    }
                },
                ir::BodyLiteralKind::Presence { .. } => {
                    proof {
                        lemma_appended_none(e0);
                    }
                },
                ir::BodyLiteralKind::Aggregate { expr, goal, .. } => {
                    assert(decreases_to!(body => body@[i as int]));
                    self.check_body_safety_seeded(goal, var_names, &bound, context);
                    let ghost e1 = self.errors@;
                    let mut goal_bound = safe_bound_vars(goal);
                    crate::schedule::extend_vars(&mut goal_bound, bound.as_slice());
                    let vars = crate::schedule::expr_vars(expr);
                    proof {
                        lemma_appended_none(e1);
                    }
                    let mut k: usize = 0;
                    while k < vars.len()
                        invariant
                            k <= vars@.len(),
                            self.grows(&*old(self)),
                            self.predicates == old(self).predicates,
                            spec_appended(e1, self.errors@, spec_collected_reports(vars@.take(k as int), goal_bound@, var_names@, context@)),
                        decreases vars.len() - k,
                    {
                        let ghost e2 = self.errors@;
                        proof {
                            assert(vars@.take(k + 1).drop_last() =~= vars@.take(k as int));
                            assert(vars@.take(k + 1).last() == vars@[k as int]);
                            lemma_appended_none(e2);
                        }
                        if !crate::schedule::contains_var(goal_bound.as_slice(), vars[k]) {
                            self.push_unsafe(vars[k].0, var_names, "aggregate expression", context);
                            proof {
                                lemma_appended_one(e2, self.errors@, self.errors@.last().message@);
                            }
                        }
                        proof {
                            let prev = spec_collected_reports(vars@.take(k as int), goal_bound@, var_names@, context@);
                            let next = spec_collected_reports(vars@.take(k + 1), goal_bound@, var_names@, context@);
                            lemma_appended_trans(e1, e2, self.errors@, prev, next.skip(prev.len() as int));
                            assert(prev + next.skip(prev.len() as int) =~= next);
                        }
                        k += 1;
                    }
                    assert(vars@.take(vars@.len() as int) =~= vars@);
                    proof {
                        lemma_appended_trans(
                            e0,
                            e1,
                            self.errors@,
                            spec_safety_reports(goal@, var_names@, bound@, context@),
                            spec_collected_reports(vars@, goal_bound@, var_names@, context@),
                        );
                    }
                },
            }
            proof {
                let prev = spec_lits_reports(body@, var_names@, bound@, positive0, context@, i as int);
                assert(spec_lits_reports(body@, var_names@, bound@, positive0, context@, i + 1) == prev + spec_lit_reports(
                    lit,
                    var_names@,
                    bound@,
                    positive0,
                    context@,
                ));
                lemma_appended_trans(
                    old(self).errors@,
                    e0,
                    self.errors@,
                    prev,
                    spec_lit_reports(lit, var_names@, bound@, positive0, context@),
                );
            }
            i += 1;
        }
    }

    fn check_body_safety(&mut self, body: &Vec<ir::BodyLiteral>, var_names: &Vec<Option<String>>, context: &str)
        requires
            old(self).wf(),
        ensures
            final(self).grows(&*old(self)),
            final(self).predicates == old(self).predicates,
            final(self).errors@.len() == old(self).errors@.len() ==> spec_schedule(body@, Seq::empty()) is Ok,
            spec_appended(old(self).errors@, final(self).errors@, spec_safety_reports(body@, var_names@, Seq::empty(), context@)),
    {
        let seed: Vec<ir::Var> = Vec::new();
        assert(seed@ =~= Seq::<ir::Var>::empty());
        self.check_body_safety_seeded(body, var_names, &seed, context);
    }

    /// Head variables must be bound by the body (checked only when the body
    /// has a schedule, so an unschedulable body reports its one real error
    /// instead of one per head variable), then the body itself is checked.
    fn check_rule_safety(&mut self, rule: &ir::Rule, head_name: &str)
        requires
            old(self).wf(),
        ensures
            final(self).grows(&*old(self)),
            final(self).predicates == old(self).predicates,
            final(self).errors@.len() == old(self).errors@.len() ==> spec_rule_safe(*rule),
            spec_appended(old(self).errors@, final(self).errors@, spec_rule_reports(*rule, head_name@)),
    {
        let seed: Vec<ir::Var> = Vec::new();
        assert(seed@ =~= Seq::<ir::Var>::empty());
        let schedulable = crate::schedule::schedule_body_with(rule.body.as_slice(), seed.as_slice()).is_ok();
        let ghost head_reports = match spec_schedule(rule.body@, Seq::empty()) {
            Ok((_, b)) => spec_head_reports(rule.head.args@, rule.var_names@, b, head_name@),
            Err(_) => Seq::<Seq<char>>::empty(),
        };
        proof {
            lemma_appended_none(self.errors@);
        }
        if schedulable {
            let bound = safe_bound_vars(&rule.body);
            let mut k: usize = 0;
            while k < rule.head.args.len()
                invariant
                    self.grows(&*old(self)),
                    self.predicates == old(self).predicates,
                    k <= rule.head.args@.len(),
                    spec_schedule(rule.body@, Seq::empty()) matches Ok((_, b)) && bound@ == b,
                    spec_appended(
                        old(self).errors@,
                        self.errors@,
                        spec_head_reports(rule.head.args@.take(k as int), rule.var_names@, bound@, head_name@),
                    ),
                    self.errors@.len() == old(self).errors@.len() ==> forall|j: int|
                        0 <= j < k ==> (#[trigger] rule.head.args@[j] matches ir::Term::Var(v)
                            ==> bound@.contains(v)),
                decreases rule.head.args.len() - k,
            {
                let ghost e0 = self.errors@;
                proof {
                    assert(rule.head.args@.take(k + 1).drop_last() =~= rule.head.args@.take(k as int));
                    assert(rule.head.args@.take(k + 1).last() == rule.head.args@[k as int]);
                }
                match &rule.head.args[k] {
                    ir::Term::Var(v) => {
                        if !crate::schedule::contains_var(bound.as_slice(), *v) {
                            let name = slot_name(&rule.var_names, v.0);
                            let mut m = to_owned("unsafe rule for `");
                            push_str(&mut m, head_name);
                            push_str(&mut m, "`: head variable `");
                            push_str(&mut m, name.as_str());
                            push_str(&mut m, "` is not bound by the body — it must occur in a positive body atom, or be bound by an `=`-assignment or an aggregate result");
                            self.err(m);
                            proof {
                                lemma_appended_one(e0, self.errors@, m@);
                                lemma_appended_trans(
                                    old(self).errors@,
                                    e0,
                                    self.errors@,
                                    spec_head_reports(rule.head.args@.take(k as int), rule.var_names@, bound@, head_name@),
                                    seq![m@],
                                );
                            }
                        } else {
                            assert(spec_head_reports(rule.head.args@.take(k + 1), rule.var_names@, bound@, head_name@)
                                =~= spec_head_reports(rule.head.args@.take(k as int), rule.var_names@, bound@, head_name@));
                        }
                    },
                    ir::Term::Const(_) => {
                        assert(spec_head_reports(rule.head.args@.take(k + 1), rule.var_names@, bound@, head_name@)
                            =~= spec_head_reports(rule.head.args@.take(k as int), rule.var_names@, bound@, head_name@));
                    },
                }
                k += 1;
            }
            assert(rule.head.args@.take(rule.head.args@.len() as int) =~= rule.head.args@);
        }
        let ghost e1 = self.errors@;
        self.check_body_safety(&rule.body, &rule.var_names, head_name);
        proof {
            lemma_appended_trans(
                old(self).errors@,
                e1,
                self.errors@,
                head_reports,
                spec_safety_reports(rule.body@, rule.var_names@, Seq::empty(), head_name@),
            );
        }
    }
}

// --- Clauses and queries ---

/// Every predicate the lowered program names is in its table.
pub open spec fn spec_in_range(p: ir::Program, n: nat) -> bool {
    &&& forall|r: int| 0 <= r < p.rules@.len() ==> spec_rule_preds_ok(#[trigger] p.rules@[r], n)
    &&& forall|f: int| 0 <= f < p.facts@.len() ==> ((#[trigger] p.facts@[f]).pred.0 as int) < n
    &&& forall|q: int| 0 <= q < p.queries@.len() ==> spec_lits_preds_ok((#[trigger] p.queries@[q]).body@, n)
    &&& forall|i: int| 0 <= i < p.imports@.len() ==> ((#[trigger] p.imports@[i]).pred.0 as int) < n
}

/// Every rule and query of the lowered program is safe.
pub open spec fn spec_safe(p: ir::Program) -> bool {
    &&& forall|r: int| 0 <= r < p.rules@.len() ==> spec_rule_safe(#[trigger] p.rules@[r])
    &&& forall|q: int| 0 <= q < p.queries@.len() ==> spec_query_safe(#[trigger] p.queries@[q])
}

proof fn lemma_in_range_mono(p: ir::Program, n: nat, m: nat)
    requires
        spec_in_range(p, n),
        n <= m,
    ensures
        spec_in_range(p, m),
{
    assert forall|r: int| 0 <= r < p.rules@.len() implies spec_rule_preds_ok(#[trigger] p.rules@[r], m) by {
        lemma_lits_preds_mono(p.rules@[r].body@, n, m);
    }
    assert forall|q: int| 0 <= q < p.queries@.len() implies spec_lits_preds_ok(
        (#[trigger] p.queries@[q]).body@,
        m,
    ) by {
        lemma_lits_preds_mono(p.queries@[q].body@, n, m);
    }
}

/// What lowering the clauses so far has built: in range of the table, and
/// safe unless an error was reported.
spec fn out_ok(lw: &Lowerer, out: ir::Program) -> bool {
    &&& lw.wf()
    &&& spec_in_range(out, lw.predicates@.len())
    &&& lw.errors@.len() == 0 ==> spec_safe(out)
}

impl Lowerer {
    /// Names an argument for a message: by field where the atom was written
    /// in named form, by position otherwise.
    fn describe_arg(&self, atom: &ast::Atom, position: usize) -> (r: String)
        requires
            self.wf(),
        ensures
            r@ == match (atom.args, self.schema_of(atom.predicate.name@)) {
                (ast::Args::Named(_), Some((fields, _))) if position < fields.len() => "field `"@ + fields[position as int]
                    + "`"@,
                _ => "argument "@ + crate::text::decimal(
                    if position < u64::MAX - 1 {
                        (position + 1) as nat
                    } else {
                        u64::MAX as nat
                    },
                ),
            },
    {
        match &atom.args {
            ast::Args::Named(_) => {
                match self.find_schema(atom.predicate.name.as_str()) {
                    Some(k) => {
                        proof {
                            let j = choose|j: int| 0 <= j < self.schemas@.len() && (#[trigger] self.schemas@[j]).pred@
                                == atom.predicate.name@;
                            assert(self.schemas@[j].pred@ == self.schemas@[k as int].pred@);
                            assert(j == k);
                        }
                        if position < self.schemas[k].fields.len() {
                            let mut m = to_owned("field `");
                            push_str(&mut m, self.schemas[k].fields[position].as_str());
                            push_str(&mut m, "`");
                            proof {
                                assert(self.schemas@[k as int].fields@.map_values(|n: String| n@)[position as int]
                                    == self.schemas@[k as int].fields@[position as int]@);
                            }
                            return m;
                        }
                    },
                    None => {},
                }
            },
            ast::Args::Positional(_) => {},
        }
        let p64: u64 = position as u64;
        let shown: u64 = if p64 < 0xffff_ffff_ffff_fffe {
            p64 + 1
        } else {
            0xffff_ffff_ffff_ffff
        };
        let mut m = to_owned("argument ");
        push_str(&mut m, num(shown).as_str());
        m
    }

    /// An empty-body clause becomes a ground fact: inline arithmetic folds to
    /// its value, and a variable makes the fact non-ground, an error.
    fn lower_fact(&mut self, clause: &ast::Clause, scope: &mut VarScope, out: &mut ir::Program)
        requires
            out_ok(&*old(self), *old(out)),
            old(scope).wf(),
        ensures
            final(self).grows(&*old(self)),
            out_ok(&*final(self), *final(out)),
            final(scope).wf(),
            final(out).rules == old(out).rules,
            final(out).queries == old(out).queries,
            final(out).imports == old(out).imports,
            final(out).facts@.len() <= old(out).facts@.len() + 1,
            final(self).errors@.len() == old(self).errors@.len() ==> final(out).facts@.len()
                == old(out).facts@.len() + 1,
            facts_kept(old(out).facts@, final(out).facts@),
            clause.body@.len() == 0 && spec_ground_positional(clause.head) && named(
                old(self).predicates@,
                clause.head.predicate.name@,
            ) ==> final(self).errors@ == old(self).errors@ && final(self).predicates@ == old(self).predicates@
                && *final(scope) == *old(scope) && final(out).facts@.len() == old(out).facts@.len() + 1 && spec_fact_is(
                final(self).predicates@,
                final(out).facts@.last(),
                clause.head.predicate.name@,
                spec_atom_values(clause.head),
            ),
    {
        let ghost g = clause.body@.len() == 0 && spec_ground_positional(clause.head) && named(
            old(self).predicates@,
            clause.head.predicate.name@,
        );
        let mut discard: Vec<ir::BodyLiteral> = Vec::new();
        let ghost n0 = self.predicates@.len();
        let head = match self.lower_atom(&clause.head, scope, AtomPos::Head, ArgMode::Fold, &mut discard) {
            Some(h) => h,
            None => {
                proof {
                    lemma_in_range_mono(*out, n0, self.predicates@.len());
                }
                return;
            },
        };
        proof {
            lemma_in_range_mono(*out, n0, self.predicates@.len());
        }
        if discard.len() > 0 {
            let m = cat(
                &[
                    "an aggregate cannot appear in a fact; `",
                    clause.head.predicate.name.as_str(),
                    "` has no body to aggregate over",
                ],
            );
            self.err(m);
            return;
        }
        let mut values: Vec<ir::Value> = Vec::new();
        let mut ground = true;
        let mut k: usize = 0;
        while k < head.args.len()
            invariant
                self.grows(&*old(self)),
                out_ok(&*self, *out),
                ground ==> self.errors@.len() >= old(self).errors@.len(),
                !ground ==> self.errors@.len() > old(self).errors@.len(),
                out.rules == old(out).rules,
                out.queries == old(out).queries,
                out.imports == old(out).imports,
                out.facts == old(out).facts,
                ground ==> self.errors@.len() == old(self).errors@.len() || self.errors@.len() > old(
                    self,
                ).errors@.len(),
                (head.pred.0 as int) < self.predicates@.len(),
                k <= head.args@.len(),
                g ==> ground && self.errors@ == old(self).errors@ && self.predicates@ == old(self).predicates@
                    && spec_ground_lowered(clause.head, head, self.predicates@) && values@.len() == k && forall|j: int|
                    0 <= j < k ==> (#[trigger] values@[j])@ == spec_atom_values(clause.head)[j],
            decreases head.args.len() - k,
        {
            let ghost v0 = values@;
            match &head.args[k] {
                ir::Term::Const(v) => {
                    values.push(ir::copy_value(v));
                    proof {
                        if g {
                            assert forall|j: int| 0 <= j < k + 1 implies (#[trigger] values@[j])@ == spec_atom_values(
                                clause.head,
                            )[j] by {
                                if j < k {
                                    assert(values@[j] == v0[j]);
                                }
                            }
                        }
                    }
                },
                ir::Term::Var(var) => {
                    ground = false;
                    let name = slot_name(&scope.names, var.0);
                    let place = self.describe_arg(&clause.head, k);
                    let m = cat(
                        &[
                            "fact `",
                            clause.head.predicate.name.as_str(),
                            "` is not ground: variable `",
                            name.as_str(),
                            "` in ",
                            place.as_str(),
                        ],
                    );
                    self.err(m);
                },
            }
            k += 1;
        }
        if ground {
            out.facts.push(ir::Fact { pred: head.pred, tuple: ir::Tuple(values) });
            proof {
                assert forall|f: int| 0 <= f < out.facts@.len() implies ((#[trigger] out.facts@[f]).pred.0
                    as int) < self.predicates@.len() by {
                    if f < out.facts@.len() - 1 {
                        assert(out.facts@[f] == old(out).facts@[f]);
                    }
                }
            }
        }
    }

    fn lower_clause(&mut self, clause: &ast::Clause, out: &mut ir::Program)
        requires
            out_ok(&*old(self), *old(out)),
        ensures
            final(self).grows(&*old(self)),
            out_ok(&*final(self), *final(out)),
            final(out).queries == old(out).queries,
            final(out).imports == old(out).imports,
            final(self).errors@.len() == old(self).errors@.len() ==> if clause.body@.len() > 0 {
                final(out).rules@.len() == old(out).rules@.len() + 1 && final(out).facts@.len()
                    == old(out).facts@.len()
            } else {
                final(out).rules@.len() == old(out).rules@.len() && final(out).facts@.len()
                    == old(out).facts@.len() + 1
            },
            facts_kept(old(out).facts@, final(out).facts@),
            clause.body@.len() == 0 && spec_ground_positional(clause.head) && named(
                old(self).predicates@,
                clause.head.predicate.name@,
            ) ==> final(self).errors@ == old(self).errors@ && final(self).predicates@ == old(self).predicates@
                && final(out).rules == old(out).rules && final(out).facts@.len() == old(out).facts@.len() + 1
                && spec_fact_is(
                final(self).predicates@,
                final(out).facts@.last(),
                clause.head.predicate.name@,
                spec_atom_values(clause.head),
            ),
            final(out).rules@.len() == old(out).rules@.len() + 1 ==> spec_ends_with_reports(
                final(self).errors@,
                spec_rule_reports(final(out).rules@.last(), clause.head.predicate.name@),
            ),
            final(out).rules@.len() >= old(out).rules@.len(),
            forall|k: int| 0 <= k < old(out).rules@.len() ==> #[trigger] final(out).rules@[k] == old(out).rules@[k],
            spec_simple_rule(*clause, old(self).predicates@) ==> final(out).rules@.len() == old(out).rules@.len() + 1
                && (final(self).errors@.len() == old(self).errors@.len() ==> spec_rule_is(
                *clause,
                final(out).rules@.last(),
                final(self).predicates@,
            )),
            spec_simple_rule(*clause, old(self).predicates@) && spec_arg_count(clause.head) + spec_body_args(clause.body@)
                < 0xffff_ffff ==> spec_rule_is(*clause, final(out).rules@.last(), final(self).predicates@)
                && final(self).predicates@ == old(self).predicates@ && final(out).facts == old(out).facts && spec_appended(
                old(self).errors@,
                final(self).errors@,
                spec_rule_reports(final(out).rules@.last(), clause.head.predicate.name@),
            ),
    {
        let mut scope = VarScope::new();
        if clause.body.len() == 0 {
            self.lower_fact(clause, &mut scope, out);
            if scope.full {
                self.err(cat(&["too many variables in one clause for `", clause.head.predicate.name.as_str(), "`"]));
            }
            return;
        }
        let ghost n0 = self.predicates@.len();
        let ghost gr = spec_simple_rule(*clause, old(self).predicates@);
        let ghost p_old = self.predicates@;
        let mut head_hoisted: Vec<ir::BodyLiteral> = Vec::new();
        let head = match self.lower_atom(&clause.head, &mut scope, AtomPos::Head, ArgMode::Hoist, &mut head_hoisted) {
            Some(h) => h,
            None => {
                proof {
                    lemma_in_range_mono(*out, n0, self.predicates@.len());
                }
                return;
            },
        };
        let ghost n1 = self.predicates@.len();
        let ghost names_h = scope.names@;
        let mut body = self.lower_body(&clause.body, &mut scope);
        proof {
            lemma_lits_preds_mono(head_hoisted@, n1, self.predicates@.len());
            lemma_lits_append(body@, head_hoisted@, self.predicates@.len());
            lemma_in_range_mono(*out, n0, self.predicates@.len());
        }
        let ghost body_lowered = body@;
        body.append(&mut head_hoisted);
        if scope.full {
            self.err(cat(&["too many variables in one clause for `", clause.head.predicate.name.as_str(), "`"]));
        }
        let rule = ir::Rule { head, body, var_names: scope.names, span: clause.span };
        proof {
            if gr && spec_arg_count(clause.head) + spec_body_args(clause.body@) < 0xffff_ffff {
                assert(!scope.full);
                assert(self.errors@ == old(self).errors@);
            }
            if gr && !scope.full {
                assert(head_hoisted@.len() == 0);
                assert(rule.body@ == body_lowered);
                lemma_atom_is_extend(clause.head, rule.head, self.predicates@, self.predicates@, names_h, rule.var_names@);
                assert(spec_rule_is(*clause, rule, self.predicates@));
            }
        }
        let ghost e0 = self.errors@.len();
        self.check_rule_safety(&rule, clause.head.predicate.name.as_str());
        out.rules.push(rule);
        proof {
            assert(out.rules@.last() == rule);
            let reports = spec_rule_reports(rule, clause.head.predicate.name@);
            assert forall|x: int| 0 <= x < reports.len() implies (#[trigger] self.errors@[self.errors@.len() - reports.len()
                + x]).message@ == reports[x] by {
                assert(self.errors@.len() - reports.len() + x == e0 + x);
            }
            assert forall|i: int| 0 <= i < out.rules@.len() implies spec_rule_preds_ok(
                #[trigger] out.rules@[i],
                self.predicates@.len(),
            ) by {
                if i < out.rules@.len() - 1 {
                    assert(out.rules@[i] == old(out).rules@[i]);
                }
            }
            if self.errors@.len() == 0 {
                assert forall|i: int| 0 <= i < out.rules@.len() implies spec_rule_safe(#[trigger] out.rules@[i]) by {
                    if i < out.rules@.len() - 1 {
                        assert(out.rules@[i] == old(out).rules@[i]);
                    }
                }
            }
        }
    }

    fn lower_query(&mut self, query: &ast::Query, out: &mut ir::Program)
        requires
            out_ok(&*old(self), *old(out)),
        ensures
            final(self).grows(&*old(self)),
            out_ok(&*final(self), *final(out)),
            final(out).rules == old(out).rules,
            final(out).imports == old(out).imports,
            final(out).facts == old(out).facts,
            final(out).queries@.len() == old(out).queries@.len() + 1,
    {
        let mut scope = VarScope::new();
        let ghost n0 = self.predicates@.len();
        let body = self.lower_body(&query.body, &mut scope);
        proof {
            lemma_in_range_mono(*out, n0, self.predicates@.len());
        }
        if scope.full {
            self.err(to_owned("too many variables in one query"));
        }
        let bound = safe_bound_vars(&body);
        let mut projection: Vec<u32> = Vec::new();
        let mut slot: usize = 0;
        while slot < scope.names.len()
            invariant
                scope.wf(),
            decreases scope.names.len() - slot,
        {
            if scope.names[slot].is_some() && crate::schedule::contains_var(bound.as_slice(), ir::Var(slot as u32)) {
                projection.push(slot as u32);
            }
            slot += 1;
        }
        self.check_body_safety(&body, &scope.names, "query");
        let q = ir::Query { body, var_names: scope.names, projection, span: query.span };
        out.queries.push(q);
        proof {
            assert forall|i: int| 0 <= i < out.queries@.len() implies spec_lits_preds_ok(
                (#[trigger] out.queries@[i]).body@,
                self.predicates@.len(),
            ) by {
                if i < out.queries@.len() - 1 {
                    assert(out.queries@[i] == old(out).queries@[i]);
                }
            }
            if self.errors@.len() == 0 {
                assert forall|i: int| 0 <= i < out.queries@.len() implies spec_query_safe(#[trigger] out.queries@[i]) by {
                    if i < out.queries@.len() - 1 {
                        assert(out.queries@[i] == old(out).queries@[i]);
                    }
                }
            }
        }
    }
}

// --- Stratification ---

/// How a rule's head depends on a body predicate. A positive dependency may
/// share a stratum; a negated or aggregated one must be strictly lower.
#[derive(Debug, Clone, Copy, PartialEq, Eq, Structural)]
pub enum Dep {
    Positive,
    Negated,
    Aggregated,
}

/// How much higher a head must sit than a body predicate it depends on.
pub open spec fn spec_step(d: Dep) -> int {
    if d == Dep::Positive {
        0
    } else {
        1
    }
}

/// How an edge reads in a cycle: nothing, `not ` or `agg `.
pub open spec fn spec_dep_prefix(d: Dep) -> Seq<char> {
    match d {
        Dep::Positive => ""@,
        Dep::Negated => "not "@,
        Dep::Aggregated => "agg "@,
    }
}

/// How the edge reads in a cycle.
fn dep_prefix(d: Dep) -> (r: &'static str)
    ensures
        r@ == spec_dep_prefix(d),
{
    match d {
        Dep::Positive => "",
        Dep::Negated => "not ",
        Dep::Aggregated => "agg ",
    }
}

/// The predicates one literal depends on, each marked strict where it sits
/// under negation or inside an aggregate (it must then be computed in a lower
/// stratum).
pub open spec fn spec_lit_edges(l: ir::BodyLiteral, under_aggregate: bool) -> Seq<(ir::PredId, Dep)>
    decreases l,
{
    match l.kind {
        ir::BodyLiteralKind::Atom(a) => seq![(a.pred, if under_aggregate { Dep::Aggregated } else { Dep::Positive })],
        ir::BodyLiteralKind::NegAtom(a) => seq![(a.pred, Dep::Negated)],
        ir::BodyLiteralKind::Aggregate { goal, .. } => spec_body_edges(goal@, true),
        _ => seq![],
    }
}

/// The dependencies of a body, in body order.
pub open spec fn spec_body_edges(ls: Seq<ir::BodyLiteral>, under_aggregate: bool) -> Seq<
    (ir::PredId, Dep),
>
    decreases ls,
{
    if ls.len() == 0 {
        seq![]
    } else {
        spec_body_edges(ls.drop_last(), under_aggregate) + spec_lit_edges(ls.last(), under_aggregate)
    }
}

/// A rule's dependencies as edges from its head.
pub open spec fn spec_rule_edges(r: ir::Rule) -> Seq<(ir::PredId, ir::PredId, Dep)> {
    spec_body_edges(r.body@, false).map_values(|e: (ir::PredId, Dep)| (r.head.pred, e.0, e.1))
}

/// All rules' dependency edges, in rule order.
pub open spec fn spec_all_edges(rules: Seq<ir::Rule>) -> Seq<(ir::PredId, ir::PredId, Dep)>
    decreases rules.len(),
{
    if rules.len() == 0 {
        seq![]
    } else {
        spec_all_edges(rules.drop_last()) + spec_rule_edges(rules.last())
    }
}

proof fn lemma_map_add<A, B>(a: Seq<A>, b: Seq<A>, f: spec_fn(A) -> B)
    ensures
        (a + b).map_values(f) =~= a.map_values(f) + b.map_values(f),
{
}

fn collect_stratum_edges(
    head: ir::PredId,
    body: &Vec<ir::BodyLiteral>,
    under_aggregate: bool,
    edges: &mut Vec<(ir::PredId, ir::PredId, Dep)>,
)
    ensures
        final(edges)@ == old(edges)@ + spec_body_edges(body@, under_aggregate).map_values(
            |e: (ir::PredId, Dep)| (head, e.0, e.1),
        ),
    decreases body,
{
    let ghost f = |e: (ir::PredId, Dep)| (head, e.0, e.1);
    let ghost start = edges@;
    let mut i: usize = 0;
    while i < body.len()
        invariant
            i <= body@.len(),
            f == (|e: (ir::PredId, Dep)| (head, e.0, e.1)),
            edges@ == start + spec_body_edges(body@.take(i as int), under_aggregate).map_values(f),
        decreases body.len() - i,
    {
        let ghost before = edges@;
        match &body[i].kind {
            ir::BodyLiteralKind::Atom(a) => {
                let d = if under_aggregate {
                    Dep::Aggregated
                } else {
                    Dep::Positive
                };
                edges.push((head, a.pred, d));
            },
            ir::BodyLiteralKind::NegAtom(a) => {
                edges.push((head, a.pred, Dep::Negated));
            },
            ir::BodyLiteralKind::Aggregate { goal, .. } => {
                assert(decreases_to!(body => body@[i as int]));
                collect_stratum_edges(head, goal, true, edges);
            },
            _ => {},
        }
        proof {
            let t = body@.take(i + 1);
            assert(t.drop_last() =~= body@.take(i as int));
            assert(t.last() == body@[i as int]);
            lemma_map_add(
                spec_body_edges(body@.take(i as int), under_aggregate),
                spec_lit_edges(body@[i as int], under_aggregate),
                f,
            );
            assert(edges@ =~= before + spec_lit_edges(body@[i as int], under_aggregate).map_values(f));
            assert(edges@ =~= start + spec_body_edges(t, under_aggregate).map_values(f));
        }
        i += 1;
    }
    assert(body@.take(body@.len() as int) =~= body@);
}

proof fn lemma_lit_edges_in_range(l: ir::BodyLiteral, u: bool, n: nat)
    requires
        spec_lit_preds_ok(l, n),
    ensures
        forall|j: int|
            0 <= j < spec_lit_edges(l, u).len() ==> ((#[trigger] spec_lit_edges(l, u)[j]).0.0 as int) < n,
    decreases l,
{
    match l.kind {
        ir::BodyLiteralKind::Aggregate { goal, .. } => {
            lemma_body_edges_in_range(goal@, true, n);
            assert(spec_lit_edges(l, u) == spec_body_edges(goal@, true));
        },
        _ => {},
    }
}

proof fn lemma_body_edges_in_range(ls: Seq<ir::BodyLiteral>, u: bool, n: nat)
    requires
        spec_lits_preds_ok(ls, n),
    ensures
        forall|j: int|
            0 <= j < spec_body_edges(ls, u).len() ==> ((#[trigger] spec_body_edges(ls, u)[j]).0.0 as int) < n,
    decreases ls,
{
    if ls.len() > 0 {
        lemma_body_edges_in_range(ls.drop_last(), u, n);
        lemma_lit_edges_in_range(ls.last(), u, n);
        let a = spec_body_edges(ls.drop_last(), u);
        let b = spec_lit_edges(ls.last(), u);
        assert forall|j: int| 0 <= j < (a + b).len() implies (((a + b)[j]).0.0 as int) < n by {
            if j < a.len() {
                assert((a + b)[j] == a[j]);
            } else {
                assert((a + b)[j] == b[j - a.len()]);
            }
        }
    }
}

/// Each rule's edges are among all edges.
proof fn lemma_rule_edge_in_all(rules: Seq<ir::Rule>, r: int, j: int)
    requires
        0 <= r < rules.len(),
        0 <= j < spec_rule_edges(rules[r]).len(),
    ensures
        spec_all_edges(rules).contains(spec_rule_edges(rules[r])[j]),
    decreases rules.len(),
{
    let a = spec_all_edges(rules.drop_last());
    let b = spec_rule_edges(rules.last());
    if r < rules.len() - 1 {
        lemma_rule_edge_in_all(rules.drop_last(), r, j);
        assert(rules.drop_last()[r] == rules[r]);
        let k = choose|k: int| 0 <= k < a.len() && a[k] == spec_rule_edges(rules[r])[j];
        assert((a + b)[k] == a[k]);
    } else {
        assert((a + b)[a.len() + j] == b[j]);
    }
}

/// All edges name predicates below `n` when every rule does.
proof fn lemma_all_edges_in_range(rules: Seq<ir::Rule>, n: nat)
    requires
        forall|r: int| 0 <= r < rules.len() ==> spec_rule_preds_ok(#[trigger] rules[r], n),
    ensures
        forall|k: int|
            0 <= k < spec_all_edges(rules).len() ==> ((#[trigger] spec_all_edges(rules)[k]).0.0 as int) < n
                && (spec_all_edges(rules)[k].1.0 as int) < n,
    decreases rules.len(),
{
    if rules.len() > 0 {
        assert forall|r: int| 0 <= r < rules.drop_last().len() implies spec_rule_preds_ok(
            #[trigger] rules.drop_last()[r],
            n,
        ) by {
            assert(rules.drop_last()[r] == rules[r]);
        }
        lemma_all_edges_in_range(rules.drop_last(), n);
        let last = rules.last();
        assert(spec_rule_preds_ok(rules[rules.len() - 1], n));
        lemma_body_edges_in_range(last.body@, false, n);
        let a = spec_all_edges(rules.drop_last());
        let b = spec_rule_edges(last);
        assert forall|k: int| 0 <= k < (a + b).len() implies (((a + b)[k]).0.0 as int) < n && (((a
            + b)[k]).1.0 as int) < n by {
            if k < a.len() {
                assert((a + b)[k] == a[k]);
            } else {
                assert((a + b)[k] == b[k - a.len()]);
                assert(b[k - a.len()].1 == spec_body_edges(last.body@, false)[k - a.len()].0);
            }
        }
    }
}

fn all_edges(rules: &Vec<ir::Rule>) -> (r: Vec<(ir::PredId, ir::PredId, Dep)>)
    ensures
        r@ == spec_all_edges(rules@),
{
    let mut edges: Vec<(ir::PredId, ir::PredId, Dep)> = Vec::new();
    let mut i: usize = 0;
    while i < rules.len()
        invariant
            i <= rules@.len(),
            edges@ == spec_all_edges(rules@.take(i as int)),
        decreases rules.len() - i,
    {
        collect_stratum_edges(rules[i].head.pred, &rules[i].body, false, &mut edges);
        proof {
            let t = rules@.take(i + 1);
            assert(t.drop_last() =~= rules@.take(i as int));
            assert(t.last() == rules@[i as int]);
        }
        i += 1;
    }
    assert(rules@.take(rules@.len() as int) =~= rules@);
    edges
}

/// Stratum numbers that every edge respects: a head at least as high as a
/// body predicate, strictly higher across a strict edge.
pub open spec fn spec_fixpoint(edges: Seq<(ir::PredId, ir::PredId, Dep)>, st: Seq<u32>) -> bool {
    forall|k: int|
        0 <= k < edges.len() ==> st[(#[trigger] edges[k]).0.0 as int] >= st[edges[k].1.0 as int]
            + spec_step(edges[k].2)
}

spec fn spec_potential(st: Seq<u32>, n: nat) -> int
    decreases st.len(),
{
    if st.len() == 0 {
        0
    } else {
        spec_potential(st.drop_last(), n) + (n - st.last())
    }
}

proof fn lemma_potential_update(st: Seq<u32>, n: nat, i: int, v: u32)
    requires
        0 <= i < st.len(),
    ensures
        spec_potential(st.update(i, v), n) == spec_potential(st, n) - (v - st[i]),
    decreases st.len(),
{
    let u = st.update(i, v);
    if i < st.len() - 1 {
        assert(u.drop_last() =~= st.drop_last().update(i, v));
        lemma_potential_update(st.drop_last(), n, i, v);
    } else {
        assert(u.drop_last() =~= st.drop_last());
    }
}

proof fn lemma_potential_nonneg(st: Seq<u32>, n: nat)
    requires
        forall|i: int| 0 <= i < st.len() ==> st[i] < n,
    ensures
        spec_potential(st, n) >= 0,
    decreases st.len(),
{
    if st.len() > 0 {
        lemma_potential_nonneg(st.drop_last(), n);
    }
}

/// How many of the levels below `l` hold a rule.
pub open spec fn spec_rank(lv: Seq<int>, l: int) -> int
    decreases l,
{
    if l <= 0 {
        0
    } else {
        spec_rank(lv, l - 1) + if lv.contains(l - 1) {
            1int
        } else {
            0int
        }
    }
}

proof fn lemma_rank_mono(lv: Seq<int>, a: int, b: int)
    requires
        a <= b,
    ensures
        spec_rank(lv, a) <= spec_rank(lv, b),
    decreases b - a,
{
    if a < b {
        lemma_rank_mono(lv, a, b - 1);
    }
}

proof fn lemma_rank_strict(lv: Seq<int>, a: int, b: int)
    requires
        0 <= a < b,
        lv.contains(a),
    ensures
        spec_rank(lv, a) < spec_rank(lv, b),
{
    lemma_rank_mono(lv, a + 1, b);
}

/// Whether rule `r` is in stratum `s`.
pub open spec fn spec_in_stratum(strata: Seq<Vec<ir::RuleId>>, s: int, r: int) -> bool {
    0 <= s < strata.len() && 0 <= r <= u32::MAX && strata[s]@.contains(ir::RuleId(r as u32))
}

/// Whether rule `r` is in some stratum.
pub open spec fn spec_placed(strata: Seq<Vec<ir::RuleId>>, r: int) -> bool {
    exists|s: int| #[trigger] spec_in_stratum(strata, s, r)
}

/// A stratification of `rules`: the strata partition the rules, each stratum
/// non-empty and in source order; a rule is in a stratum no lower than that
/// of every rule defining a predicate it depends on, and strictly higher when
/// it depends on it through negation or an aggregate.
/// No rule depends on a predicate through negation or an aggregate.
pub open spec fn spec_positive_only(rules: Seq<ir::Rule>) -> bool {
    forall|k: int|
        0 <= k < spec_all_edges(rules).len() ==> (#[trigger] spec_all_edges(rules)[k]).2 == Dep::Positive
}

pub open spec fn spec_stratified(rules: Seq<ir::Rule>, strata: Seq<Vec<ir::RuleId>>) -> bool {
    &&& forall|s: int| 0 <= s < strata.len() ==> (#[trigger] strata[s])@.len() > 0
    &&& forall|s: int, k: int|
        0 <= s < strata.len() && 0 <= k < strata[s]@.len() ==> ((#[trigger] strata[s]@[k]).0 as int)
            < rules.len()
    &&& forall|s: int, k1: int, k2: int|
        0 <= s < strata.len() && 0 <= k1 < k2 < strata[s]@.len() ==> (#[trigger] strata[s]@[k1]).0
            < (#[trigger] strata[s]@[k2]).0
    &&& forall|r: int| 0 <= r < rules.len() ==> #[trigger] spec_placed(strata, r)
    &&& forall|s1: int, s2: int, r: int|
        #[trigger] spec_in_stratum(strata, s1, r) && #[trigger] spec_in_stratum(strata, s2, r) ==> s1
            == s2
    &&& forall|s1: int, s2: int, r1: int, r2: int, j: int|
        #[trigger] spec_in_stratum(strata, s1, r1) && #[trigger] spec_in_stratum(strata, s2, r2) && 0
            <= j < spec_body_edges(rules[r1].body@, false).len() && (#[trigger] spec_body_edges(
            rules[r1].body@,
            false,
        )[j]).0 == rules[r2].head.pred ==> s2 <= s1 && (spec_body_edges(rules[r1].body@, false)[j].1
            != Dep::Positive ==> s2 < s1)
}

/// The stratum level of each rule: that of its head predicate.
spec fn spec_levels(rules: Seq<ir::Rule>, st: Seq<u32>) -> Seq<int> {
    Seq::new(rules.len(), |r: int| st[rules[r].head.pred.0 as int] as int)
}

proof fn lemma_stratified(
    rules: Seq<ir::Rule>,
    st: Seq<u32>,
    strata: Seq<Vec<ir::RuleId>>,
)
    requires
        rules.len() <= u32::MAX,
        forall|k: int|
            0 <= k < spec_all_edges(rules).len() ==> ((#[trigger] spec_all_edges(rules)[k]).0.0 as int)
                < st.len() && (spec_all_edges(rules)[k].1.0 as int) < st.len(),
        forall|r: int| 0 <= r < rules.len() ==> ((#[trigger] rules[r]).head.pred.0 as int) < st.len(),
        spec_fixpoint(spec_all_edges(rules), st),
        forall|s: int| 0 <= s < strata.len() ==> (#[trigger] strata[s])@.len() > 0,
        forall|s: int, k: int|
            0 <= s < strata.len() && 0 <= k < strata[s]@.len() ==> ((#[trigger] strata[s]@[k]).0 as int)
                < rules.len() && spec_rank(
                spec_levels(rules, st),
                spec_levels(rules, st)[strata[s]@[k].0 as int],
            ) == s,
        forall|s: int, k1: int, k2: int|
            0 <= s < strata.len() && 0 <= k1 < k2 < strata[s]@.len() ==> (#[trigger] strata[s]@[k1]).0
                < (#[trigger] strata[s]@[k2]).0,
        forall|r: int|
            0 <= r < rules.len() ==> #[trigger] spec_in_stratum(
                strata,
                spec_rank(spec_levels(rules, st), spec_levels(rules, st)[r]),
                r,
            ),
    ensures
        spec_stratified(rules, strata),
{
    let lv = spec_levels(rules, st);
    assert forall|s: int, r: int| #[trigger] spec_in_stratum(strata, s, r) implies 0 <= r < rules.len()
        && s == spec_rank(lv, lv[r]) by {
        let k = choose|k: int| 0 <= k < strata[s]@.len() && strata[s]@[k] == ir::RuleId(r as u32);
        assert(strata[s]@[k].0 as int == r) by {
            assert((strata[s]@[k].0 as int) < rules.len());
        }
    }
    assert forall|r: int| 0 <= r < rules.len() implies #[trigger] spec_placed(strata, r) by {
        assert(spec_in_stratum(strata, spec_rank(lv, lv[r]), r));
    }
    assert forall|s1: int, s2: int, r1: int, r2: int, j: int|
        #[trigger] spec_in_stratum(strata, s1, r1) && #[trigger] spec_in_stratum(strata, s2, r2) && 0
            <= j < spec_body_edges(rules[r1].body@, false).len() && (#[trigger] spec_body_edges(
            rules[r1].body@,
            false,
        )[j]).0 == rules[r2].head.pred implies s2 <= s1 && (spec_body_edges(rules[r1].body@, false)[j].1
        != Dep::Positive ==> s2 < s1) by {
        let e = spec_body_edges(rules[r1].body@, false)[j];
        lemma_rule_edge_in_all(rules, r1, j);
        let t = spec_rule_edges(rules[r1])[j];
        assert(t == (rules[r1].head.pred, e.0, e.1));
        let all = spec_all_edges(rules);
        let k = choose|k: int| 0 <= k < all.len() && all[k] == t;
        assert(st[all[k].0.0 as int] >= st[all[k].1.0 as int] + spec_step(all[k].2));
        assert(lv[r1] >= lv[r2] + spec_step(e.1));
        lemma_rank_mono(lv, lv[r2], lv[r1]);
        if e.1 != Dep::Positive {
            assert(lv[r2] == lv[r2] && lv.contains(lv[r2])) by {
                assert(lv[r2] == lv[r2]);
            }
            lemma_rank_strict(lv, lv[r2], lv[r1]);
        }
    }
}

/// Numbers the predicates by relaxation over the dependency edges (a head at
/// least as high as each body predicate, strictly higher across negation or
/// an aggregate) and buckets the rules by their head's number, source order
/// kept and empty levels dropped. A number reaching the predicate count means
/// recursion through negation or an aggregate, reported with a cycle.
fn stratify(rules: &Vec<ir::Rule>, predicates: &Vec<ir::PredicateInfo>) -> (r: Result<Vec<Vec<ir::RuleId>>, Error>)
    requires
        forall|i: int| 0 <= i < rules@.len() ==> spec_rule_preds_ok(#[trigger] rules@[i], predicates@.len()),
        predicates@.len() <= u32::MAX,
        rules@.len() <= u32::MAX,
    ensures
        r matches Ok(strata) ==> spec_stratified(rules@, strata@),
        r matches Ok(strata) ==> (spec_positive_only(rules@) ==> strata@.len() <= 1),
        r matches Err(e) ==> e.kind == ErrorKind::Semantic,
        rules@.len() == 0 ==> r is Ok,
        spec_positive_only(rules@) ==> r is Ok,
{
    let n = predicates.len();
    let edges = all_edges(rules);
    proof {
        lemma_all_edges_in_range(rules@, n as nat);
    }
    let mut stratum: Vec<u32> = Vec::new();
    let mut i: usize = 0;
    while i < n
        invariant
            i <= n,
            stratum@.len() == i,
            forall|j: int| 0 <= j < i ==> stratum@[j] == 0,
        decreases n - i,
    {
        stratum.push(0);
        i += 1;
    }
    loop
        invariant
            n == predicates@.len() <= u32::MAX,
            edges@ == spec_all_edges(rules@),
            forall|k: int|
                0 <= k < edges@.len() ==> ((#[trigger] edges@[k]).0.0 as int) < n && (edges@[k].1.0 as int) < n,
            stratum@.len() == n,
            forall|j: int| 0 <= j < n ==> (#[trigger] stratum@[j]) < n,
            spec_positive_only(rules@) ==> forall|j: int| 0 <= j < n ==> (#[trigger] stratum@[j]) == 0,
        ensures
            stratum@.len() == n,
            forall|j: int| 0 <= j < n ==> (#[trigger] stratum@[j]) < n,
            spec_fixpoint(edges@, stratum@),
            spec_positive_only(rules@) ==> forall|j: int| 0 <= j < n ==> (#[trigger] stratum@[j]) == 0,
        decreases spec_potential(stratum@, n as nat),
    {
        let ghost pass_start = stratum@;
        let mut changed = false;
        let mut k: usize = 0;
        while k < edges.len()
            invariant
                k <= edges@.len(),
                n == predicates@.len() <= u32::MAX,
                edges@ == spec_all_edges(rules@),
                forall|q: int|
                    0 <= q < edges@.len() ==> ((#[trigger] edges@[q]).0.0 as int) < n && (edges@[q].1.0 as int) < n,
                stratum@.len() == n,
                forall|j: int| 0 <= j < n ==> (#[trigger] stratum@[j]) < n,
                !changed ==> stratum@ == pass_start,
                changed ==> spec_potential(stratum@, n as nat) < spec_potential(pass_start, n as nat),
                spec_positive_only(rules@) ==> forall|j: int| 0 <= j < n ==> (#[trigger] stratum@[j]) == 0,
                !changed ==> forall|q: int|
                    0 <= q < k ==> stratum@[(#[trigger] edges@[q]).0.0 as int] >= stratum@[edges@[q].1.0 as int]
                        + spec_step(edges@[q].2),
            decreases edges.len() - k,
        {
            let (head, body, dep) = edges[k];
            let add: u32 = match dep {
                Dep::Positive => 0,
                _ => 1,
            };
            proof {
                if spec_positive_only(rules@) {
                    assert(edges@[k as int].2 == Dep::Positive);
                }
            }
            let required = stratum[body.0 as usize] + add;
            if stratum[head.0 as usize] < required {
                if required as usize >= n {
                    return Err(negative_cycle_error(&edges, predicates));
                }
                let ghost before = stratum@;
                stratum.set(head.0 as usize, required);
                proof {
                    lemma_potential_update(before, n as nat, head.0 as int, required);
                }
                changed = true;
            }
            k += 1;
        }
        if !changed {
            break;
        }
        proof {
            lemma_potential_nonneg(stratum@, n as nat);
        }
    }
    let ghost lv = spec_levels(rules@, stratum@);
    assert forall|r: int| 0 <= r < rules@.len() implies ((#[trigger] rules@[r]).head.pred.0 as int) < n by {
        assert(spec_rule_preds_ok(rules@[r], n as nat));
    }
    let mut maxl: u32 = 0;
    let mut r: usize = 0;
    while r < rules.len()
        invariant
            r <= rules@.len(),
            lv == spec_levels(rules@, stratum@),
            stratum@.len() == n,
            forall|j: int| 0 <= j < n ==> (#[trigger] stratum@[j]) < n,
            forall|q: int| 0 <= q < rules@.len() ==> ((#[trigger] rules@[q]).head.pred.0 as int) < n,
            forall|q: int| 0 <= q < r ==> lv[q] <= maxl,
            maxl == 0 || maxl < n,
            spec_positive_only(rules@) ==> forall|j: int| 0 <= j < n ==> (#[trigger] stratum@[j]) == 0,
            spec_positive_only(rules@) ==> maxl == 0,
        decreases rules.len() - r,
    {
        let l = stratum[rules[r].head.pred.0 as usize];
        if l > maxl {
            maxl = l;
        }
        r += 1;
    }
    let mut out: Vec<Vec<ir::RuleId>> = Vec::new();
    let mut level: u32 = 0;
    while level <= maxl
        invariant
            lv == spec_levels(rules@, stratum@),
            stratum@.len() == n,
            n <= u32::MAX,
            rules@.len() <= u32::MAX,
            maxl == 0 || maxl < n,
            forall|q: int| 0 <= q < rules@.len() ==> ((#[trigger] rules@[q]).head.pred.0 as int) < n,
            forall|q: int| 0 <= q < rules@.len() ==> lv[q] <= maxl,
            level <= maxl + 1,
            out@.len() <= level,
            spec_positive_only(rules@) ==> maxl == 0,
            out@.len() == spec_rank(lv, level as int),
            forall|s: int| 0 <= s < out@.len() ==> (#[trigger] out@[s])@.len() > 0,
            forall|s: int, k: int|
                0 <= s < out@.len() && 0 <= k < out@[s]@.len() ==> ((#[trigger] out@[s]@[k]).0 as int)
                    < rules@.len() && spec_rank(lv, lv[out@[s]@[k].0 as int]) == s && lv[out@[s]@[k].0 as int]
                    < level,
            forall|s: int, k1: int, k2: int|
                0 <= s < out@.len() && 0 <= k1 < k2 < out@[s]@.len() ==> (#[trigger] out@[s]@[k1]).0
                    < (#[trigger] out@[s]@[k2]).0,
            forall|q: int|
                0 <= q < rules@.len() && lv[q] < level ==> #[trigger] spec_in_stratum(
                    out@,
                    spec_rank(lv, lv[q]),
                    q,
                ),
        decreases maxl + 1 - level,
    {
        let mut bucket: Vec<ir::RuleId> = Vec::new();
        let mut q: usize = 0;
        while q < rules.len()
            invariant
                q <= rules@.len() <= u32::MAX,
                lv == spec_levels(rules@, stratum@),
                stratum@.len() == n,
                forall|x: int| 0 <= x < rules@.len() ==> ((#[trigger] rules@[x]).head.pred.0 as int) < n,
                forall|k: int|
                    0 <= k < bucket@.len() ==> ((#[trigger] bucket@[k]).0 as int) < q && lv[bucket@[k].0 as int]
                        == level,
                forall|x: int| 0 <= x < q && lv[x] == level ==> bucket@.contains(ir::RuleId(x as u32)),
                forall|k1: int, k2: int|
                    0 <= k1 < k2 < bucket@.len() ==> (#[trigger] bucket@[k1]).0 < (#[trigger] bucket@[k2]).0,
            decreases rules.len() - q,
        {
            if stratum[rules[q].head.pred.0 as usize] == level {
                let ghost before = bucket@;
                bucket.push(ir::RuleId(q as u32));
                proof {
                    assert forall|x: int| 0 <= x < q + 1 && lv[x] == level implies bucket@.contains(
                        ir::RuleId(x as u32),
                    ) by {
                        if x < q {
                            let w = choose|w: int| 0 <= w < before.len() && before[w] == ir::RuleId(x as u32);
                            assert(bucket@[w] == before[w]);
                        } else {
                            assert(bucket@[before.len() as int] == ir::RuleId(x as u32));
                        }
                    }
                }
            }
            q += 1;
        }
        let ghost old_out = out@;
        if bucket.len() > 0 {
            proof {
                let x = bucket@[0].0 as int;
                assert(lv[x] == level);
                assert(lv.contains(level as int));
            }
            out.push(bucket);
        } else {
            proof {
                if lv.contains(level as int) {
                    let x = choose|x: int| 0 <= x < lv.len() && lv[x] == level as int;
                    assert(bucket@.contains(ir::RuleId(x as u32)));
                }
            }
        }
        proof {
            assert(spec_rank(lv, level as int + 1) == spec_rank(lv, level as int) + if lv.contains(level as int) {
                1int
            } else {
                0int
            });
            assert forall|x: int|
                0 <= x < rules@.len() && lv[x] < level + 1 implies #[trigger] spec_in_stratum(
                out@,
                spec_rank(lv, lv[x]),
                x,
            ) by {
                if lv[x] < level {
                    assert(spec_in_stratum(old_out, spec_rank(lv, lv[x]), x));
                    assert(out@[spec_rank(lv, lv[x])] == old_out[spec_rank(lv, lv[x])]);
                } else {
                    assert(lv[x] == level);
                }
            }
        }
        level += 1;
    }
    proof {
        assert forall|x: int| 0 <= x < rules@.len() implies #[trigger] spec_in_stratum(
            out@,
            spec_rank(spec_levels(rules@, stratum@), spec_levels(rules@, stratum@)[x]),
            x,
        ) by {
            assert(lv[x] < level);
        }
        lemma_stratified(rules@, stratum@, out@);
    }
    Ok(out)
}

spec fn spec_count_true(v: Seq<bool>) -> nat
    decreases v.len(),
{
    if v.len() == 0 {
        0
    } else {
        spec_count_true(v.drop_last()) + if v.last() {
            1nat
        } else {
            0nat
        }
    }
}

proof fn lemma_count_true_update(v: Seq<bool>, i: int)
    requires
        0 <= i < v.len(),
        !v[i],
    ensures
        spec_count_true(v.update(i, true)) == spec_count_true(v) + 1,
    decreases v.len(),
{
    let u = v.update(i, true);
    if i < v.len() - 1 {
        assert(u.drop_last() =~= v.drop_last().update(i, true));
        lemma_count_true_update(v.drop_last(), i);
    } else {
        assert(u.drop_last() =~= v.drop_last());
    }
}

proof fn lemma_count_true_none(v: Seq<bool>)
    requires
        forall|i: int| 0 <= i < v.len() ==> !v[i],
    ensures
        spec_count_true(v) == 0,
    decreases v.len(),
{
    if v.len() > 0 {
        lemma_count_true_none(v.drop_last());
    }
}

proof fn lemma_count_true_le(v: Seq<bool>)
    ensures
        spec_count_true(v) <= v.len(),
    decreases v.len(),
{
    if v.len() > 0 {
        lemma_count_true_le(v.drop_last());
    }
}

/// Each visited predicate other than the start was reached from a visited
/// predicate reached before it.
spec fn spec_parents_ok(
    parent: Seq<Option<(ir::PredId, Dep)>>,
    pos: Seq<usize>,
    visited: Seq<bool>,
    start: ir::PredId,
) -> bool {
    forall|v: int|
        0 <= v < visited.len() && #[trigger] visited[v] && v != start.0 ==> (parent[v] matches Some(
            (p, _),
        ) && (p.0 as int) < visited.len() && visited[p.0 as int] && pos[p.0 as int] < pos[v])
}

/// `path` follows parent links forward from `start`: each step's parent is
/// the step before it (or `start`), reached by the step's edge.
spec fn spec_parent_path(parent: Seq<Option<(ir::PredId, Dep)>>, start: ir::PredId, path: Seq<(ir::PredId, Dep)>) -> bool {
    forall|k: int|
        0 <= k < path.len() ==> ((#[trigger] path[k]).0.0 as int) < parent.len() && parent[path[k].0.0 as int]
            == Some((if k == 0 { start } else { path[k - 1].0 }, path[k].1))
}

/// `path` is a walk along the dependency edges `deps` from `start` to
/// `target`: each step an edge out of the one before it (or `start`), the last
/// ending at `target`; empty exactly when `start` is `target`.
pub open spec fn spec_dep_path(
    deps: Seq<Vec<(ir::PredId, Dep)>>,
    start: ir::PredId,
    path: Seq<(ir::PredId, Dep)>,
    target: ir::PredId,
) -> bool {
    &&& path.len() == 0 ==> start == target
    &&& path.len() > 0 ==> path.last().0 == target
    &&& forall|k: int|
        0 <= k < path.len() ==> {
            let from = if k == 0 {
                start
            } else {
                path[k - 1].0
            };
            &&& (from.0 as int) < deps.len()
            &&& deps[from.0 as int]@.contains(#[trigger] path[k])
        }
}

/// Every parent link is a dependency edge.
spec fn spec_parents_edges(parent: Seq<Option<(ir::PredId, Dep)>>, deps: Seq<Vec<(ir::PredId, Dep)>>) -> bool {
    forall|v: int|
        0 <= v < parent.len() ==> (#[trigger] parent[v] matches Some((p, d)) ==> (p.0 as int) < deps.len()
            && deps[p.0 as int]@.contains((ir::PredId(v as u32), d)))
}

/// Follows parent links from `target` back to `start`: the predicates after
/// `start`, each with the edge that reached it.
fn walk_back(
    parent: &Vec<Option<(ir::PredId, Dep)>>,
    pos: &Vec<usize>,
    visited: &Vec<bool>,
    start: ir::PredId,
    target: ir::PredId,
) -> (r: Option<Vec<(ir::PredId, Dep)>>)
    requires
        parent@.len() == visited@.len(),
        pos@.len() == visited@.len(),
        (target.0 as int) < visited@.len(),
        visited@[target.0 as int],
        spec_parents_ok(parent@, pos@, visited@, start),
    ensures
        r matches Some(path) && spec_parent_path(parent@, start, path@) && (path@.len() == 0 ==> start == target)
            && (path@.len() > 0 ==> path@.last().0 == target),
{
    let mut steps: Vec<(ir::PredId, Dep)> = Vec::new();
    let mut at = target;
    while at != start
        invariant
            parent@.len() == visited@.len(),
            pos@.len() == visited@.len(),
            (at.0 as int) < visited@.len(),
            visited@[at.0 as int],
            spec_parents_ok(parent@, pos@, visited@, start),
            steps@.len() == 0 ==> at == target,
            steps@.len() > 0 ==> steps@[0].0 == target,
            forall|i: int|
                0 <= i < steps@.len() ==> ((#[trigger] steps@[i]).0.0 as int) < parent@.len() && parent@[steps@[i].0.0 as int]
                    == Some((if i + 1 < steps@.len() { steps@[i + 1].0 } else { at }, steps@[i].1)),
        decreases pos@[at.0 as int],
    {
        match parent[at.0 as usize] {
            Some((prev, dep)) => {
                let ghost s0 = steps@;
                steps.push((at, dep));
                proof {
                    assert forall|i: int| 0 <= i < steps@.len() implies ((#[trigger] steps@[i]).0.0 as int) < parent@.len()
                        && parent@[steps@[i].0.0 as int] == Some(
                        (if i + 1 < steps@.len() { steps@[i + 1].0 } else { prev }, steps@[i].1),
                    ) by {
                        if i + 1 < s0.len() {
                            assert(steps@[i] == s0[i] && steps@[i + 1] == s0[i + 1]);
                        } else if i + 1 == s0.len() {
                            assert(steps@[i] == s0[i]);
                        }
                    }
                }
                at = prev;
            },
            None => {
                assert(at.0 != start.0);
                return None;
            },
        }
    }
    let mut out: Vec<(ir::PredId, Dep)> = Vec::new();
    let mut k: usize = steps.len();
    let ghost len = steps@.len() as int;
    while k > 0
        invariant
            k <= steps@.len(),
            len == steps@.len(),
            out@.len() == len - k,
            forall|i: int| 0 <= i < out@.len() ==> #[trigger] out@[i] == steps@[len - 1 - i],
        decreases k,
    {
        k -= 1;
        out.push(steps[k]);
    }
    proof {
        assert forall|i: int| 0 <= i < out@.len() implies ((#[trigger] out@[i]).0.0 as int) < parent@.len()
            && parent@[out@[i].0.0 as int] == Some((if i == 0 { start } else { out@[i - 1].0 }, out@[i].1)) by {
            assert(out@[i] == steps@[len - 1 - i]);
            if i > 0 {
                assert(out@[i - 1] == steps@[len - i]);
            }
        }
        if len > 0 {
            assert(out@.last() == steps@[0]);
        }
    }
    Some(out)
}

/// A path of dependency edges from `start` to `target`, found breadth-first:
/// the predicates after `start`, each with the edge into it; empty when
/// `start` is `target`.
#[verifier::rlimit(40)]
fn dependency_path(deps: &Vec<Vec<(ir::PredId, Dep)>>, start: ir::PredId, target: ir::PredId) -> (r:
    Option<Vec<(ir::PredId, Dep)>>)
    requires
        (start.0 as int) < deps@.len(),
        (target.0 as int) < deps@.len(),
        forall|a: int, b: int|
            0 <= a < deps@.len() && 0 <= b < deps@[a]@.len() ==> ((#[trigger] deps@[a]@[b]).0.0 as int)
                < deps@.len(),
    ensures
        start == target ==> (r matches Some(path) && path@.len() == 0),
        r matches Some(path) ==> spec_dep_path(deps@, start, path@, target),
{
    if start == target {
        return Some(Vec::new());
    }
    let n = deps.len();
    let mut parent: Vec<Option<(ir::PredId, Dep)>> = Vec::new();
    let mut visited: Vec<bool> = Vec::new();
    let mut pos: Vec<usize> = Vec::new();
    let mut i: usize = 0;
    while i < n
        invariant
            i <= n,
            parent@.len() == i,
            visited@.len() == i,
            pos@.len() == i,
            forall|v: int| 0 <= v < i ==> !(#[trigger] visited@[v]),
            forall|v: int| 0 <= v < i ==> (#[trigger] pos@[v]) == 0,
            forall|v: int| 0 <= v < i ==> (#[trigger] parent@[v]) is None,
        decreases n - i,
    {
        parent.push(None);
        visited.push(false);
        pos.push(0);
        i += 1;
    }
    proof {
        lemma_count_true_none(visited@);
        lemma_count_true_update(visited@, start.0 as int);
    }
    let ghost unvisited = visited@;
    visited.set(start.0 as usize, true);
    proof {
        assert forall|v: int| 0 <= v < n && #[trigger] visited@[v] implies v == start.0 by {
            if v != start.0 {
                assert(!unvisited[v]);
            }
        }
    }
    let mut queue: Vec<ir::PredId> = Vec::new();
    queue.push(start);
    let mut qi: usize = 0;
    while qi < queue.len()
        invariant
            n == deps@.len(),
            parent@.len() == n,
            visited@.len() == n,
            pos@.len() == n,
            (start.0 as int) < n,
            (target.0 as int) < n,
            forall|a: int, b: int|
                0 <= a < deps@.len() && 0 <= b < deps@[a]@.len() ==> ((#[trigger] deps@[a]@[b]).0.0 as int)
                    < deps@.len(),
            visited@[start.0 as int],
            forall|v: int| 0 <= v < n && #[trigger] visited@[v] ==> pos@[v] < queue@.len(),
            spec_parents_ok(parent@, pos@, visited@, start),
            spec_parents_edges(parent@, deps@),
            start != target,
            forall|k: int|
                0 <= k < queue@.len() ==> ((#[trigger] queue@[k]).0 as int) < n && visited@[queue@[k].0 as int],
            queue@.len() == spec_count_true(visited@),
            qi <= queue@.len(),
        decreases 2 * n - qi - queue@.len(),
    {
        proof {
            lemma_count_true_le(visited@);
        }
        let pred = queue[qi];
        qi += 1;
        let ghost q0 = queue@.len();
        let adj = &deps[pred.0 as usize];
        let mut j: usize = 0;
        while j < adj.len()
            invariant
                n == deps@.len(),
                adj@ == deps@[pred.0 as int]@,
                (pred.0 as int) < n,
                visited@[pred.0 as int],
                parent@.len() == n,
                visited@.len() == n,
                pos@.len() == n,
                (start.0 as int) < n,
                (target.0 as int) < n,
                forall|a: int, b: int|
                    0 <= a < deps@.len() && 0 <= b < deps@[a]@.len() ==> ((#[trigger] deps@[a]@[b]).0.0 as int)
                        < deps@.len(),
                visited@[start.0 as int],
                forall|v: int| 0 <= v < n && #[trigger] visited@[v] ==> pos@[v] < queue@.len(),
                spec_parents_ok(parent@, pos@, visited@, start),
                spec_parents_edges(parent@, deps@),
                start != target,
                forall|k: int|
                    0 <= k < queue@.len() ==> ((#[trigger] queue@[k]).0 as int) < n && visited@[queue@[k].0 as int],
                queue@.len() == spec_count_true(visited@),
                qi <= queue@.len(),
                q0 <= queue@.len(),
            decreases adj.len() - j,
        {
            let (next, dep) = adj[j];
            assert(((deps@[pred.0 as int]@[j as int]).0.0 as int) < n);
            let x = next.0 as usize;
            if !visited[x] {
                let at = queue.len();
                let ghost vb = visited@;
                proof {
                    lemma_count_true_update(vb, x as int);
                }
                visited.set(x, true);
                pos.set(x, at);
                let ghost pb = parent@;
                parent.set(x, Some((pred, dep)));
                queue.push(next);
                proof {
                    assert(adj@[j as int] == (next, dep));
                    assert(next == ir::PredId(x as u32));
                    assert forall|v: int| 0 <= v < parent@.len() implies (#[trigger] parent@[v] matches Some((p, d))
                        ==> (p.0 as int) < deps@.len() && deps@[p.0 as int]@.contains((ir::PredId(v as u32), d))) by {
                        if v == x {
                            assert(deps@[pred.0 as int]@[j as int] == (ir::PredId(v as u32), dep));
                        } else {
                            assert(parent@[v] == pb[v]);
                        }
                    }
                    assert forall|v: int| 0 <= v < n && #[trigger] visited@[v] implies pos@[v] < queue@.len() by {
                        if v != x {
                            assert(vb[v]);
                        }
                    }
                    assert forall|v: int|
                        0 <= v < visited@.len() && #[trigger] visited@[v] && v != start.0 implies (parent@[v] matches Some(
                            (p, _),
                        ) && (p.0 as int) < visited@.len() && visited@[p.0 as int] && pos@[p.0 as int] < pos@[v]) by {
                        if v != x {
                            assert(vb[v]);
                        }
                    }
                    assert forall|k: int|
                        0 <= k < queue@.len() implies ((#[trigger] queue@[k]).0 as int) < n && visited@[queue@[k].0 as int] by {
                        if k < queue@.len() - 1 {
                            assert(vb[queue@[k].0 as int]);
                        }
                    }
                }
                if next == target {
                    let path = walk_back(&parent, &pos, &visited, start, target);
                    proof {
                        let p = path->0@;
                        assert forall|k: int| 0 <= k < p.len() implies {
                            let from = if k == 0 {
                                start
                            } else {
                                p[k - 1].0
                            };
                            &&& (from.0 as int) < deps@.len()
                            &&& deps@[from.0 as int]@.contains(#[trigger] p[k])
                        } by {
                            let v = p[k].0.0 as int;
                            assert(parent@[v] matches Some(_));
                            assert(ir::PredId(v as u32) == p[k].0);
                        }
                    }
                    return path;
                }
            }
            j += 1;
        }
        proof {
            lemma_count_true_le(visited@);
        }
    }
    None
}

/// The error for a program that recursion through negation or an aggregate
/// makes unstratifiable, naming a cycle through a strict edge:
/// `p -> not q -> p`.
fn negative_cycle_error(edges: &Vec<(ir::PredId, ir::PredId, Dep)>, predicates: &Vec<ir::PredicateInfo>) -> (r: Error)
    requires
        forall|k: int|
            0 <= k < edges@.len() ==> ((#[trigger] edges@[k]).0.0 as int) < predicates@.len() && (edges@[k].1.0
                as int) < predicates@.len(),
    ensures
        r.kind == ErrorKind::Semantic,
{
    let n = predicates.len();
    let mut deps: Vec<Vec<(ir::PredId, Dep)>> = Vec::new();
    let mut i: usize = 0;
    while i < n
        invariant
            i <= n,
            deps@.len() == i,
            forall|a: int| 0 <= a < i ==> (#[trigger] deps@[a])@.len() == 0,
        decreases n - i,
    {
        deps.push(Vec::new());
        i += 1;
    }
    let mut k: usize = 0;
    while k < edges.len()
        invariant
            n == predicates@.len(),
            deps@.len() == n,
            forall|q: int|
                0 <= q < edges@.len() ==> ((#[trigger] edges@[q]).0.0 as int) < n && (edges@[q].1.0 as int) < n,
            forall|a: int, b: int|
                0 <= a < deps@.len() && 0 <= b < deps@[a]@.len() ==> ((#[trigger] deps@[a]@[b]).0.0 as int) < n,
        decreases edges.len() - k,
    {
        let (head, body, dep) = edges[k];
        let h = head.0 as usize;
        let mut list = Vec::new();
        std::mem::swap(&mut list, &mut deps[h]);
        let ghost before = deps@;
        list.push((body, dep));
        deps.set(h, list);
        proof {
            assert forall|a: int, b: int|
                0 <= a < deps@.len() && 0 <= b < deps@[a]@.len() implies ((#[trigger] deps@[a]@[b]).0.0 as int) < n by {
                if a != h {
                    assert(deps@[a] == before[a]);
                }
            }
        }
        k += 1;
    }
    let mut k: usize = 0;
    while k < edges.len()
        invariant
            n == predicates@.len(),
            deps@.len() == n,
            forall|q: int|
                0 <= q < edges@.len() ==> ((#[trigger] edges@[q]).0.0 as int) < n && (edges@[q].1.0 as int) < n,
            forall|a: int, b: int|
                0 <= a < deps@.len() && 0 <= b < deps@[a]@.len() ==> ((#[trigger] deps@[a]@[b]).0.0 as int) < n,
        decreases edges.len() - k,
    {
        let (head, body, dep) = edges[k];
        if dep != Dep::Positive {
            match dependency_path(&deps, body, head) {
                Some(steps) => {
                    let mut text = to_owned(
                        "program is not stratifiable: recursion through negation or aggregation: ",
                    );
                    push_str(&mut text, predicates[head.0 as usize].name.as_str());
                    push_str(&mut text, " -> ");
                    push_str(&mut text, dep_prefix(dep));
                    push_str(&mut text, predicates[body.0 as usize].name.as_str());
                    let mut j: usize = 0;
                    while j < steps.len()
                        invariant
                            n == predicates@.len(),
                        decreases steps.len() - j,
                    {
                        let (p, d) = steps[j];
                        push_str(&mut text, " -> ");
                        push_str(&mut text, dep_prefix(d));
                        if (p.0 as usize) < n {
                            push_str(&mut text, predicates[p.0 as usize].name.as_str());
                        }
                        j += 1;
                    }
                    return Error::semantic(text);
                },
                None => {},
            }
        }
        k += 1;
    }
    Error::semantic(to_owned("program is not stratifiable: recursion through negation or aggregation"))
}
// --- The entry points ---

impl Lowerer {
    /// Empty tables.
    pub fn new() -> (r: Lowerer)
        ensures
            r.wf(),
            r.preds().len() == 0,
            r.error_count() == 0,
    {
        Lowerer { predicates: Vec::new(), schemas: Vec::new(), errors: Vec::new() }
    }

    fn collect_atom(&mut self, atom: &ast::Atom)
        requires
            old(self).wf(),
        ensures
            final(self).grows(&*old(self)),
            keeps(old(self).predicates@, final(self).predicates@),
            final(self).schemas == old(self).schemas,
            atom.args is Named ==> *final(self) == *old(self),
            atom.args matches ast::Args::Positional(terms) ==> (final(self).errors@.len() == old(self).errors@.len()
                ==> interned(final(self).predicates@, atom.predicate.name@, terms@.len() as u32)),
            atom.args matches ast::Args::Positional(terms) ==> {
                &&& final(self).predicates@.len() <= old(self).predicates@.len() + 1
                &&& final(self).predicates@.len() == old(self).predicates@.len() + 1 ==> final(self).predicates@.last().name@
                    == atom.predicate.name@ && final(self).predicates@.last().arity == terms@.len() as u32
                &&& interned(old(self).predicates@, atom.predicate.name@, terms@.len() as u32) || (!named(
                    old(self).predicates@,
                    atom.predicate.name@,
                ) && old(self).predicates@.len() < 0xffff_ffff) ==> final(self).errors@ == old(self).errors@
            },
    {
        match &atom.args {
            ast::Args::Positional(terms) => {
                self.intern_checked(atom.predicate.name.as_str(), terms.len() as u32);
            },
            ast::Args::Named(_) => {},
        }
    }

    fn collect_literals(&mut self, body: &Vec<ast::Literal>)
        requires
            old(self).wf(),
        ensures
            final(self).grows(&*old(self)),
            keeps(old(self).predicates@, final(self).predicates@),
            final(self).schemas == old(self).schemas,
            final(self).errors@.len() == old(self).errors@.len() ==> forall|k: int|
                0 <= k < body@.len() ==> atom_collected(final(self).predicates@, #[trigger] body@[k]),
            body@.len() == 0 ==> *final(self) == *old(self),
            spec_body_consistent(old(self).predicates@, body@) ==> final(self).errors@ == old(self).errors@,
            final(self).predicates@.len() <= old(self).predicates@.len() + body@.len(),
            forall|q: int|
                old(self).predicates@.len() <= q < final(self).predicates@.len() ==> exists|j: int|
                    0 <= j < body@.len() && (#[trigger] spec_lit_atom(body@[j])) is Some && (
                    #[trigger] final(self).predicates@[q]).name@ == spec_lit_atom(body@[j])->0.predicate.name@
                        && final(self).predicates@[q].arity == spec_arg_count(spec_lit_atom(body@[j])->0) as u32,
    {
        let ghost gc = spec_body_consistent(old(self).predicates@, body@);
        let mut i: usize = 0;
        while i < body.len()
            invariant
                i <= body@.len(),
                body@.len() == 0 ==> *self == *old(self),
                gc == spec_body_consistent(old(self).predicates@, body@),
                gc ==> self.errors@ == old(self).errors@,
                self.predicates@.len() <= old(self).predicates@.len() + i,
                forall|q: int|
                    old(self).predicates@.len() <= q < self.predicates@.len() ==> exists|j: int|
                        0 <= j < i && (#[trigger] spec_lit_atom(body@[j])) is Some && (#[trigger] self.predicates@[q]).name@
                            == spec_lit_atom(body@[j])->0.predicate.name@ && self.predicates@[q].arity
                            == spec_arg_count(spec_lit_atom(body@[j])->0) as u32,
                self.grows(&*old(self)),
                keeps(old(self).predicates@, self.predicates@),
                self.schemas == old(self).schemas,
                self.errors@.len() == old(self).errors@.len() ==> forall|k: int|
                    0 <= k < i ==> atom_collected(self.predicates@, #[trigger] body@[k]),
            decreases body.len() - i,
        {
            let ghost p0 = self.predicates@;
            let ghost e0 = self.errors@.len();
            proof {
                if gc {
                    if let Some(atom) = spec_lit_atom(body@[i as int]) {
                        let name = atom.predicate.name@;
                        let n = spec_arg_count(atom);
                        if named(self.predicates@, name) {
                            let q = choose|q: int| 0 <= q < self.predicates@.len() && (#[trigger] self.predicates@[q]).name@ == name;
                            if q < old(self).predicates@.len() {
                                assert(self.predicates@[q] == old(self).predicates@[q]);
                                assert(old(self).predicates@[q].arity as int == n);
                            } else {
                                let j = choose|j: int|
                                    0 <= j < i && (#[trigger] spec_lit_atom(body@[j])) is Some && (#[trigger] self.predicates@[q]).name@
                                        == spec_lit_atom(body@[j])->0.predicate.name@ && self.predicates@[q].arity
                                        == spec_arg_count(spec_lit_atom(body@[j])->0) as u32;
                                assert(spec_arg_count(spec_lit_atom(body@[j])->0) == n);
                            }
                            assert(interned(self.predicates@, name, n as u32));
                        }
                    }
                }
            }
            match &body[i].kind {
                ast::LiteralKind::Atom { atom, .. } => self.collect_atom(atom),
                _ => {},
            }
            proof {
                assert forall|q: int|
                    old(self).predicates@.len() <= q < self.predicates@.len() implies exists|j: int|
                        0 <= j < i + 1 && (#[trigger] spec_lit_atom(body@[j])) is Some && (#[trigger] self.predicates@[q]).name@
                            == spec_lit_atom(body@[j])->0.predicate.name@ && self.predicates@[q].arity
                            == spec_arg_count(spec_lit_atom(body@[j])->0) as u32 by {
                    if q < p0.len() {
                        assert(self.predicates@[q] == p0[q]);
                        let j = choose|j: int|
                            0 <= j < i && (#[trigger] spec_lit_atom(body@[j])) is Some && (#[trigger] p0[q]).name@
                                == spec_lit_atom(body@[j])->0.predicate.name@ && p0[q].arity
                                == spec_arg_count(spec_lit_atom(body@[j])->0) as u32;
                        assert(0 <= j < i + 1);
                    } else {
                        if let ast::LiteralKind::Atom { atom, .. } = body@[i as int].kind {
                            if let ast::Args::Positional(terms) = atom.args {
                                assert(spec_lit_atom(body@[i as int]) == Some(atom));
                                assert(self.predicates@[q].name@ == atom.predicate.name@);
                                assert(self.predicates@[q].arity == terms@.len() as u32);
                            }
                        }
                        assert(spec_lit_atom(body@[i as int]) is Some);
                        assert(0 <= i < i + 1);
                    }
                }
            }
            proof {
                if self.errors@.len() == old(self).errors@.len() {
                    assert forall|k: int| 0 <= k < i + 1 implies atom_collected(self.predicates@, #[trigger] body@[k]) by {
                        if k < i {
                            lemma_keeps_collected(p0, self.predicates@, body@[k]);
                        }
                    }
                }
            }
            i += 1;
        }
    }

    /// Pass one: interns every predicate in first-appearance order, checks
    /// arities across declarations, imports and use sites, and records the
    /// field schemas. A schema-less data import takes its arity and field
    /// names from its loaded table, `tables` being aligned with the data
    /// imports in source order.
    pub fn collect_predicates(&mut self, program: &ast::Program, tables: &[crate::sources::LoadedTable])
        requires
            old(self).wf(),
        ensures
            final(self).grows(&*old(self)),
            keeps(old(self).preds(), final(self).preds()),
            final(self).error_count() == old(self).error_count() ==> forall|k: int|
                0 <= k < program.statements@.len() ==> statement_collected(
                    final(self).preds(),
                    #[trigger] program.statements@[k],
                ),
            old(self).preds().len() == 0 && spec_fact_program(*program) ==> final(self).error_count()
                == old(self).error_count(),
            old(self).preds().len() == 0 && spec_plain_statements(*program) ==> final(self).error_count()
                == old(self).error_count(),
            final(self).error_count() == old(self).error_count() ==> forall|k: int|
                0 <= k < tables@.len() && 0 <= k < spec_data_imports(program.statements@).len() && (
                #[trigger] spec_schemaless_imports(program.statements@)[k]) ==> interned(
                    final(self).preds(),
                    spec_data_imports(program.statements@)[k].1,
                    tables@[k].fields@.len() as u32,
                ),
    {
        let ghost fp = old(self).predicates@.len() == 0 && spec_fact_program(*program);
        let ghost gp = old(self).predicates@.len() == 0 && spec_plain_statements(*program);
        proof {
            if gp {
                assert(program.statements@.take(0) =~= Seq::<ast::Statement>::empty());
            }
        }
        let mut data_import: usize = 0;
        let mut i: usize = 0;
        while i < program.statements.len()
            invariant
                i <= program.statements@.len(),
                self.grows(&*old(self)),
                keeps(old(self).predicates@, self.predicates@),
                fp == (old(self).predicates@.len() == 0 && spec_fact_program(*program)),
                gp == (old(self).predicates@.len() == 0 && spec_plain_statements(*program)),
                gp ==> self.errors@ == old(self).errors@ && spec_plain_table(program.statements@, i as int, self.predicates@),
                fp ==> self.errors@ == old(self).errors@ && self.predicates@.len() <= i && forall|q: int|
                    0 <= q < self.predicates@.len() ==> exists|k: int|
                        0 <= k < i && (#[trigger] self.predicates@[q]).name@ == spec_fact_of(program.statements@[k]).0
                            && self.predicates@[q].arity == spec_fact_of(program.statements@[k]).1.len() as u32,
                self.errors@.len() == old(self).errors@.len() ==> forall|k: int|
                    0 <= k < i ==> statement_collected(self.predicates@, #[trigger] program.statements@[k]),
                data_import <= i,
                data_import == spec_data_imports(program.statements@.take(i as int)).len(),
                self.errors@.len() == old(self).errors@.len() ==> forall|k: int|
                    0 <= k < tables@.len() && 0 <= k < spec_data_imports(program.statements@.take(i as int)).len() && (
                    #[trigger] spec_schemaless_imports(program.statements@.take(i as int))[k]) ==> interned(
                        self.predicates@,
                        spec_data_imports(program.statements@.take(i as int))[k].1,
                        tables@[k].fields@.len() as u32,
                    ),
            decreases program.statements.len() - i,
        {
            let ghost p0 = self.predicates@;
            let ghost di0 = data_import as int;
            let ghost e0 = self.errors@.len();
            match &program.statements[i].kind {
                ast::StatementKind::Import(import) => {
                    match &import.kind {
                        ast::ImportKind::Data { relation, schema, .. } => {
                            match schema {
                                Some(fields) => {
                                    self.intern_checked(relation.name.as_str(), fields.len() as u32);
                                    self.collect_schema(relation.name.as_str(), fields, SchemaOrigin::Import);
                                },
                                None => {
                                    if data_import < tables.len() {
                                        let table = &tables[data_import];
                                        self.intern_checked(relation.name.as_str(), table.fields.len() as u32);
                                        self.collect_schema_from_header(relation.name.as_str(), &table.fields);
                                        assert(self.errors@.len() == e0 ==> interned(
                                            self.predicates@,
                                            relation.name@,
                                            tables@[di0].fields@.len() as u32,
                                        ));
                                    }
                                },
                            }
                            if data_import < usize::MAX {
                                data_import += 1;
                            }
                        },
                        _ => {},
                    }
                },
                ast::StatementKind::Declare(d) => {
                    self.intern_checked(d.relation.name.as_str(), d.fields.len() as u32);
                    self.collect_schema(d.relation.name.as_str(), &d.fields, SchemaOrigin::Declare);
                },
                ast::StatementKind::Clause(c) => {
                    proof {
                        if fp {
                            lemma_fact_program_intern(*program, i as int, self.predicates@);
                        }
                        if gp {
                            lemma_plain_head(*program, i as int, self.predicates@);
                        }
                    }
                    let ghost ph = self.predicates@;
                    self.collect_atom(&c.head);
                    let ghost p1 = self.predicates@;
                    proof {
                        if gp {
                            let ss = program.statements@;
                            let n = spec_arg_count(c.head);
                            assert(spec_uses(ss, i as int, c.head.predicate.name@, n));
                            assert forall|q: int| 0 <= q < p1.len() implies exists|k: int|
                                0 <= k < i + 1 && spec_uses(ss, k, (#[trigger] p1[q]).name@, p1[q].arity as int) by {
                                if q < ph.len() {
                                    assert(p1[q] == ph[q]);
                                    let k = choose|k: int| 0 <= k < i && spec_uses(ss, k, ph[q].name@, ph[q].arity as int);
                                    assert(0 <= k < i + 1);
                                } else {
                                    assert(p1[q].arity as int == n);
                                    assert(0 <= i < i + 1);
                                }
                            }
                            lemma_plain_body(*program, i as int, p1);
                        }
                    }
                    self.collect_literals(&c.body);
                    proof {
                        if gp {
                            let ss = program.statements@;
                            assert(ss.take(i + 1).drop_last() =~= ss.take(i as int));
                            assert forall|q: int| 0 <= q < self.predicates@.len() implies exists|k: int|
                                0 <= k < i + 1 && spec_uses(ss, k, (#[trigger] self.predicates@[q]).name@, self.predicates@[q].arity as int) by {
                                if q < p1.len() {
                                    assert(self.predicates@[q] == p1[q]);
                                } else {
                                    let j = choose|j: int|
                                        0 <= j < c.body@.len() && (#[trigger] spec_lit_atom(c.body@[j])) is Some && (
                                        #[trigger] self.predicates@[q]).name@ == spec_lit_atom(c.body@[j])->0.predicate.name@
                                            && self.predicates@[q].arity == spec_arg_count(spec_lit_atom(c.body@[j])->0) as u32;
                                    assert(spec_uses(ss, i as int, self.predicates@[q].name@, spec_arg_count(spec_lit_atom(c.body@[j])->0)));
                                    assert(0 <= i < i + 1);
                                }
                            }
                        }
                    }
                    proof {
                        if let ast::Args::Positional(terms) = &c.head.args {
                            if self.errors@.len() == old(self).errors@.len() {
                                lemma_keeps_interned(p1, self.predicates@, c.head.predicate.name@, terms@.len() as u32);
                            }
                        }
                    }
                },
                ast::StatementKind::Query(q) => {
                    self.collect_literals(&q.body);
                },
            }
            proof {
                lemma_keeps_trans(old(self).predicates@, p0, self.predicates@);
                let ss = program.statements@;
                assert(ss.take(i + 1).drop_last() =~= ss.take(i as int));
                assert(ss.take(i + 1).last() == ss[i as int]);
                lemma_schemaless_len(ss.take(i as int));
                lemma_schemaless_len(ss.take(i + 1));
                let d0 = spec_data_imports(ss.take(i as int));
                let d1 = spec_data_imports(ss.take(i + 1));
                let s0 = spec_schemaless_imports(ss.take(i as int));
                let s1 = spec_schemaless_imports(ss.take(i + 1));
                if self.errors@.len() == old(self).errors@.len() {
                    assert forall|k: int|
                        0 <= k < tables@.len() && 0 <= k < d1.len() && (#[trigger] s1[k]) implies interned(
                        self.predicates@,
                        d1[k].1,
                        tables@[k].fields@.len() as u32,
                    ) by {
                        if k < d0.len() {
                            assert(d1[k] == d0[k]);
                            assert(s1[k] == s0[k]);
                            lemma_keeps_interned(p0, self.predicates@, d0[k].1, tables@[k].fields@.len() as u32);
                        } else {
                            assert(k == di0);
                        }
                    }
                }
                if fp {
                    assert(spec_ground_fact(program.statements@[i as int]));
                    assert forall|q: int| 0 <= q < self.predicates@.len() implies exists|k: int|
                        0 <= k < i + 1 && (#[trigger] self.predicates@[q]).name@ == spec_fact_of(
                            program.statements@[k],
                        ).0 && self.predicates@[q].arity == spec_fact_of(program.statements@[k]).1.len() as u32 by {
                        if q < p0.len() {
                            assert(self.predicates@[q] == p0[q]);
                            let k = choose|k: int|
                                0 <= k < i && (#[trigger] p0[q]).name@ == spec_fact_of(program.statements@[k]).0
                                    && p0[q].arity == spec_fact_of(program.statements@[k]).1.len() as u32;
                            assert(0 <= k < i + 1);
                        } else {
                            assert(q == p0.len());
                            let st = program.statements@[i as int];
                            assert(spec_ground_fact(st));
                            if let ast::StatementKind::Clause(c) = st.kind {
                                if let ast::Args::Positional(es) = c.head.args {
                                    assert(self.predicates@[q].name@ == c.head.predicate.name@);
                                    assert(self.predicates@[q].arity == es@.len() as u32);
                                    assert(spec_fact_of(st).1.len() == es@.len());
                                }
                            }
                            assert(0 <= i < i + 1);
                        }
                    }
                }
                if self.errors@.len() == old(self).errors@.len() {
                    assert forall|k: int| 0 <= k < i + 1 implies statement_collected(
                        self.predicates@,
                        #[trigger] program.statements@[k],
                    ) by {
                        if k < i {
                            lemma_keeps_statement(p0, self.predicates@, program.statements@[k]);
                        }
                    }
                }
            }
            i += 1;
        }
        assert(program.statements@.take(i as int) =~= program.statements@);
    }
}

fn copy_row(row: &Vec<ir::Value>) -> (r: Vec<ir::Value>)
    ensures
        r@.len() == row@.len(),
        forall|k: int| 0 <= k < row@.len() ==> (#[trigger] r@[k])@ == row@[k]@,
{
    let mut out: Vec<ir::Value> = Vec::new();
    let mut i: usize = 0;
    while i < row.len()
        invariant
            i <= row@.len(),
            out@.len() == i,
            forall|k: int| 0 <= k < i ==> (#[trigger] out@[k])@ == row@[k]@,
        decreases row.len() - i,
    {
        out.push(ir::copy_value(&row[i]));
        i += 1;
    }
    out
}

/// `new` extends `old`.
pub open spec fn facts_kept(old: Seq<ir::Fact>, new: Seq<ir::Fact>) -> bool {
    &&& old.len() <= new.len()
    &&& forall|f: int| 0 <= f < old.len() ==> #[trigger] new[f] == old[f]
}

/// Two rows hold the same values.
pub open spec fn spec_same_row(a: Seq<ir::Value>, b: Seq<ir::Value>) -> bool {
    &&& a.len() == b.len()
    &&& forall|x: int| 0 <= x < a.len() ==> (#[trigger] a[x])@ == b[x]@
}

/// Some fact of `facts` is `row` for `pred`.
pub open spec fn spec_row_in(facts: Seq<ir::Fact>, pred: ir::PredId, row: Seq<ir::Value>) -> bool {
    exists|f: int| 0 <= f < facts.len() && (#[trigger] facts[f]).pred == pred && spec_same_row(facts[f].tuple.0@, row)
}

proof fn lemma_row_kept(old: Seq<ir::Fact>, new: Seq<ir::Fact>, pred: ir::PredId, row: Seq<ir::Value>)
    requires
        facts_kept(old, new),
        spec_row_in(old, pred, row),
    ensures
        spec_row_in(new, pred, row),
{
    let f = choose|f: int| 0 <= f < old.len() && (#[trigger] old[f]).pred == pred && spec_same_row(old[f].tuple.0@, row);
    assert(new[f] == old[f]);
}

/// Whether a statement is a data import.
pub open spec fn is_data_import(s: ast::Statement) -> bool {
    s.kind matches ast::StatementKind::Import(im) && im.kind is Data
}

/// The data imports of `statements`, in order: each its path and the name of
/// the relation it fills.
pub open spec fn spec_data_imports(statements: Seq<ast::Statement>) -> Seq<(Seq<char>, Seq<char>)>
    decreases statements.len(),
{
    if statements.len() == 0 {
        Seq::empty()
    } else {
        spec_data_imports(statements.drop_last()) + match statements.last().kind {
            ast::StatementKind::Import(i) => match i.kind {
                ast::ImportKind::Data { relation, .. } => seq![(i.path@, relation.name@)],
                _ => Seq::empty(),
            },
            _ => Seq::empty(),
        }
    }
}

/// For each data import of `statements`, in order, whether it is written
/// without a schema.
pub open spec fn spec_schemaless_imports(statements: Seq<ast::Statement>) -> Seq<bool>
    decreases statements.len(),
{
    if statements.len() == 0 {
        Seq::empty()
    } else {
        spec_schemaless_imports(statements.drop_last()) + match statements.last().kind {
            ast::StatementKind::Import(i) => match i.kind {
                ast::ImportKind::Data { schema, .. } => seq![schema is None],
                _ => Seq::empty(),
            },
            _ => Seq::empty(),
        }
    }
}

proof fn lemma_schemaless_len(ss: Seq<ast::Statement>)
    ensures
        spec_schemaless_imports(ss).len() == spec_data_imports(ss).len(),
    decreases ss.len(),
{
    if ss.len() > 0 {
        lemma_schemaless_len(ss.drop_last());
    }
}

proof fn lemma_keeps_names_trans(a: Seq<ir::PredicateInfo>, b: Seq<ir::PredicateInfo>, c: Seq<ir::PredicateInfo>)
    requires
        keeps_names(a, b),
        keeps_names(b, c),
    ensures
        keeps_names(a, c),
{
    assert forall|i: int| 0 <= i < a.len() implies (#[trigger] c[i]).name@ == a[i].name@ && c[i].arity == a[i].arity by {
        assert(b[i].name@ == a[i].name@);
    }
}

proof fn lemma_names_interned(a: Seq<ir::PredicateInfo>, b: Seq<ir::PredicateInfo>, name: Seq<char>, arity: u32)
    requires
        keeps_names(a, b),
        interned(a, name, arity),
    ensures
        interned(b, name, arity),
{
    let i = choose|i: int| 0 <= i < a.len() && (#[trigger] a[i]).name@ == name && a[i].arity == arity;
    assert(b[i].name@ == name && b[i].arity == arity);
}

/// Each data import of the lowered program is the program's import of the
/// same rank: its path, and the predicate named by its relation; and each row
/// loaded for it is a fact of that predicate.
pub open spec fn spec_imports_lowered(
    p: ir::Program,
    program: ast::Program,
    tables: Seq<crate::sources::LoadedTable>,
) -> bool {
    let imports = spec_data_imports(program.statements@);
    &&& p.imports@.len() == imports.len()
    &&& forall|k: int| 0 <= k < p.imports@.len() ==> (#[trigger] p.imports@[k]).path@ == imports[k].0
        && (p.imports@[k].pred.0 as int) < p.predicates@.len() && p.predicates@[p.imports@[k].pred.0 as int].name@
        == imports[k].1
    &&& forall|k: int, j: int|
        0 <= k < p.imports@.len() && k < tables.len() && 0 <= j < tables[k].rows@.len() ==> spec_row_in(
            p.facts@,
            (#[trigger] p.imports@[k]).pred,
            (#[trigger] tables[k].rows@[j])@,
        )
}

/// Every argument is a constant term.
pub open spec fn spec_ground_args(es: Seq<ast::Expr>) -> bool {
    forall|i: int| 0 <= i < es.len() ==> crate::parser::spec_expr_value(#[trigger] es[i]) is Some
}

/// `s` is a fact clause `p(c1, …, cn).` over constants, written positionally.
pub open spec fn spec_ground_fact(s: ast::Statement) -> bool {
    match s.kind {
        ast::StatementKind::Clause(c) => c.body@.len() == 0 && match c.head.args {
            ast::Args::Positional(es) => spec_ground_args(es@),
            ast::Args::Named(_) => false,
        },
        _ => false,
    }
}

/// The relation and the values a fact clause states.
pub open spec fn spec_fact_of(s: ast::Statement) -> (Seq<char>, Seq<ir::ValueView>) {
    match s.kind {
        ast::StatementKind::Clause(c) => (c.head.predicate.name@, spec_atom_values(c.head)),
        _ => (Seq::empty(), Seq::empty()),
    }
}

/// The values a positional atom's constant arguments spell.
pub open spec fn spec_atom_values(atom: ast::Atom) -> Seq<ir::ValueView> {
    match atom.args {
        ast::Args::Positional(es) => Seq::new(es@.len(), |i: int| crate::parser::spec_expr_value(es@[i]).unwrap()),
        ast::Args::Named(_) => Seq::empty(),
    }
}

/// The number of arguments of a positional atom.
pub open spec fn spec_arg_count(atom: ast::Atom) -> int {
    match atom.args {
        ast::Args::Positional(es) => es@.len() as int,
        ast::Args::Named(_) => -1,
    }
}

/// The positional atom a literal holds, if it holds one.
pub open spec fn spec_lit_atom(l: ast::Literal) -> Option<ast::Atom> {
    match l.kind {
        ast::LiteralKind::Atom { atom, .. } => if atom.args is Positional {
            Some(atom)
        } else {
            None
        },
        _ => None,
    }
}

/// The atoms of a body use each relation at one arity, and at the arity
/// `preds` records for it where it does.
pub open spec fn spec_body_consistent(preds: Seq<ir::PredicateInfo>, body: Seq<ast::Literal>) -> bool {
    &&& forall|j1: int, j2: int|
        0 <= j1 < body.len() && 0 <= j2 < body.len() && (#[trigger] spec_lit_atom(body[j1])) is Some && (
        #[trigger] spec_lit_atom(body[j2])) is Some && spec_lit_atom(body[j1])->0.predicate.name@ == spec_lit_atom(
            body[j2],
        )->0.predicate.name@ ==> spec_arg_count(spec_lit_atom(body[j1])->0) == spec_arg_count(
            spec_lit_atom(body[j2])->0,
        )
    &&& forall|j: int, q: int|
        0 <= j < body.len() && 0 <= q < preds.len() && (#[trigger] spec_lit_atom(body[j])) is Some && (
        #[trigger] preds[q]).name@ == spec_lit_atom(body[j])->0.predicate.name@ ==> preds[q].arity as int
            == spec_arg_count(spec_lit_atom(body[j])->0)
    &&& forall|j: int|
        0 <= j < body.len() && (#[trigger] spec_lit_atom(body[j])) is Some ==> spec_arg_count(
            spec_lit_atom(body[j])->0,
        ) < 0xffff_ffff
    &&& preds.len() + body.len() < 0xffff_ffff
}

/// Statement `k` of `ss` is a clause with an atom of relation `name` at `n`
/// arguments, written positionally.
pub open spec fn spec_uses(ss: Seq<ast::Statement>, k: int, name: Seq<char>, n: int) -> bool {
    0 <= k < ss.len() && match ss[k].kind {
        ast::StatementKind::Clause(c) => (c.head.predicate.name@ == name && spec_arg_count(c.head) == n && n >= 0)
            || exists|j: int|
            0 <= j < c.body@.len() && #[trigger] spec_lit_atom(c.body@[j]) is Some && spec_lit_atom(
                c.body@[j],
            )->0.predicate.name@ == name && spec_arg_count(spec_lit_atom(c.body@[j])->0) == n,
        _ => false,
    }
}

/// How many atoms the clauses of `ss` write, heads and bodies together.
pub open spec fn spec_atom_count(ss: Seq<ast::Statement>) -> int
    decreases ss.len(),
{
    if ss.len() == 0 {
        0
    } else {
        spec_atom_count(ss.drop_last()) + match ss.last().kind {
            ast::StatementKind::Clause(c) => 1 + c.body@.len(),
            _ => 0,
        }
    }
}

/// A clause of a plain program: a ground fact, or a rule of plain atoms over
/// terms (no negation, no `absent` in the body).
pub open spec fn spec_plain_clause(st: ast::Statement) -> bool {
    match st.kind {
        ast::StatementKind::Clause(c) => if c.body@.len() == 0 {
            spec_ground_fact(st)
        } else {
            spec_rule_shape(c) && forall|k: int| 0 <= k < c.body@.len() ==> spec_plain_literal(#[trigger] c.body@[k])
        },
        _ => false,
    }
}

/// `l` is an atom, not negated.
pub open spec fn spec_plain_literal(l: ast::Literal) -> bool {
    match l.kind {
        ast::LiteralKind::Atom { negated, .. } => !negated,
        _ => false,
    }
}

/// A plain program: its statements plain as `spec_plain_statements` says,
/// and each clause with fewer arguments than a `u32` counts.
pub open spec fn spec_plain_program(program: ast::Program) -> bool {
    &&& spec_plain_statements(program)
    &&& forall|k: int| 0 <= k < program.statements@.len() ==> spec_clause_small(#[trigger] program.statements@[k])
}

/// Clauses only, each plain, every relation used at one arity throughout,
/// and fewer atoms and arguments than a `u32` counts.
pub open spec fn spec_plain_statements(program: ast::Program) -> bool {
    let ss = program.statements@;
    &&& forall|k: int| 0 <= k < ss.len() ==> spec_plain_clause(#[trigger] ss[k])
    &&& forall|k1: int, k2: int, name: Seq<char>, n1: int, n2: int|
        #[trigger] spec_uses(ss, k1, name, n1) && #[trigger] spec_uses(ss, k2, name, n2) ==> n1 == n2
    &&& forall|k: int, name: Seq<char>, n: int| #[trigger] spec_uses(ss, k, name, n) ==> n < 0xffff_ffff
    &&& spec_atom_count(ss) < 0xffff_ffff
}

/// A clause's head and body together have fewer arguments than a `u32` counts.
pub open spec fn spec_clause_small(st: ast::Statement) -> bool {
    match st.kind {
        ast::StatementKind::Clause(c) => spec_arg_count(c.head) + spec_body_args(c.body@) < 0xffff_ffff,
        _ => true,
    }
}

/// The predicate table holds only relations the first `i` statements use, at
/// the arity they use, one per atom at most.
pub open spec fn spec_plain_table(ss: Seq<ast::Statement>, i: int, preds: Seq<ir::PredicateInfo>) -> bool {
    &&& preds.len() <= spec_atom_count(ss.take(i))
    &&& forall|q: int|
        0 <= q < preds.len() ==> exists|k: int| 0 <= k < i && spec_uses(ss, k, (#[trigger] preds[q]).name@, preds[q].arity as int)
}

proof fn lemma_atom_count_prefix(ss: Seq<ast::Statement>, i: int)
    requires
        0 <= i <= ss.len(),
    ensures
        spec_atom_count(ss.take(i)) <= spec_atom_count(ss),
        spec_atom_count(ss.take(i)) >= 0,
    decreases ss.len() - i,
{
    if i < ss.len() {
        lemma_atom_count_prefix(ss, i + 1);
        assert(ss.take(i + 1).drop_last() =~= ss.take(i));
        lemma_atom_count_nonneg(ss.take(i));
    } else {
        assert(ss.take(i) =~= ss);
        lemma_atom_count_nonneg(ss);
    }
}

proof fn lemma_atom_count_nonneg(ss: Seq<ast::Statement>)
    ensures
        spec_atom_count(ss) >= 0,
    decreases ss.len(),
{
    if ss.len() > 0 {
        lemma_atom_count_nonneg(ss.drop_last());
    }
}

/// Interning the head of clause `i` of a plain program reports nothing, and
/// its body is consistent with the table after.
proof fn lemma_plain_head(program: ast::Program, i: int, preds: Seq<ir::PredicateInfo>)
    requires
        spec_plain_statements(program),
        0 <= i < program.statements@.len(),
        spec_plain_table(program.statements@, i, preds),
        names_unique(preds),
    ensures
        program.statements@[i].kind matches ast::StatementKind::Clause(c) ==> ({
            let name = c.head.predicate.name@;
            let n = spec_arg_count(c.head);
            &&& n >= 0
            &&& interned(preds, name, n as u32) || (!named(preds, name) && preds.len() < 0xffff_ffff)
        }),
{
    let ss = program.statements@;
    lemma_atom_count_prefix(ss, i + 1);
    assert(ss.take(i + 1).drop_last() =~= ss.take(i));
    if let ast::StatementKind::Clause(c) = ss[i].kind {
        assert(spec_plain_clause(ss[i]));
        let name = c.head.predicate.name@;
        let n = spec_arg_count(c.head);
        assert(c.head.args is Positional);
        assert(spec_uses(ss, i, name, n));
        if named(preds, name) {
            let q = choose|q: int| 0 <= q < preds.len() && (#[trigger] preds[q]).name@ == name;
            let k = choose|k: int| 0 <= k < i && spec_uses(ss, k, preds[q].name@, preds[q].arity as int);
            assert(preds[q].arity as int == n);
            assert(interned(preds, name, n as u32));
        }
    }
}

/// After the head of clause `i`, its body is consistent with the table.
proof fn lemma_plain_body(program: ast::Program, i: int, preds: Seq<ir::PredicateInfo>)
    requires
        spec_plain_statements(program),
        0 <= i < program.statements@.len(),
        preds.len() <= spec_atom_count(program.statements@.take(i)) + 1,
        forall|q: int|
            0 <= q < preds.len() ==> exists|k: int|
                0 <= k < i + 1 && spec_uses(program.statements@, k, (#[trigger] preds[q]).name@, preds[q].arity as int),
    ensures
        program.statements@[i].kind matches ast::StatementKind::Clause(c) ==> spec_body_consistent(preds, c.body@),
{
    let ss = program.statements@;
    lemma_atom_count_prefix(ss, i + 1);
    assert(ss.take(i + 1).drop_last() =~= ss.take(i));
    if let ast::StatementKind::Clause(c) = ss[i].kind {
        let body = c.body@;
        assert forall|j1: int, j2: int|
            0 <= j1 < body.len() && 0 <= j2 < body.len() && (#[trigger] spec_lit_atom(body[j1])) is Some && (
            #[trigger] spec_lit_atom(body[j2])) is Some && spec_lit_atom(body[j1])->0.predicate.name@ == spec_lit_atom(
                body[j2],
            )->0.predicate.name@ implies spec_arg_count(spec_lit_atom(body[j1])->0) == spec_arg_count(
            spec_lit_atom(body[j2])->0,
        ) by {
            let name = spec_lit_atom(body[j1])->0.predicate.name@;
            assert(spec_uses(ss, i, name, spec_arg_count(spec_lit_atom(body[j1])->0)));
            assert(spec_uses(ss, i, name, spec_arg_count(spec_lit_atom(body[j2])->0)));
        }
        assert forall|j: int, q: int|
            0 <= j < body.len() && 0 <= q < preds.len() && (#[trigger] spec_lit_atom(body[j])) is Some && (
            #[trigger] preds[q]).name@ == spec_lit_atom(body[j])->0.predicate.name@ implies preds[q].arity as int
            == spec_arg_count(spec_lit_atom(body[j])->0) by {
            let name = preds[q].name@;
            let k = choose|k: int| 0 <= k < i + 1 && spec_uses(ss, k, preds[q].name@, preds[q].arity as int);
            assert(spec_uses(ss, i, name, spec_arg_count(spec_lit_atom(body[j])->0)));
        }
        assert forall|j: int| 0 <= j < body.len() && (#[trigger] spec_lit_atom(body[j])) is Some implies spec_arg_count(
            spec_lit_atom(body[j])->0,
        ) < 0xffff_ffff by {
            assert(spec_uses(ss, i, spec_lit_atom(body[j])->0.predicate.name@, spec_arg_count(spec_lit_atom(body[j])->0)));
        }
    }
}

/// The reports of the first `n` rules, each checked as the rule of its clause.
pub open spec fn spec_reports_upto(rules: Seq<ir::Rule>, rc: Seq<ast::Clause>, n: int) -> Seq<Seq<char>>
    decreases n,
{
    if n <= 0 {
        Seq::empty()
    } else {
        spec_reports_upto(rules, rc, n - 1) + spec_rule_reports(rules[n - 1], rc[n - 1].head.predicate.name@)
    }
}

proof fn lemma_reports_upto_prefix(a: Seq<ir::Rule>, b: Seq<ir::Rule>, ra: Seq<ast::Clause>, rb: Seq<ast::Clause>, n: int)
    requires
        0 <= n <= a.len(),
        n <= b.len(),
        n <= ra.len(),
        n <= rb.len(),
        forall|k: int| 0 <= k < n ==> a[k] == b[k] && ra[k] == rb[k],
    ensures
        spec_reports_upto(a, ra, n) == spec_reports_upto(b, rb, n),
    decreases n,
{
    if n > 0 {
        lemma_reports_upto_prefix(a, b, ra, rb, n - 1);
    }
}

/// How lowering a plain program ends, given the reports its rules draw: it
/// succeeds exactly when there are none; otherwise its errors are those
/// reports, in order.
pub open spec fn spec_plain_outcome(r: Result<ir::Program, Vec<Error>>, reports: Seq<Seq<char>>) -> bool {
    match r {
        Ok(_) => reports.len() == 0,
        Err(es) => reports.len() > 0 && es@.len() == reports.len() && forall|x: int|
            0 <= x < reports.len() ==> (#[trigger] es@[x]).message@ == reports[x],
    }
}

proof fn lemma_rule_clauses_bound(ss: Seq<ast::Statement>)
    ensures
        spec_rule_clauses(ss).len() <= spec_atom_count(ss),
    decreases ss.len(),
{
    if ss.len() > 0 {
        lemma_rule_clauses_bound(ss.drop_last());
    }
}

/// A body of plain atoms depends positively on each of them.
proof fn lemma_body_edges_positive(ls: Seq<ir::BodyLiteral>)
    requires
        forall|k: int| 0 <= k < ls.len() ==> (#[trigger] ls[k]).kind is Atom,
    ensures
        forall|k: int| 0 <= k < spec_body_edges(ls, false).len() ==> (#[trigger] spec_body_edges(ls, false)[k]).1
            == Dep::Positive,
    decreases ls.len(),
{
    if ls.len() > 0 {
        lemma_body_edges_positive(ls.drop_last());
        assert(ls.last().kind is Atom);
        let e0 = spec_body_edges(ls.drop_last(), false);
        let e1 = spec_lit_edges(ls.last(), false);
        assert(spec_body_edges(ls, false) == e0 + e1);
        assert forall|k: int| 0 <= k < (e0 + e1).len() implies (#[trigger] (e0 + e1)[k]).1 == Dep::Positive by {
            if k < e0.len() {
                assert((e0 + e1)[k] == e0[k]);
            }
        }
    }
}

/// Lowering clause `i` of a plain program extends the rules by the clause's
/// rule, if it has a body, and the errors by exactly that rule's reports.
proof fn lemma_plain_clause_step(
    program: ast::Program,
    i: int,
    preds: Seq<ir::PredicateInfo>,
    rules0: Seq<ir::Rule>,
    rules1: Seq<ir::Rule>,
    e0: Seq<Error>,
    e1: Seq<Error>,
)
    requires
        spec_plain_program(program),
        0 <= i < program.statements@.len(),
        match program.statements@[i].kind {
            ast::StatementKind::Clause(c) => if c.body@.len() == 0 {
                rules1 == rules0 && e1 == e0
            } else {
                &&& rules1.len() == rules0.len() + 1
                &&& forall|k: int| 0 <= k < rules0.len() ==> #[trigger] rules1[k] == rules0[k]
                &&& spec_rule_is(c, rules1.last(), preds)
                &&& spec_appended(e0, e1, spec_rule_reports(rules1.last(), c.head.predicate.name@))
            },
            _ => false,
        },
        rules0.len() == spec_rule_clauses(program.statements@.take(i)).len(),
        forall|k: int|
            0 <= k < rules0.len() ==> spec_rule_is(
                spec_rule_clauses(program.statements@.take(i))[k],
                #[trigger] rules0[k],
                preds,
            ),
        forall|r: int, k: int|
            0 <= r < rules0.len() && 0 <= k < rules0[r].body@.len() ==> (#[trigger] rules0[r].body@[k]).kind is Atom,
        spec_appended(
            Seq::empty(),
            e0,
            spec_reports_upto(rules0, spec_rule_clauses(program.statements@.take(i)), rules0.len() as int),
        ),
    ensures
        rules1.len() == spec_rule_clauses(program.statements@.take(i + 1)).len(),
        forall|k: int|
            0 <= k < rules1.len() ==> spec_rule_is(
                spec_rule_clauses(program.statements@.take(i + 1))[k],
                #[trigger] rules1[k],
                preds,
            ),
        forall|r: int, k: int|
            0 <= r < rules1.len() && 0 <= k < rules1[r].body@.len() ==> (#[trigger] rules1[r].body@[k]).kind is Atom,
        spec_appended(
            Seq::empty(),
            e1,
            spec_reports_upto(rules1, spec_rule_clauses(program.statements@.take(i + 1)), rules1.len() as int),
        ),
{
    let ss = program.statements@;
    assert(ss.take(i + 1).drop_last() =~= ss.take(i));
    assert(ss.take(i + 1).last() == ss[i]);
    let rc0 = spec_rule_clauses(ss.take(i));
    let rc1 = spec_rule_clauses(ss.take(i + 1));
    if let ast::StatementKind::Clause(c) = ss[i].kind {
        assert(spec_plain_clause(ss[i]));
        if c.body@.len() == 0 {
            assert(rc1 =~= rc0);
        } else {
            assert(rc1 =~= rc0.push(c));
            let n = rules0.len() as int;
            assert forall|k: int| 0 <= k < rules1.len() implies spec_rule_is(rc1[k], #[trigger] rules1[k], preds) by {
                if k < n {
                    assert(rc1[k] == rc0[k]);
                    assert(rules1[k] == rules0[k]);
                }
            }
            assert forall|r: int, k: int|
                0 <= r < rules1.len() && 0 <= k < rules1[r].body@.len() implies (
                #[trigger] rules1[r].body@[k]).kind is Atom by {
                if r < n {
                    assert(rules1[r] == rules0[r]);
                } else {
                    assert(spec_lit_is(c.body@[k], rules1[r].body@[k], preds, rules1[r].var_names@));
                    assert(spec_plain_literal(c.body@[k]));
                }
            }
            lemma_reports_upto_prefix(rules0, rules1, rc0, rc1, n);
            assert(rc1[n] == c);
            lemma_appended_trans(
                Seq::empty(),
                e0,
                e1,
                spec_reports_upto(rules0, rc0, n),
                spec_rule_reports(rules1.last(), c.head.predicate.name@),
            );
        }
    }
}

/// Rules whose bodies are plain atoms only have positive dependencies.
proof fn lemma_rules_positive(rules: Seq<ir::Rule>)
    requires
        forall|r: int, k: int| 0 <= r < rules.len() && 0 <= k < rules[r].body@.len() ==> (#[trigger] rules[r].body@[k]).kind is Atom,
    ensures
        spec_positive_only(rules),
    decreases rules.len(),
{
    if rules.len() > 0 {
        lemma_rules_positive(rules.drop_last());
        let last = rules.last();
        assert forall|k: int| 0 <= k < last.body@.len() implies (#[trigger] last.body@[k]).kind is Atom by {
            assert(rules[rules.len() - 1].body@[k].kind is Atom);
        }
        lemma_body_edges_positive(last.body@);
        let e0 = spec_all_edges(rules.drop_last());
        let be = spec_body_edges(last.body@, false);
        let e1 = spec_rule_edges(last);
        assert(spec_all_edges(rules) == e0 + e1);
        assert forall|k: int| 0 <= k < (e0 + e1).len() implies (#[trigger] (e0 + e1)[k]).2 == Dep::Positive by {
            if k < e0.len() {
                assert((e0 + e1)[k] == e0[k]);
            } else {
                assert(e1[k - e0.len()].2 == be[k - e0.len()].1);
            }
        }
    }
}

/// A program of ground facts that uses each relation at one arity.
pub open spec fn spec_fact_program(program: ast::Program) -> bool {
    let ss = program.statements@;
    &&& ss.len() < 0xffff_ffff
    &&& forall|k: int| 0 <= k < ss.len() ==> spec_ground_fact(#[trigger] ss[k])
    &&& forall|j: int, k: int|
        0 <= j < ss.len() && 0 <= k < ss.len() && (#[trigger] spec_fact_of(ss[j])).0 == (#[trigger] spec_fact_of(
            ss[k],
        )).0 ==> spec_fact_of(ss[j]).1.len() == spec_fact_of(ss[k]).1.len()
}

/// `f` is the fact `name(vs)` over the predicate table `preds`.
pub open spec fn spec_fact_is(preds: Seq<ir::PredicateInfo>, f: ir::Fact, name: Seq<char>, vs: Seq<ir::ValueView>) -> bool {
    &&& (f.pred.0 as int) < preds.len()
    &&& preds[f.pred.0 as int].name@ == name
    &&& f.tuple.0@.len() == vs.len()
    &&& forall|x: int| 0 <= x < vs.len() ==> (#[trigger] f.tuple.0@[x])@ == vs[x]
}

/// `t` is the constant `v`.
pub open spec fn spec_const_arg(t: ir::Term, v: ir::ValueView) -> bool {
    match t {
        ir::Term::Const(c) => c@ == v,
        ir::Term::Var(_) => false,
    }
}

/// `atom` is written positionally over constants.
pub open spec fn spec_ground_positional(atom: ast::Atom) -> bool {
    match atom.args {
        ast::Args::Positional(es) => spec_ground_args(es@),
        ast::Args::Named(_) => false,
    }
}

/// `a` is the ground atom `atom` lowered: its predicate named alike, each
/// argument the constant written.
pub open spec fn spec_ground_lowered(atom: ast::Atom, a: ir::Atom, preds: Seq<ir::PredicateInfo>) -> bool {
    &&& (a.pred.0 as int) < preds.len()
    &&& preds[a.pred.0 as int].name@ == atom.predicate.name@
    &&& match atom.args {
        ast::Args::Positional(es) => a.args@.len() == es@.len() && forall|j: int|
            0 <= j < es@.len() ==> spec_const_arg(#[trigger] a.args@[j], crate::parser::spec_expr_value(es@[j]).unwrap()),
        ast::Args::Named(_) => false,
    }
}

/// `e` is the literal `absent`.
pub open spec fn spec_is_absent_term(e: ast::Expr) -> bool {
    e.kind matches ast::ExprKind::Term(t) && t.kind == ast::TermKind::Constant(ast::Constant::Absent)
}

/// `t` is the argument `e` lowered over the slots `names`: the constant
/// written; the slot named by the variable; an unnamed slot for `_`.
pub open spec fn spec_arg_is(e: ast::Expr, t: ir::Term, names: Seq<Option<String>>) -> bool {
    match e.kind {
        ast::ExprKind::Term(tm) => match tm.kind {
            ast::TermKind::Constant(c) => spec_const_arg(t, crate::parser::spec_constant_value(c)),
            ast::TermKind::Variable(n) => match t {
                ir::Term::Var(v) => (v.0 as int) < names.len() && names[v.0 as int] is Some && names[v.0 as int]->0@
                    == n@,
                ir::Term::Const(_) => false,
            },
            ast::TermKind::Wildcard => match t {
                ir::Term::Var(v) => (v.0 as int) < names.len() && names[v.0 as int] is None,
                ir::Term::Const(_) => false,
            },
        },
        _ => false,
    }
}

/// Every argument of `atom` is a term, written positionally.
pub open spec fn spec_atom_terms(atom: ast::Atom) -> bool {
    match atom.args {
        ast::Args::Positional(es) => forall|i: int| 0 <= i < es@.len() ==> (#[trigger] es@[i]).kind is Term,
        ast::Args::Named(_) => false,
    }
}

/// Some argument of `atom` is the literal `absent`.
pub open spec fn spec_atom_has_absent(atom: ast::Atom) -> bool {
    match atom.args {
        ast::Args::Positional(es) => exists|i: int| 0 <= i < es@.len() && spec_is_absent_term(#[trigger] es@[i]),
        ast::Args::Named(_) => false,
    }
}

/// `a` is the positional atom `atom` lowered over the slots `names`: its
/// predicate named alike, each argument lowered in place.
pub open spec fn spec_atom_is(atom: ast::Atom, a: ir::Atom, preds: Seq<ir::PredicateInfo>, names: Seq<Option<String>>) -> bool {
    &&& (a.pred.0 as int) < preds.len()
    &&& preds[a.pred.0 as int].name@ == atom.predicate.name@
    &&& match atom.args {
        ast::Args::Positional(es) => a.args@.len() == es@.len() && forall|j: int|
            0 <= j < es@.len() ==> spec_arg_is(es@[j], #[trigger] a.args@[j], names),
        ast::Args::Named(_) => false,
    }
}

/// Every literal of `body` is an atom, plain or negated, over terms, none of
/// them `absent`, each of a predicate `preds` names.
pub open spec fn spec_body_atoms(body: Seq<ast::Literal>, preds: Seq<ir::PredicateInfo>) -> bool {
    forall|k: int|
        0 <= k < body.len() ==> spec_body_atom(#[trigger] body[k], preds)
}

/// `l` is an atom, plain or negated, over terms, none of them `absent`, of a
/// predicate `preds` names.
pub open spec fn spec_body_atom(l: ast::Literal, preds: Seq<ir::PredicateInfo>) -> bool {
    match l.kind {
        ast::LiteralKind::Atom { atom, .. } => spec_atom_terms(atom) && !spec_atom_has_absent(atom) && named(
            preds,
            atom.predicate.name@,
        ),
        _ => false,
    }
}

/// How many arguments the positional atoms of a body have, all together.
pub open spec fn spec_body_args(body: Seq<ast::Literal>) -> int
    decreases body.len(),
{
    if body.len() == 0 {
        0
    } else {
        spec_body_args(body.drop_last()) + match spec_lit_atom(body.last()) {
            Some(a) => spec_arg_count(a),
            None => 0,
        }
    }
}

/// `bl` is the literal `l` lowered over the slots `names`: the same atom,
/// negated exactly where `l` is.
pub open spec fn spec_lit_is(l: ast::Literal, bl: ir::BodyLiteral, preds: Seq<ir::PredicateInfo>, names: Seq<Option<String>>) -> bool {
    match l.kind {
        ast::LiteralKind::Atom { negated, atom } => match bl.kind {
            ir::BodyLiteralKind::Atom(a) => !negated && spec_atom_is(atom, a, preds, names),
            ir::BodyLiteralKind::NegAtom(a) => negated && spec_atom_is(atom, a, preds, names),
            _ => false,
        },
        _ => false,
    }
}

/// A rule clause of atoms over terms: its head positional over terms, its
/// body atoms as `spec_body_atoms` says, every predicate named in `preds`.
pub open spec fn spec_simple_rule(c: ast::Clause, preds: Seq<ir::PredicateInfo>) -> bool {
    &&& c.body@.len() > 0
    &&& spec_atom_terms(c.head)
    &&& named(preds, c.head.predicate.name@)
    &&& spec_body_atoms(c.body@, preds)
}

/// `r` is the rule clause `c` lowered: its head and each body literal, in
/// order and with its negation, over the rule's own slots.
pub open spec fn spec_rule_is(c: ast::Clause, r: ir::Rule, preds: Seq<ir::PredicateInfo>) -> bool {
    &&& spec_atom_is(c.head, r.head, preds, r.var_names@)
    &&& r.body@.len() == c.body@.len()
    &&& forall|k: int| 0 <= k < c.body@.len() ==> spec_lit_is(c.body@[k], #[trigger] r.body@[k], preds, r.var_names@)
}

proof fn lemma_rule_is_keep(c: ast::Clause, r: ir::Rule, p: Seq<ir::PredicateInfo>, q: Seq<ir::PredicateInfo>)
    requires
        spec_rule_is(c, r, p),
        keeps_names(p, q),
    ensures
        spec_rule_is(c, r, q),
{
    lemma_atom_is_extend(c.head, r.head, p, q, r.var_names@, r.var_names@);
    assert forall|k: int| 0 <= k < c.body@.len() implies spec_lit_is(c.body@[k], #[trigger] r.body@[k], q, r.var_names@) by {
        lemma_lit_is_extend(c.body@[k], r.body@[k], p, q, r.var_names@, r.var_names@);
    }
}

proof fn lemma_lit_is_extend(
    l: ast::Literal,
    bl: ir::BodyLiteral,
    p: Seq<ir::PredicateInfo>,
    q: Seq<ir::PredicateInfo>,
    a: Seq<Option<String>>,
    b: Seq<Option<String>>,
)
    requires
        spec_lit_is(l, bl, p, a),
        names_extend(a, b),
        keeps_names(p, q),
    ensures
        spec_lit_is(l, bl, q, b),
{
    if let ast::LiteralKind::Atom { negated, atom } = l.kind {
        match bl.kind {
            ir::BodyLiteralKind::Atom(x) => lemma_atom_is_extend(atom, x, p, q, a, b),
            ir::BodyLiteralKind::NegAtom(x) => lemma_atom_is_extend(atom, x, p, q, a, b),
            _ => {},
        }
    }
}

proof fn lemma_arg_is_extend(e: ast::Expr, t: ir::Term, a: Seq<Option<String>>, b: Seq<Option<String>>)
    requires
        spec_arg_is(e, t, a),
        names_extend(a, b),
    ensures
        spec_arg_is(e, t, b),
{
    if let ir::Term::Var(v) = t {
        assert(b[v.0 as int] == a[v.0 as int]);
    }
}

proof fn lemma_atom_is_extend(
    atom: ast::Atom,
    x: ir::Atom,
    p: Seq<ir::PredicateInfo>,
    q: Seq<ir::PredicateInfo>,
    a: Seq<Option<String>>,
    b: Seq<Option<String>>,
)
    requires
        spec_atom_is(atom, x, p, a),
        names_extend(a, b),
        keeps_names(p, q),
    ensures
        spec_atom_is(atom, x, q, b),
{
    assert(q[x.pred.0 as int].name@ == p[x.pred.0 as int].name@);
    if let ast::Args::Positional(es) = atom.args {
        assert forall|j: int| 0 <= j < es@.len() implies spec_arg_is(es@[j], #[trigger] x.args@[j], b) by {
            lemma_arg_is_extend(es@[j], x.args@[j], a, b);
        }
    }
}

/// Interning the `i`th fact's relation of a fact program reports nothing,
/// given that the table holds only relations of earlier facts.
proof fn lemma_fact_program_intern(program: ast::Program, i: int, preds: Seq<ir::PredicateInfo>)
    requires
        spec_fact_program(program),
        0 <= i < program.statements@.len(),
        preds.len() <= i,
        names_unique(preds),
        forall|q: int|
            0 <= q < preds.len() ==> exists|k: int|
                0 <= k < i && (#[trigger] preds[q]).name@ == spec_fact_of(program.statements@[k]).0
                    && preds[q].arity == spec_fact_of(program.statements@[k]).1.len() as u32,
    ensures
        ({
            let (name, vs) = spec_fact_of(program.statements@[i]);
            interned(preds, name, vs.len() as u32) || (!named(preds, name) && preds.len() < 0xffff_ffff)
        }),
{
    let st = program.statements@[i];
    let (name, vs) = spec_fact_of(st);
    assert(spec_ground_fact(st));
    if named(preds, name) {
        let q = choose|q: int| 0 <= q < preds.len() && (#[trigger] preds[q]).name@ == name;
        let k = choose|k: int|
            0 <= k < i && (#[trigger] preds[q]).name@ == spec_fact_of(program.statements@[k]).0
                && preds[q].arity == spec_fact_of(program.statements@[k]).1.len() as u32;
        assert(spec_fact_of(program.statements@[k]).1.len() == vs.len());
        assert(interned(preds, name, vs.len() as u32));
    }
}

/// The lowered program holds one fact per statement of the fact program
/// `program`, in order, each the fact that statement writes.
pub open spec fn spec_facts_lowered(p: ir::Program, program: ast::Program) -> bool {
    &&& p.rules@.len() == 0
    &&& p.facts@.len() == program.statements@.len()
    &&& forall|k: int|
        0 <= k < p.facts@.len() ==> spec_fact_is(
            p.predicates@,
            #[trigger] p.facts@[k],
            spec_fact_of(program.statements@[k]).0,
            spec_fact_of(program.statements@[k]).1,
        )
}

/// Law: facts read back are facts lowered. A program that is exactly the
/// ground facts `fs` (as the parser reads printed facts), using each relation
/// at one arity, is a fact program whose statements state exactly `fs`; so
/// `lower` turns it into those facts, in order.
pub proof fn lemma_read_facts_lower(program: ast::Program, fs: Seq<(Seq<char>, Seq<ir::ValueView>)>)
    requires
        crate::parser::spec_is_facts(program, fs),
        fs.len() < 0xffff_ffff,
        forall|j: int, k: int|
            0 <= j < fs.len() && 0 <= k < fs.len() && (#[trigger] fs[j]).0 == (#[trigger] fs[k]).0 ==> fs[j].1.len()
                == fs[k].1.len(),
    ensures
        spec_fact_program(program),
        forall|k: int| 0 <= k < fs.len() ==> #[trigger] spec_fact_of(program.statements@[k]) == fs[k],
{
    assert forall|k: int| 0 <= k < fs.len() implies #[trigger] spec_fact_of(program.statements@[k]) == fs[k]
        && spec_ground_fact(program.statements@[k]) by {
        let st = program.statements@[k];
        assert(crate::parser::spec_is_fact(st, fs[k].0, fs[k].1));
        if let ast::StatementKind::Clause(c) = st.kind {
            if let ast::Args::Positional(es) = c.head.args {
                assert(spec_atom_values(c.head) =~= fs[k].1);
            }
        }
    }
    assert forall|j: int, k: int|
        0 <= j < program.statements@.len() && 0 <= k < program.statements@.len() && (#[trigger] spec_fact_of(
            program.statements@[j],
        )).0 == (#[trigger] spec_fact_of(program.statements@[k])).0 implies spec_fact_of(
        program.statements@[j],
    ).1.len() == spec_fact_of(program.statements@[k]).1.len() by {
        assert(spec_fact_of(program.statements@[j]) == fs[j]);
        assert(spec_fact_of(program.statements@[k]) == fs[k]);
    }
}

/// What a successful lowering guarantees of its result: every predicate is
/// named once and every id it uses is in the table; every rule is safe (its
/// body has a schedule, which binds every head variable) and every query
/// body has a schedule; and the strata are a stratification of the rules.
pub open spec fn spec_lowered(p: ir::Program) -> bool {
    &&& p.predicates@.len() <= u32::MAX
    &&& names_unique(p.predicates@)
    &&& spec_in_range(p, p.predicates@.len())
    &&& spec_safe(p)
    &&& spec_stratified(p.rules@, p.strata@)
    &&& spec_positive_only(p.rules@) ==> p.strata@.len() <= 1
}

/// The rule clauses (those with a body) of `statements`, in order.
pub open spec fn spec_rule_clauses(statements: Seq<ast::Statement>) -> Seq<ast::Clause>
    decreases statements.len(),
{
    if statements.len() == 0 {
        Seq::empty()
    } else {
        spec_rule_clauses(statements.drop_last()) + match statements.last().kind {
            ast::StatementKind::Clause(c) => if c.body@.len() > 0 {
                seq![c]
            } else {
                Seq::empty()
            },
            _ => Seq::empty(),
        }
    }
}

/// A rule clause of atoms over terms: a positional head over terms, and a
/// body of atoms, plain or negated, over terms, none of them `absent`.
pub open spec fn spec_rule_shape(c: ast::Clause) -> bool {
    &&& c.body@.len() > 0
    &&& spec_atom_terms(c.head)
    &&& forall|k: int| 0 <= k < c.body@.len() ==> spec_body_shape(#[trigger] c.body@[k])
}

/// `l` is an atom, plain or negated, over terms, none of them `absent`.
pub open spec fn spec_body_shape(l: ast::Literal) -> bool {
    match l.kind {
        ast::LiteralKind::Atom { atom, .. } => spec_atom_terms(atom) && !spec_atom_has_absent(atom),
        _ => false,
    }
}

/// Every rule clause of `statements` of the shape `spec_rule_shape` is the
/// rule of the same rank in `rules`, lowered.
pub open spec fn spec_rules_lowered(rules: Seq<ir::Rule>, statements: Seq<ast::Statement>, preds: Seq<ir::PredicateInfo>) -> bool {
    let rc = spec_rule_clauses(statements);
    &&& rules.len() == rc.len()
    &&& forall|k: int| 0 <= k < rc.len() && spec_rule_shape(#[trigger] rc[k]) ==> spec_rule_is(rc[k], rules[k], preds)
}

proof fn lemma_rule_clauses_count(ss: Seq<ast::Statement>)
    ensures
        spec_rule_clauses(ss).len() == spec_statement_counts(ss).0,
    decreases ss.len(),
{
    if ss.len() > 0 {
        lemma_rule_clauses_count(ss.drop_last());
    }
}

/// A statement's clause names every predicate it uses in `preds`.
pub open spec fn statement_named(preds: Seq<ir::PredicateInfo>, st: ast::Statement) -> bool {
    match st.kind {
        ast::StatementKind::Clause(c) => (c.head.args is Positional ==> named(preds, c.head.predicate.name@))
            && forall|k: int| 0 <= k < c.body@.len() ==> literal_named(preds, #[trigger] c.body@[k]),
        _ => true,
    }
}

/// A positional atom literal's predicate is named in `preds`.
pub open spec fn literal_named(preds: Seq<ir::PredicateInfo>, l: ast::Literal) -> bool {
    match l.kind {
        ast::LiteralKind::Atom { atom, .. } => atom.args is Positional ==> named(preds, atom.predicate.name@),
        _ => true,
    }
}

proof fn lemma_collected_named(preds: Seq<ir::PredicateInfo>, st: ast::Statement)
    requires
        statement_collected(preds, st),
    ensures
        statement_named(preds, st),
{
    if let ast::StatementKind::Clause(c) = st.kind {
        assert forall|k: int| 0 <= k < c.body@.len() implies literal_named(preds, #[trigger] c.body@[k]) by {
            assert(atom_collected(preds, c.body@[k]));
        }
    }
}

proof fn lemma_named_keep(a: Seq<ir::PredicateInfo>, b: Seq<ir::PredicateInfo>, st: ast::Statement)
    requires
        statement_named(a, st),
        keeps_names(a, b),
    ensures
        statement_named(b, st),
{
    if let ast::StatementKind::Clause(c) = st.kind {
        if c.head.args is Positional {
            let q = choose|q: int| 0 <= q < a.len() && (#[trigger] a[q]).name@ == c.head.predicate.name@;
            assert(b[q].name@ == a[q].name@);
        }
        assert forall|k: int| 0 <= k < c.body@.len() implies literal_named(b, #[trigger] c.body@[k]) by {
            assert(literal_named(a, c.body@[k]));
            if let ast::LiteralKind::Atom { atom, .. } = c.body@[k].kind {
                if atom.args is Positional {
                    let q = choose|q: int| 0 <= q < a.len() && (#[trigger] a[q]).name@ == atom.predicate.name@;
                    assert(b[q].name@ == a[q].name@);
                }
            }
        }
    }
}

/// How many of `statements` are clauses of each kind: rules (with a body),
/// facts (without one), and queries.
pub open spec fn spec_statement_counts(statements: Seq<ast::Statement>) -> (nat, nat, nat)
    decreases statements.len(),
{
    if statements.len() == 0 {
        (0, 0, 0)
    } else {
        let (rules, facts, queries) = spec_statement_counts(statements.drop_last());
        match statements.last().kind {
            ast::StatementKind::Clause(c) => if c.body@.len() > 0 {
                (rules + 1, facts, queries)
            } else {
                (rules, facts + 1, queries)
            },
            ast::StatementKind::Query(_) => (rules, facts, queries + 1),
            _ => (rules, facts, queries),
        }
    }
}

/// The rows the first `n` data imports bring: each its loaded table's, where
/// there is one.
pub open spec fn spec_rows_loaded(tables: Seq<crate::sources::LoadedTable>, n: int) -> nat
    decreases n,
{
    if n <= 0 {
        0
    } else {
        spec_rows_loaded(tables, n - 1) + if n - 1 < tables.len() {
            tables[n - 1].rows@.len()
        } else {
            0nat
        }
    }
}

/// The lowered program has one rule per rule clause, one query per query, one
/// import per data import, and one fact per fact clause and per loaded row.
pub open spec fn spec_lowered_from(
    p: ir::Program,
    program: ast::Program,
    tables: Seq<crate::sources::LoadedTable>,
) -> bool {
    let (rules, facts, queries) = spec_statement_counts(program.statements@);
    let imports = crate::sources::data_import_count(program.statements@);
    &&& p.rules@.len() == rules
    &&& p.queries@.len() == queries
    &&& p.imports@.len() == imports
    &&& p.facts@.len() == facts + spec_rows_loaded(tables, imports as int)
}

/// Lowers a surface program with its data imports already loaded: `tables`
/// is aligned with the program's data-import statements in source order, each
/// supplying a schema-less import's arity and field names and its rows as base
/// facts. Every error found is reported.
pub fn lower_with_sources(program: &ast::Program, tables: &[crate::sources::LoadedTable]) -> (r: Result<
    ir::Program,
    Vec<Error>,
>)
    ensures
        r matches Ok(p) ==> spec_lowered(p),
        r matches Ok(p) ==> spec_lowered_from(p, *program, tables@),
        r matches Ok(p) ==> spec_imports_lowered(p, *program, tables@),
        r matches Err(es) ==> es@.len() > 0 && all_semantic(es@),
        spec_fact_program(*program) ==> (r matches Ok(p) && spec_facts_lowered(p, *program)),
        r matches Ok(p) ==> spec_rules_lowered(p.rules@, program.statements@, p.predicates@),
        spec_plain_program(*program) ==> exists|rules: Seq<ir::Rule>, preds: Seq<ir::PredicateInfo>|
            #[trigger] spec_rules_lowered(rules, program.statements@, preds) && spec_plain_outcome(
                r,
                spec_reports_upto(rules, spec_rule_clauses(program.statements@), rules.len() as int),
            ),
        r matches Ok(p) ==> forall|k: int|
            0 <= k < p.imports@.len() && k < tables@.len() && (#[trigger] spec_schemaless_imports(
                program.statements@,
            )[k]) ==> p.predicates@[p.imports@[k].pred.0 as int].arity == tables@[k].fields@.len() as u32,
{
    let ghost fp = spec_fact_program(*program);
    let mut lowerer = Lowerer::new();
    lowerer.collect_predicates(program, tables);
    proof {
        if fp {
            assert forall|k: int| 0 <= k < program.statements@.len() implies named(
                lowerer.predicates@,
                (#[trigger] spec_fact_of(program.statements@[k])).0,
            ) by {
                assert(statement_collected(lowerer.preds(), program.statements@[k]));
                assert(spec_ground_fact(program.statements@[k]));
            }
        }
    }
    proof {
        if lowerer.errors@.len() == 0 {
            assert forall|k: int| 0 <= k < program.statements@.len() implies statement_named(
                lowerer.predicates@,
                #[trigger] program.statements@[k],
            ) by {
                lemma_collected_named(lowerer.predicates@, program.statements@[k]);
            }
        }
    }
    let ghost p_collected = lowerer.predicates@;
    lowerer.attach_field_names();
    proof {
        if lowerer.errors@.len() == 0 {
            assert forall|k: int| 0 <= k < program.statements@.len() implies statement_named(
                lowerer.predicates@,
                #[trigger] program.statements@[k],
            ) by {
                lemma_named_keep(p_collected, lowerer.predicates@, program.statements@[k]);
            }
        }
    }
    proof {
        if fp {
            assert forall|k: int| 0 <= k < program.statements@.len() implies named(
                lowerer.predicates@,
                (#[trigger] spec_fact_of(program.statements@[k])).0,
            ) by {
                let q = choose|q: int| 0 <= q < p_collected.len() && (#[trigger] p_collected[q]).name@ == spec_fact_of(
                    program.statements@[k],
                ).0;
                assert(lowerer.predicates@[q].name@ == p_collected[q].name@);
            }
        }
    }
    let ghost gp = spec_plain_program(*program);
    let ghost p_attached = lowerer.predicates@;
    let ghost e_attached = lowerer.errors@.len();
    proof {
        if e_attached == 0 {
            assert forall|k: int|
                0 <= k < tables@.len() && 0 <= k < spec_data_imports(program.statements@).len() && (
                #[trigger] spec_schemaless_imports(program.statements@)[k]) implies interned(
                p_attached,
                spec_data_imports(program.statements@)[k].1,
                tables@[k].fields@.len() as u32,
            ) by {
                lemma_names_interned(
                    p_collected,
                    p_attached,
                    spec_data_imports(program.statements@)[k].1,
                    tables@[k].fields@.len() as u32,
                );
            }
        }
    }
    let mut out = ir::Program::new();
    let mut data_import: usize = 0;
    let mut i: usize = 0;
    assert(program.statements@.take(0) =~= Seq::<ast::Statement>::empty());
    proof {
        if gp {
            assert(lowerer.errors@ =~= Seq::<Error>::empty());
            assert(spec_reports_upto(out.rules@, spec_rule_clauses(program.statements@.take(0)), 0) =~= Seq::<
                Seq<char>,
            >::empty());
        }
    }
    while i < program.statements.len()
        invariant
            out_ok(&lowerer, out),
            gp == spec_plain_program(*program),
            keeps_names(p_attached, lowerer.predicates@),
            e_attached <= lowerer.errors@.len(),
            e_attached == 0 ==> forall|k: int|
                0 <= k < tables@.len() && 0 <= k < spec_data_imports(program.statements@).len() && (
                #[trigger] spec_schemaless_imports(program.statements@)[k]) ==> interned(
                    p_attached,
                    spec_data_imports(program.statements@)[k].1,
                    tables@[k].fields@.len() as u32,
                ),
            gp ==> lowerer.predicates@ == p_attached,
            gp ==> forall|k: int|
                0 <= k < program.statements@.len() ==> statement_named(p_attached, #[trigger] program.statements@[k]),
            gp ==> out.rules@.len() == spec_rule_clauses(program.statements@.take(i as int)).len(),
            gp ==> forall|k: int|
                0 <= k < out.rules@.len() ==> spec_rule_is(
                    spec_rule_clauses(program.statements@.take(i as int))[k],
                    #[trigger] out.rules@[k],
                    p_attached,
                ),
            gp ==> forall|r: int, k: int|
                0 <= r < out.rules@.len() && 0 <= k < out.rules@[r].body@.len() ==> (
                #[trigger] out.rules@[r].body@[k]).kind is Atom,
            gp ==> spec_appended(
                Seq::empty(),
                lowerer.errors@,
                spec_reports_upto(
                    out.rules@,
                    spec_rule_clauses(program.statements@.take(i as int)),
                    out.rules@.len() as int,
                ),
            ),
            i <= program.statements@.len(),
            data_import == crate::sources::data_import_count(program.statements@.take(i as int)),
            data_import <= i,
            out.queries@.len() == spec_statement_counts(program.statements@.take(i as int)).2,
            out.imports@.len() == data_import,
            lowerer.errors@.len() == 0 ==> out.rules@.len() == spec_statement_counts(
                program.statements@.take(i as int),
            ).0,
            lowerer.errors@.len() == 0 ==> out.facts@.len() == spec_statement_counts(
                program.statements@.take(i as int),
            ).1 + spec_rows_loaded(tables@, data_import as int),
            out.imports@.len() == spec_data_imports(program.statements@.take(i as int)).len(),
            forall|k: int|
                0 <= k < out.imports@.len() ==> (#[trigger] out.imports@[k]).path@ == spec_data_imports(
                    program.statements@.take(i as int),
                )[k].0,
            lowerer.errors@.len() == 0 ==> forall|k: int|
                0 <= k < out.imports@.len() ==> lowerer.predicates@[(#[trigger] out.imports@[k]).pred.0 as int].name@
                    == spec_data_imports(program.statements@.take(i as int))[k].1,
            lowerer.errors@.len() == 0 ==> forall|k: int, j: int|
                0 <= k < out.imports@.len() && k < tables@.len() && 0 <= j < tables@[k].rows@.len() ==> spec_row_in(
                    out.facts@,
                    (#[trigger] out.imports@[k]).pred,
                    (#[trigger] tables@[k].rows@[j])@,
                ),
            fp == spec_fact_program(*program),
            lowerer.errors@.len() == 0 ==> forall|k: int|
                0 <= k < program.statements@.len() ==> statement_named(
                    lowerer.predicates@,
                    #[trigger] program.statements@[k],
                ),
            lowerer.errors@.len() == 0 ==> spec_rules_lowered(
                out.rules@,
                program.statements@.take(i as int),
                lowerer.predicates@,
            ),
            fp ==> lowerer.errors@.len() == 0 && out.rules@.len() == 0 && out.facts@.len() == i && (forall|k: int|
                0 <= k < program.statements@.len() ==> named(
                    lowerer.predicates@,
                    (#[trigger] spec_fact_of(program.statements@[k])).0,
                )) && forall|k: int|
                0 <= k < i ==> spec_fact_is(
                    lowerer.predicates@,
                    #[trigger] out.facts@[k],
                    spec_fact_of(program.statements@[k]).0,
                    spec_fact_of(program.statements@[k]).1,
                ),
        decreases program.statements.len() - i,
    {
        let statement = &program.statements[i];
        let ghost out_before = out;
        let ghost preds_before = lowerer.predicates@;
        assert(program.statements@.take(i + 1).drop_last() =~= program.statements@.take(i as int));
        assert(program.statements@.take(i + 1).last() == program.statements@[i as int]);
        match &statement.kind {
            ast::StatementKind::Import(import) => {
                match &import.kind {
                    ast::ImportKind::Module => {
                        let m = cat(
                            &["module import \"", import.path.as_str(), "\" must be resolved before lowering"],
                        );
                        lowerer.err(m);
                    },
                    ast::ImportKind::Std { .. } => {},
                    ast::ImportKind::Data { relation, .. } => {
                        let ghost n0 = lowerer.predicates@.len();
                        let ghost e0 = lowerer.errors@.len();
                        let pred = lowerer.pred_id(relation.name.as_str());
                        proof {
                            lemma_in_range_mono(out, n0, lowerer.predicates@.len());
                        }
                        let ghost before = out;
                        out.imports.push(ir::ImportSpec { pred, path: to_owned(import.path.as_str()), span: statement.span });
                        proof {
                            assert forall|k: int| 0 <= k < out.imports@.len() implies ((#[trigger] out.imports@[k]).pred.0
                                as int) < lowerer.predicates@.len() by {
                                if k < out.imports@.len() - 1 {
                                    assert(out.imports@[k] == before.imports@[k]);
                                }
                            }
                        }
                        let ghost imports_after = out.imports;
                        if data_import < tables.len() {
                            let rows = &tables[data_import].rows;
                            let ghost f0 = out.facts@.len();
                            let mut k: usize = 0;
                            while k < rows.len()
                                invariant
                                    out_ok(&lowerer, out),
                                    (pred.0 as int) < lowerer.predicates@.len(),
                                    k <= rows@.len(),
                                    rows == tables@[data_import as int].rows,
                                    out.facts@.len() == f0 + k,
                                    out.rules == before.rules,
                                    out.queries == before.queries,
                                    out.imports@.len() == before.imports@.len() + 1,
                                    out.imports == imports_after,
                                    facts_kept(before.facts@, out.facts@),
                                    forall|j: int| 0 <= j < k ==> spec_row_in(out.facts@, pred, (#[trigger] rows@[j])@),
                                decreases rows.len() - k,
                            {
                                let ghost b2 = out;
                                out.facts.push(ir::Fact { pred, tuple: ir::Tuple(copy_row(&rows[k])) });
                                proof {
                                    assert forall|f: int| 0 <= f < out.facts@.len() implies ((#[trigger] out.facts@[f]).pred.0
                                        as int) < lowerer.predicates@.len() by {
                                        if f < out.facts@.len() - 1 {
                                            assert(out.facts@[f] == b2.facts@[f]);
                                        }
                                    }
                                    assert forall|f: int| 0 <= f < before.facts@.len() implies #[trigger] out.facts@[f]
                                        == before.facts@[f] by {
                                        assert(out.facts@[f] == b2.facts@[f]);
                                    }
                                    assert forall|j: int| 0 <= j < k + 1 implies spec_row_in(
                                        out.facts@,
                                        pred,
                                        (#[trigger] rows@[j])@,
                                    ) by {
                                        if j < k {
                                            assert(facts_kept(b2.facts@, out.facts@)) by {
                                                assert forall|f: int| 0 <= f < b2.facts@.len() implies #[trigger] out.facts@[f]
                                                    == b2.facts@[f] by {}
                                            }
                                            lemma_row_kept(b2.facts@, out.facts@, pred, rows@[j]@);
                                        } else {
                                            let f = out.facts@.len() - 1;
                                            assert(out.facts@[f].pred == pred);
                                            assert(spec_same_row(out.facts@[f].tuple.0@, rows@[j]@));
                                        }
                                    }
                                }
                                k += 1;
                            }
                        }
                        proof {
                            let di = spec_data_imports(program.statements@.take(i + 1));
                            let di0 = spec_data_imports(program.statements@.take(i as int));
                            assert(di =~= di0 + seq![(import.path@, relation.name@)]);
                            assert(out.imports@.last().pred == pred);
                        }
                        assert(data_import < usize::MAX);
                        data_import += 1;
                    },
                }
            },
            ast::StatementKind::Declare(_) => {},
            ast::StatementKind::Clause(clause) => {
                let ghost errors_before = lowerer.errors@;
                proof {
                    if gp {
                        assert(statement_named(p_attached, program.statements@[i as int]));
                        assert(spec_plain_clause(program.statements@[i as int]));
                        assert(spec_clause_small(program.statements@[i as int]));
                    }
                    if clause.body@.len() > 0 && spec_rule_shape(*clause) && (lowerer.errors@.len() == 0 || gp) {
                        assert(statement_named(lowerer.predicates@, program.statements@[i as int]));
                        assert forall|k: int| 0 <= k < clause.body@.len() implies spec_body_atom(
                            #[trigger] clause.body@[k],
                            lowerer.predicates@,
                        ) by {
                            assert(spec_body_shape(clause.body@[k]));
                            assert(literal_named(lowerer.predicates@, clause.body@[k]));
                        }
                        assert(spec_simple_rule(*clause, lowerer.predicates@));
                    }
                    if fp {
                        assert(spec_ground_fact(program.statements@[i as int]));
                        assert(named(lowerer.predicates@, spec_fact_of(program.statements@[i as int]).0));
                    }
                }
                lowerer.lower_clause(clause, &mut out);
                proof {
                    if gp {
                        lemma_plain_clause_step(
                            *program,
                            i as int,
                            p_attached,
                            out_before.rules@,
                            out.rules@,
                            errors_before,
                            lowerer.errors@,
                        );
                    }
                }
            },
            ast::StatementKind::Query(query) => lowerer.lower_query(query, &mut out),
        }
        proof {
            if lowerer.errors@.len() == 0 {
                assert forall|k: int| 0 <= k < program.statements@.len() implies statement_named(
                    lowerer.predicates@,
                    #[trigger] program.statements@[k],
                ) by {
                    lemma_named_keep(preds_before, lowerer.predicates@, program.statements@[k]);
                }
                lemma_rule_clauses_count(program.statements@.take(i as int));
                lemma_rule_clauses_count(program.statements@.take(i + 1));
                let rc0 = spec_rule_clauses(program.statements@.take(i as int));
                let rc1 = spec_rule_clauses(program.statements@.take(i + 1));
                assert forall|k: int| 0 <= k < rc1.len() && spec_rule_shape(#[trigger] rc1[k]) implies spec_rule_is(
                    rc1[k],
                    out.rules@[k],
                    lowerer.predicates@,
                ) by {
                    if k < rc0.len() {
                        assert(rc1[k] == rc0[k]);
                        assert(out.rules@[k] == out_before.rules@[k]);
                        lemma_rule_is_keep(rc0[k], out.rules@[k], preds_before, lowerer.predicates@);
                    }
                }
            }
        }
        proof {
            if fp {
                assert(spec_ground_fact(program.statements@[i as int]));
                assert forall|k: int| 0 <= k < i + 1 implies spec_fact_is(
                    lowerer.predicates@,
                    #[trigger] out.facts@[k],
                    spec_fact_of(program.statements@[k]).0,
                    spec_fact_of(program.statements@[k]).1,
                ) by {
                    if k < i {
                        assert(out.facts@[k] == out_before.facts@[k]);
                    }
                }
            }
        }
        proof {
            lemma_keeps_names_trans(p_attached, preds_before, lowerer.predicates@);
            if gp {
                assert(spec_plain_clause(program.statements@[i as int]));
            }
            let di = spec_data_imports(program.statements@.take(i + 1));
            let di0 = spec_data_imports(program.statements@.take(i as int));
            if !is_data_import(program.statements@[i as int]) {
                assert(di =~= di0);
                assert(out.imports == out_before.imports);
            }
            assert forall|k: int| 0 <= k < out_before.imports@.len() implies #[trigger] out.imports@[k]
                == out_before.imports@[k] by {}
            if lowerer.errors@.len() == 0 {
                assert forall|k: int, j: int|
                    0 <= k < out.imports@.len() && k < tables@.len() && 0 <= j < tables@[k].rows@.len() implies spec_row_in(
                    out.facts@,
                    (#[trigger] out.imports@[k]).pred,
                    (#[trigger] tables@[k].rows@[j])@,
                ) by {
                    if k < out_before.imports@.len() {
                        lemma_row_kept(out_before.facts@, out.facts@, out.imports@[k].pred, tables@[k].rows@[j]@);
                    }
                }
            }
        }
        i += 1;
    }
    assert(program.statements@.take(i as int) =~= program.statements@);
    let ghost counted = out;
    let ghost interned = lowerer.predicates@;
    let ghost reports = spec_reports_upto(
        out.rules@,
        spec_rule_clauses(program.statements@),
        out.rules@.len() as int,
    );
    proof {
        if gp {
            lemma_rule_clauses_bound(program.statements@);
            lemma_rules_positive(out.rules@);
        }
    }
    std::mem::swap(&mut out.predicates, &mut lowerer.predicates);
    assert(out.predicates@ == interned);
    if out.rules.len() > 0xffff_ffff {
        lowerer.errors.push(Error::semantic(to_owned("too many rules to stratify")));
    } else {
        match stratify(&out.rules, &out.predicates) {
            Ok(strata) => {
                out.strata = strata;
            },
            Err(e) => {
                lowerer.errors.push(e);
            },
        }
    }
    proof {
        if gp {
            assert(spec_rules_lowered(counted.rules@, program.statements@, p_attached));
            assert forall|x: int| 0 <= x < reports.len() implies (#[trigger] lowerer.errors@[x]).message@
                == reports[x] by {
                assert(lowerer.errors@[Seq::<Error>::empty().len() + x] == lowerer.errors@[x]);
            }
        }
    }
    if lowerer.errors.len() == 0 {
        assert(out.rules == counted.rules && out.facts == counted.facts && out.queries == counted.queries
            && out.imports == counted.imports);
        proof {
            if gp {
                assert(spec_plain_outcome(Ok(out), reports));
            }
            let ss = program.statements@;
            lemma_schemaless_len(ss);
            assert forall|k: int|
                0 <= k < out.imports@.len() && k < tables@.len() && (#[trigger] spec_schemaless_imports(ss)[k]) implies out.predicates@[out.imports@[k].pred.0 as int].arity
                == tables@[k].fields@.len() as u32 by {
                let name = spec_data_imports(ss)[k].1;
                let n = tables@[k].fields@.len() as u32;
                lemma_names_interned(p_attached, out.predicates@, name, n);
                let q = choose|q: int| 0 <= q < out.predicates@.len() && (#[trigger] out.predicates@[q]).name@ == name
                    && out.predicates@[q].arity == n;
                let id = out.imports@[k].pred.0 as int;
                assert(out.predicates@[id].name@ == name);
                assert(q == id);
            }
        }
        Ok(out)
    } else {
        proof {
            if gp {
                assert(spec_plain_outcome(Err(lowerer.errors), reports));
            }
        }
        Err(lowerer.errors)
    }
}

/// Lowers a surface program with no data loaded: data imports contribute no
/// facts, and a schema-less import gets its arity from its use sites.
pub fn lower(program: &ast::Program) -> (r: Result<ir::Program, Vec<Error>>)
    ensures
        r matches Ok(p) ==> spec_lowered(p),
        r matches Ok(p) ==> spec_lowered_from(p, *program, Seq::empty()),
        r matches Ok(p) ==> p.facts@.len() == spec_statement_counts(program.statements@).1,
        r matches Ok(p) ==> spec_imports_lowered(p, *program, Seq::empty()),
        r matches Err(es) ==> es@.len() > 0 && all_semantic(es@),
        spec_fact_program(*program) ==> (r matches Ok(p) && spec_facts_lowered(p, *program)),
        r matches Ok(p) ==> spec_rules_lowered(p.rules@, program.statements@, p.predicates@),
        spec_plain_program(*program) ==> exists|rules: Seq<ir::Rule>, preds: Seq<ir::PredicateInfo>|
            #[trigger] spec_rules_lowered(rules, program.statements@, preds) && spec_plain_outcome(
                r,
                spec_reports_upto(rules, spec_rule_clauses(program.statements@), rules.len() as int),
            ),
{
    let tables: Vec<crate::sources::LoadedTable> = Vec::new();
    proof {
        lemma_no_rows_loaded(tables@, crate::sources::data_import_count(program.statements@) as int);
    }
    lower_with_sources(program, tables.as_slice())
}

proof fn lemma_no_rows_loaded(tables: Seq<crate::sources::LoadedTable>, n: int)
    requires
        tables.len() == 0,
    ensures
        spec_rows_loaded(tables, n) == 0,
    decreases n,
{
    if n > 0 {
        lemma_no_rows_loaded(tables, n - 1);
    }
}

// --- The undefined-predicate lint ---

/// Levenshtein edit distance over characters.
pub open spec fn spec_lev(a: Seq<char>, b: Seq<char>) -> nat
    decreases a.len() + b.len(),
{
    if a.len() == 0 {
        b.len()
    } else if b.len() == 0 {
        a.len()
    } else {
        let x = spec_lev(a.drop_last(), b) + 1;
        let y = spec_lev(a, b.drop_last()) + 1;
        let z = spec_lev(a.drop_last(), b.drop_last()) + if a.last() == b.last() {
            0nat
        } else {
            1nat
        };
        spec_min3(x, y, z)
    }
}

pub open spec fn spec_min3(x: nat, y: nat, z: nat) -> nat {
    if x <= y && x <= z {
        x
    } else if y <= z {
        y
    } else {
        z
    }
}

proof fn lemma_lev_bound(a: Seq<char>, b: Seq<char>)
    ensures
        spec_lev(a, b) <= if a.len() >= b.len() {
            a.len()
        } else {
            b.len()
        },
    decreases a.len() + b.len(),
{
    if a.len() > 0 && b.len() > 0 {
        lemma_lev_bound(a.drop_last(), b.drop_last());
    }
}

fn min3(x: usize, y: usize, z: usize) -> (r: usize)
    ensures
        r == spec_min3(x as nat, y as nat, z as nat),
{
    if x <= y && x <= z {
        x
    } else if y <= z {
        y
    } else {
        z
    }
}

/// The edit distance between two character sequences (two-row dynamic
/// programming).
fn edit_distance(a: &[char], b: &[char]) -> (r: usize)
    requires
        a@.len() < usize::MAX,
        b@.len() < usize::MAX,
    ensures
        r == spec_lev(a@, b@),
{
    let n = a.len();
    let m = b.len();
    let mut prev: Vec<usize> = Vec::new();
    let mut j: usize = 0;
    while j <= m
        invariant
            j <= m + 1,
            m == b@.len() < usize::MAX,
            prev@.len() == j,
            forall|k: int| 0 <= k < j ==> (#[trigger] prev@[k]) == spec_lev(a@.take(0), b@.take(k)),
        decreases m + 1 - j,
    {
        proof {
            assert(a@.take(0).len() == 0);
            assert(b@.take(j as int).len() == j);
        }
        prev.push(j);
        j += 1;
    }
    let mut i: usize = 0;
    while i < n
        invariant
            i <= n,
            n == a@.len() < usize::MAX,
            m == b@.len() < usize::MAX,
            prev@.len() == m + 1,
            forall|k: int| 0 <= k <= m ==> (#[trigger] prev@[k]) == spec_lev(a@.take(i as int), b@.take(k)),
        decreases n - i,
    {
        let mut curr: Vec<usize> = Vec::new();
        proof {
            assert(b@.take(0).len() == 0);
            assert(a@.take(i + 1).len() == i + 1);
        }
        curr.push(i + 1);
        let mut j: usize = 0;
        while j < m
            invariant
                i < n,
                j <= m,
                n == a@.len() < usize::MAX,
                m == b@.len() < usize::MAX,
                prev@.len() == m + 1,
                forall|k: int| 0 <= k <= m ==> (#[trigger] prev@[k]) == spec_lev(a@.take(i as int), b@.take(k)),
                curr@.len() == j + 1,
                forall|k: int| 0 <= k <= j ==> (#[trigger] curr@[k]) == spec_lev(a@.take(i + 1), b@.take(k)),
            decreases m - j,
        {
            let cost: usize = if a[i] != b[j] {
                1
            } else {
                0
            };
            proof {
                lemma_lev_bound(a@.take(i as int), b@.take(j + 1));
                lemma_lev_bound(a@.take(i + 1), b@.take(j as int));
                lemma_lev_bound(a@.take(i as int), b@.take(j as int));
            }
            let x = prev[j + 1] + 1;
            let y = curr[j] + 1;
            let z = prev[j] + cost;
            let v = min3(x, y, z);
            proof {
                let aa = a@.take(i + 1);
                let bb = b@.take(j + 1);
                assert(aa.drop_last() =~= a@.take(i as int));
                assert(bb.drop_last() =~= b@.take(j as int));
                assert(aa.last() == a@[i as int]);
                assert(bb.last() == b@[j as int]);
                assert(v == spec_lev(aa, bb));
            }
            curr.push(v);
            j += 1;
        }
        prev = curr;
        i += 1;
    }
    proof {
        assert(a@.take(n as int) =~= a@);
        assert(b@.take(m as int) =~= b@);
    }
    prev[m]
}

/// The edit distance between two names, counted in characters.
pub fn levenshtein(a: &str, b: &str) -> (r: usize)
    ensures
        a@.len() < usize::MAX && b@.len() < usize::MAX ==> r == spec_lev(a@, b@),
{
    let va = crate::text::chars_of(a);
    let vb = crate::text::chars_of(b);
    if va.len() < usize::MAX && vb.len() < usize::MAX {
        edit_distance(va.as_slice(), vb.as_slice())
    } else {
        usize::MAX
    }
}

/// Lexicographic order on character sequences (what `str`'s order is).
pub open spec fn spec_str_lt(a: Seq<char>, b: Seq<char>) -> bool
    decreases a.len(),
{
    if a.len() == 0 {
        b.len() > 0
    } else if b.len() == 0 {
        false
    } else if a[0] != b[0] {
        a[0] < b[0]
    } else {
        spec_str_lt(a.drop_first(), b.drop_first())
    }
}

pub(crate) fn str_lt(a: &[char], b: &[char]) -> (r: bool)
    ensures
        r == spec_str_lt(a@, b@),
{
    let mut i: usize = 0;
    assert(a@.skip(0) =~= a@);
    assert(b@.skip(0) =~= b@);
    while i < a.len() && i < b.len()
        invariant
            i <= a@.len(),
            i <= b@.len(),
            spec_str_lt(a@, b@) == spec_str_lt(a@.skip(i as int), b@.skip(i as int)),
        decreases a.len() - i,
    {
        if a[i] != b[i] {
            proof {
                assert(a@.skip(i as int)[0] == a@[i as int]);
                assert(b@.skip(i as int)[0] == b@[i as int]);
            }
            return a[i] < b[i];
        }
        proof {
            assert(a@.skip(i as int).drop_first() =~= a@.skip(i + 1));
            assert(b@.skip(i as int).drop_first() =~= b@.skip(i + 1));
            assert(a@.skip(i as int)[0] == a@[i as int]);
            assert(b@.skip(i as int)[0] == b@[i as int]);
        }
        i += 1;
    }
    i == a.len() && i < b.len()
}

/// The order suggestions are ranked by: distance, then a matching arity
/// first, then name.
pub open spec fn spec_key_lt(d1: nat, w1: bool, n1: Seq<char>, d2: nat, w2: bool, n2: Seq<char>) -> bool {
    d1 < d2 || (d1 == d2 && ((!w1 && w2) || (w1 == w2 && spec_str_lt(n1, n2))))
}

pub proof fn lemma_str_lt_irrefl(a: Seq<char>)
    ensures
        !spec_str_lt(a, a),
    decreases a.len(),
{
    if a.len() > 0 {
        lemma_str_lt_irrefl(a.drop_first());
    }
}

pub proof fn lemma_str_lt_trans(a: Seq<char>, b: Seq<char>, c: Seq<char>)
    requires
        spec_str_lt(a, b),
        spec_str_lt(b, c),
    ensures
        spec_str_lt(a, c),
    decreases a.len(),
{
    if a.len() > 0 && b.len() > 0 && c.len() > 0 && a[0] == b[0] && b[0] == c[0] {
        lemma_str_lt_trans(a.drop_first(), b.drop_first(), c.drop_first());
    }
}

/// Two different texts are ordered one way or the other.
pub proof fn lemma_str_lt_total(a: Seq<char>, b: Seq<char>)
    requires
        a != b,
    ensures
        spec_str_lt(a, b) || spec_str_lt(b, a),
    decreases a.len(),
{
    if a.len() > 0 && b.len() > 0 {
        if a[0] == b[0] {
            if a.drop_first() == b.drop_first() {
                assert(a =~= seq![a[0]] + a.drop_first());
                assert(b =~= seq![b[0]] + b.drop_first());
            }
            lemma_str_lt_total(a.drop_first(), b.drop_first());
        }
    } else if a.len() == 0 && b.len() == 0 {
        assert(a =~= b);
    }
}

proof fn lemma_key_irrefl(d: nat, w: bool, n: Seq<char>)
    ensures
        !spec_key_lt(d, w, n, d, w, n),
{
    lemma_str_lt_irrefl(n);
}

proof fn lemma_key_trans(
    d1: nat,
    w1: bool,
    n1: Seq<char>,
    d2: nat,
    w2: bool,
    n2: Seq<char>,
    d3: nat,
    w3: bool,
    n3: Seq<char>,
)
    requires
        spec_key_lt(d1, w1, n1, d2, w2, n2),
        spec_key_lt(d2, w2, n2, d3, w3, n3),
    ensures
        spec_key_lt(d1, w1, n1, d3, w3, n3),
{
    if d1 == d2 && d2 == d3 && w1 == w2 && w2 == w3 {
        lemma_str_lt_trans(n1, n2, n3);
    }
}

/// Whether predicate `id` is a candidate suggestion for `target`: defined,
/// and within edit distance 1 or 2.
pub open spec fn spec_candidate(p: ir::Program, defined: Seq<u32>, target: Seq<char>, k: int) -> bool {
    &&& 0 <= k < defined.len()
    &&& 1 <= spec_lev(target, p.predicates@[defined[k] as int].name@) <= 2
}

/// The suggestion for an undefined predicate: the defined predicate nearest
/// by edit distance, within distance 2, a matching arity breaking a tie in
/// distance and the name breaking a tie beyond that; none when no defined
/// predicate is that close.
fn nearest_defined(target: &str, arity: u32, defined: &Vec<u32>, program: &ir::Program) -> (r: Option<String>)
    requires
        forall|k: int| 0 <= k < defined@.len() ==> ((#[trigger] defined@[k]) as int) < program.predicates@.len(),
        target@.len() < usize::MAX,
        forall|i: int| 0 <= i < program.predicates@.len() ==> (#[trigger] program.predicates@[i]).name@.len() < usize::MAX,
    ensures
        r is None <==> forall|k: int| 0 <= k < defined@.len() ==> !spec_candidate(*program, defined@, target@, k),
        r matches Some(name) ==> exists|k: int| #[trigger] spec_candidate(*program, defined@, target@, k)
            && program.predicates@[defined@[k] as int].name@ == name@ && forall|k2: int|
            spec_candidate(*program, defined@, target@, k2) ==> !spec_key_lt(
                spec_lev(target@, program.predicates@[defined@[k2] as int].name@),
                program.predicates@[defined@[k2] as int].arity != arity,
                program.predicates@[defined@[k2] as int].name@,
                spec_lev(target@, name@),
                program.predicates@[defined@[k] as int].arity != arity,
                name@,
            ),
{
    let mut best: Option<usize> = None;
    let mut best_d: usize = 0;
    let mut i: usize = 0;
    while i < defined.len()
        invariant
            i <= defined@.len(),
            forall|k: int| 0 <= k < defined@.len() ==> ((#[trigger] defined@[k]) as int) < program.predicates@.len(),
            target@.len() < usize::MAX,
            forall|q: int| 0 <= q < program.predicates@.len() ==> (#[trigger] program.predicates@[q]).name@.len() < usize::MAX,
            best is None ==> forall|k: int| 0 <= k < i ==> !spec_candidate(*program, defined@, target@, k),
            best matches Some(b) ==> b < i && spec_candidate(*program, defined@, target@, b as int) && best_d == spec_lev(
                target@,
                program.predicates@[defined@[b as int] as int].name@,
            ) && forall|k2: int|
                0 <= k2 < i && spec_candidate(*program, defined@, target@, k2) ==> !spec_key_lt(
                    spec_lev(target@, program.predicates@[defined@[k2] as int].name@),
                    program.predicates@[defined@[k2] as int].arity != arity,
                    program.predicates@[defined@[k2] as int].name@,
                    best_d as nat,
                    program.predicates@[defined@[b as int] as int].arity != arity,
                    program.predicates@[defined@[b as int] as int].name@,
                ),
        decreases defined.len() - i,
    {
        let info = &program.predicates[defined[i] as usize];
        let d = levenshtein(target, info.name.as_str());
        if 1 <= d && d <= 2 {
            let better = match best {
                None => true,
                Some(b) => {
                    let binfo = &program.predicates[defined[b] as usize];
                    let w1 = info.arity != arity;
                    let w2 = binfo.arity != arity;
                    let n1 = crate::text::chars_of(info.name.as_str());
                    let n2 = crate::text::chars_of(binfo.name.as_str());
                    d < best_d || (d == best_d && ((!w1 && w2) || (w1 == w2 && str_lt(n1.as_slice(), n2.as_slice()))))
                },
            };
            if better {
                proof {
                    let ni = program.predicates@[defined@[i as int] as int].name@;
                    let wi = program.predicates@[defined@[i as int] as int].arity != arity;
                    lemma_key_irrefl(d as nat, wi, ni);
                    match best {
                        Some(b) => {
                            let nb = program.predicates@[defined@[b as int] as int].name@;
                            let wb = program.predicates@[defined@[b as int] as int].arity != arity;
                            assert(spec_key_lt(d as nat, wi, ni, best_d as nat, wb, nb));
                            assert forall|k2: int|
                                0 <= k2 < i && spec_candidate(*program, defined@, target@, k2) implies !spec_key_lt(
                                spec_lev(target@, program.predicates@[defined@[k2] as int].name@),
                                program.predicates@[defined@[k2] as int].arity != arity,
                                program.predicates@[defined@[k2] as int].name@,
                                d as nat,
                                wi,
                                ni,
                            ) by {
                                let n2 = program.predicates@[defined@[k2] as int].name@;
                                let w2 = program.predicates@[defined@[k2] as int].arity != arity;
                                let d2 = spec_lev(target@, n2);
                                if spec_key_lt(d2, w2, n2, d as nat, wi, ni) {
                                    lemma_key_trans(d2, w2, n2, d as nat, wi, ni, best_d as nat, wb, nb);
                                }
                            }
                        },
                        None => {},
                    }
                }
                best = Some(i);
                best_d = d;
            }
        }
        i += 1;
    }
    match best {
        Some(b) => Some(to_owned(program.predicates[defined[b] as usize].name.as_str())),
        None => None,
    }
}

/// The predicates a body's atoms name, in body order, an aggregate's goal in
/// its place.
pub open spec fn spec_lit_refs(l: ir::BodyLiteral) -> Seq<ir::PredId>
    decreases l,
{
    match l.kind {
        ir::BodyLiteralKind::Atom(a) => seq![a.pred],
        ir::BodyLiteralKind::NegAtom(a) => seq![a.pred],
        ir::BodyLiteralKind::Aggregate { goal, .. } => spec_body_refs(goal@),
        _ => seq![],
    }
}

pub open spec fn spec_body_refs(ls: Seq<ir::BodyLiteral>) -> Seq<ir::PredId>
    decreases ls,
{
    if ls.len() == 0 {
        seq![]
    } else {
        spec_body_refs(ls.drop_last()) + spec_lit_refs(ls.last())
    }
}

/// `acc` extended by each of `xs` not already in it, in order.
pub open spec fn spec_add_new(acc: Seq<ir::PredId>, xs: Seq<ir::PredId>) -> Seq<ir::PredId>
    decreases xs.len(),
{
    if xs.len() == 0 {
        acc
    } else {
        let a = spec_add_new(acc, xs.drop_last());
        if a.contains(xs.last()) {
            a
        } else {
            a.push(xs.last())
        }
    }
}

proof fn lemma_add_new_concat(acc: Seq<ir::PredId>, xs: Seq<ir::PredId>, ys: Seq<ir::PredId>)
    ensures
        spec_add_new(spec_add_new(acc, xs), ys) == spec_add_new(acc, xs + ys),
    decreases ys.len(),
{
    if ys.len() == 0 {
        assert(xs + ys =~= xs);
    } else {
        lemma_add_new_concat(acc, xs, ys.drop_last());
        assert((xs + ys).drop_last() =~= xs + ys.drop_last());
        assert((xs + ys).last() == ys.last());
    }
}

/// All references of the rules' bodies, then of the queries' bodies.
pub open spec fn spec_rules_refs(rules: Seq<ir::Rule>) -> Seq<ir::PredId>
    decreases rules.len(),
{
    if rules.len() == 0 {
        seq![]
    } else {
        spec_rules_refs(rules.drop_last()) + spec_body_refs(rules.last().body@)
    }
}

pub open spec fn spec_queries_refs(queries: Seq<ir::Query>) -> Seq<ir::PredId>
    decreases queries.len(),
{
    if queries.len() == 0 {
        seq![]
    } else {
        spec_queries_refs(queries.drop_last()) + spec_body_refs(queries.last().body@)
    }
}

/// The referenced predicates in order of first appearance.
pub open spec fn spec_referenced(p: ir::Program) -> Seq<ir::PredId> {
    spec_add_new(Seq::empty(), spec_rules_refs(p.rules@) + spec_queries_refs(p.queries@))
}

/// A predicate is defined by a fact, a rule head or an import.
pub open spec fn spec_defined(p: ir::Program, q: ir::PredId) -> bool {
    ||| exists|f: int| 0 <= f < p.facts@.len() && (#[trigger] p.facts@[f]).pred == q
    ||| exists|r: int| 0 <= r < p.rules@.len() && (#[trigger] p.rules@[r]).head.pred == q
    ||| exists|i: int| 0 <= i < p.imports@.len() && (#[trigger] p.imports@[i]).pred == q
}

/// The referenced predicates that nothing defines, in order.
pub open spec fn spec_undefined_among(p: ir::Program, refs: Seq<ir::PredId>) -> Seq<ir::PredId>
    decreases refs.len(),
{
    if refs.len() == 0 {
        seq![]
    } else {
        spec_undefined_among(p, refs.drop_last()) + if spec_defined(p, refs.last()) {
            Seq::<ir::PredId>::empty()
        } else {
            seq![refs.last()]
        }
    }
}

/// Appends each predicate a body references that `seen` does not mark yet.
fn collect_body_refs(body: &Vec<ir::BodyLiteral>, referenced: &mut Vec<ir::PredId>, seen: &mut Vec<bool>)
    requires
        forall|k: int| 0 <= k < old(seen)@.len() ==> ((#[trigger] old(seen)@[k]) <==> old(referenced)@.contains(ir::PredId(k as u32))),
        forall|k: int| 0 <= k < old(referenced)@.len() ==> ((#[trigger] old(referenced)@[k]).0 as int) < old(seen)@.len(),
        old(seen)@.len() <= u32::MAX,
        spec_lits_preds_ok(body@, old(seen)@.len()),
    ensures
        final(seen)@.len() == old(seen)@.len(),
        forall|k: int| 0 <= k < final(seen)@.len() ==> ((#[trigger] final(seen)@[k]) <==> final(referenced)@.contains(ir::PredId(k as u32))),
        forall|k: int| 0 <= k < final(referenced)@.len() ==> ((#[trigger] final(referenced)@[k]).0 as int) < final(seen)@.len(),
        final(referenced)@ == spec_add_new(old(referenced)@, spec_body_refs(body@)),
    decreases body,
{
    let ghost start = referenced@;
    let ghost n = seen@.len();
    let mut i: usize = 0;
    while i < body.len()
        invariant
            i <= body@.len(),
            seen@.len() == n <= u32::MAX,
            spec_lits_preds_ok(body@, n),
            forall|k: int| 0 <= k < seen@.len() ==> ((#[trigger] seen@[k]) <==> referenced@.contains(ir::PredId(k as u32))),
            forall|k: int| 0 <= k < referenced@.len() ==> ((#[trigger] referenced@[k]).0 as int) < seen@.len(),
            referenced@ == spec_add_new(start, spec_body_refs(body@.take(i as int))),
        decreases body.len() - i,
    {
        let ghost before = referenced@;
        proof {
            lemma_lits_index(body@, n, i as int);
            let t = body@.take(i + 1);
            assert(t.drop_last() =~= body@.take(i as int));
            assert(t.last() == body@[i as int]);
            lemma_add_new_concat(start, spec_body_refs(body@.take(i as int)), spec_lit_refs(body@[i as int]));
        }
        let pred = match &body[i].kind {
            ir::BodyLiteralKind::Atom(a) => Some(a.pred),
            ir::BodyLiteralKind::NegAtom(a) => Some(a.pred),
            ir::BodyLiteralKind::Aggregate { goal, .. } => {
                assert(decreases_to!(body => body@[i as int]));
                collect_body_refs(goal, referenced, seen);
                None
            },
            _ => None,
        };
        match pred {
            Some(q) => {
                let x = q.0 as usize;
                proof {
                    assert(spec_lit_refs(body@[i as int]) == seq![q]);
                    assert(spec_add_new(before, seq![q]) == (if before.contains(q) { before } else { before.push(q) })) by {
                        assert(seq![q].drop_last() =~= Seq::<ir::PredId>::empty());
                        assert(spec_add_new(before, Seq::<ir::PredId>::empty()) == before);
                    }
                    assert(ir::PredId(x as u32) == q);
                }
                if !seen[x] {
                    seen.set(x, true);
                    referenced.push(q);
                    proof {
                        assert forall|k: int| 0 <= k < seen@.len() implies ((#[trigger] seen@[k]) <==> referenced@.contains(ir::PredId(k as u32))) by {
                            if k != x {
                                assert(ir::PredId(k as u32) != q);
                                if before.contains(ir::PredId(k as u32)) {
                                    let w = choose|w: int| 0 <= w < before.len() && before[w] == ir::PredId(k as u32);
                                    assert(referenced@[w] == before[w]);
                                }
                                if referenced@.contains(ir::PredId(k as u32)) {
                                    let w = choose|w: int| 0 <= w < referenced@.len() && referenced@[w] == ir::PredId(k as u32);
                                    if w < before.len() {
                                        assert(before[w] == referenced@[w]);
                                    }
                                }
                            } else {
                                assert(referenced@[referenced@.len() - 1] == q);
                            }
                        }
                    }
                } else {
                    assert(before.contains(q));
                }
            },
            None => {
                proof {
                    match body@[i as int].kind {
                        ir::BodyLiteralKind::Aggregate { .. } => {},
                        ir::BodyLiteralKind::Atom(_) => {},
                        ir::BodyLiteralKind::NegAtom(_) => {},
                        _ => {
                            assert(spec_lit_refs(body@[i as int]) =~= Seq::<ir::PredId>::empty());
                            assert(spec_add_new(before, Seq::<ir::PredId>::empty()) == before);
                        },
                    }
                }
            },
        }
        i += 1;
    }
    assert(body@.take(body@.len() as int) =~= body@);
}

/// Predicate `q` is a possible suggestion for `target`: defined, and within
/// edit distance 1 or 2.
pub open spec fn spec_suggestable(p: ir::Program, target: Seq<char>, q: int) -> bool {
    &&& 0 <= q < p.predicates@.len()
    &&& spec_defined(p, ir::PredId(q as u32))
    &&& 1 <= spec_lev(target, p.predicates@[q].name@) <= 2
}

/// The suggestion for an undefined predicate is the best possible one by
/// distance, then matching arity, then name; none when nothing is close.
pub open spec fn spec_suggestion(p: ir::Program, target: Seq<char>, arity: u32, s: Option<String>) -> bool {
    match s {
        None => forall|q: int| !#[trigger] spec_suggestable(p, target, q),
        Some(name) => exists|q: int|
            #[trigger] spec_suggestable(p, target, q) && p.predicates@[q].name@ == name@ && forall|q2: int|
                #[trigger] spec_suggestable(p, target, q2) ==> !spec_key_lt(
                    spec_lev(target, p.predicates@[q2].name@),
                    p.predicates@[q2].arity != arity,
                    p.predicates@[q2].name@,
                    spec_lev(target, name@),
                    p.predicates@[q].arity != arity,
                    name@,
                ),
    }
}

/// What `nearest_defined` computes over the defined list is the suggestion
/// over the program's defined predicates.
proof fn lemma_suggestion(
    p: ir::Program,
    defined: Seq<u32>,
    marks: Seq<bool>,
    target: Seq<char>,
    arity: u32,
    s: Option<String>,
)
    requires
        marks.len() == p.predicates@.len() <= u32::MAX,
        forall|x: int| 0 <= x < marks.len() ==> (#[trigger] marks[x] <==> spec_defined(p, ir::PredId(x as u32))),
        forall|j: int| 0 <= j < defined.len() ==> ((#[trigger] defined[j]) as int) < marks.len() && marks[defined[j] as int],
        forall|x: int| 0 <= x < marks.len() && marks[x] ==> defined.contains(x as u32),
        s is None <==> forall|k: int| 0 <= k < defined.len() ==> !spec_candidate(p, defined, target, k),
        s matches Some(name) ==> exists|k: int| #[trigger] spec_candidate(p, defined, target, k)
            && p.predicates@[defined[k] as int].name@ == name@ && forall|k2: int|
            spec_candidate(p, defined, target, k2) ==> !spec_key_lt(
                spec_lev(target, p.predicates@[defined[k2] as int].name@),
                p.predicates@[defined[k2] as int].arity != arity,
                p.predicates@[defined[k2] as int].name@,
                spec_lev(target, name@),
                p.predicates@[defined[k] as int].arity != arity,
                name@,
            ),
    ensures
        spec_suggestion(p, target, arity, s),
{
    match s {
        None => {
            assert forall|q: int| !#[trigger] spec_suggestable(p, target, q) by {
                if spec_suggestable(p, target, q) {
                    assert(marks[q]);
                    let w = choose|w: int| 0 <= w < defined.len() && defined[w] == q as u32;
                    assert(spec_candidate(p, defined, target, w));
                }
            }
        },
        Some(name) => {
            let k = choose|k: int| #[trigger] spec_candidate(p, defined, target, k)
                && p.predicates@[defined[k] as int].name@ == name@ && forall|k2: int|
                spec_candidate(p, defined, target, k2) ==> !spec_key_lt(
                    spec_lev(target, p.predicates@[defined[k2] as int].name@),
                    p.predicates@[defined[k2] as int].arity != arity,
                    p.predicates@[defined[k2] as int].name@,
                    spec_lev(target, name@),
                    p.predicates@[defined[k] as int].arity != arity,
                    name@,
                );
            let q = defined[k] as int;
            assert(marks[q]);
            assert(spec_suggestable(p, target, q));
            assert forall|q2: int| #[trigger] spec_suggestable(p, target, q2) implies !spec_key_lt(
                spec_lev(target, p.predicates@[q2].name@),
                p.predicates@[q2].arity != arity,
                p.predicates@[q2].name@,
                spec_lev(target, name@),
                p.predicates@[q].arity != arity,
                name@,
            ) by {
                assert(marks[q2]);
                let w = choose|w: int| 0 <= w < defined.len() && defined[w] == q2 as u32;
                assert(spec_candidate(p, defined, target, w));
            }
        },
    }
}

/// Flags every predicate a rule or query body references that nothing
/// defines (no fact, rule head or import). Such a predicate is the empty
/// relation, valid but almost always a typo, so each warning offers the
/// nearest defined name. Warnings come in order of first reference.
pub fn check_program(program: &ir::Program) -> (r: Vec<crate::error::Warning>)
    requires
        spec_in_range(*program, program.predicates@.len()),
        program.predicates@.len() <= u32::MAX,
        forall|i: int| 0 <= i < program.predicates@.len() ==> (#[trigger] program.predicates@[i]).name@.len() < usize::MAX,
    ensures
        r@.len() == spec_undefined_among(*program, spec_referenced(*program)).len(),
        forall|k: int| 0 <= k < r@.len() ==> {
            let q = spec_undefined_among(*program, spec_referenced(*program))[k];
            let info = program.predicates@[q.0 as int];
            &&& (q.0 as int) < program.predicates@.len()
            &&& (#[trigger] r@[k]) matches crate::error::Warning::UndefinedPredicate { name, arity, suggestion }
            &&& name@ == info.name@
            &&& arity == info.arity
            &&& spec_suggestion(*program, name@, arity, suggestion)
        },
{
    let n = program.predicates.len();
    let ghost p = *program;
    let mut marks: Vec<bool> = Vec::new();
    let mut i: usize = 0;
    while i < n
        invariant
            i <= n,
            marks@.len() == i,
            forall|q: int| 0 <= q < i ==> !(#[trigger] marks@[q]),
        decreases n - i,
    {
        marks.push(false);
        i += 1;
    }
    let mut f: usize = 0;
    while f < program.facts.len()
        invariant
            f <= program.facts@.len(),
            n == program.predicates@.len() <= u32::MAX,
            spec_in_range(*program, n as nat),
            marks@.len() == n,
            forall|q: int|
                0 <= q < n ==> ((#[trigger] marks@[q]) <==> exists|x: int| 0 <= x < f && (#[trigger] program.facts@[x]).pred.0 == q),
        decreases program.facts.len() - f,
    {
        let x = program.facts[f].pred.0 as usize;
        marks.set(x, true);
        f += 1;
    }
    assert forall|q: int| 0 <= q < n implies ((#[trigger] marks@[q]) <==> (exists|x: int| 0 <= x < program.facts@.len() && (#[trigger] program.facts@[x]).pred.0 == q)
        || exists|x: int| 0 <= x < 0 && (#[trigger] program.rules@[x]).head.pred.0 == q) by {
        assert(f == program.facts@.len());
    }
    let mut r: usize = 0;
    while r < program.rules.len()
        invariant
            r <= program.rules@.len(),
            n == program.predicates@.len() <= u32::MAX,
            spec_in_range(*program, n as nat),
            marks@.len() == n,
            forall|q: int|
                0 <= q < n ==> ((#[trigger] marks@[q]) <==> (exists|x: int| 0 <= x < program.facts@.len() && (#[trigger] program.facts@[x]).pred.0 == q)
                    || exists|x: int| 0 <= x < r && (#[trigger] program.rules@[x]).head.pred.0 == q),
        decreases program.rules.len() - r,
    {
        assert(spec_rule_preds_ok(program.rules@[r as int], n as nat));
        let x = program.rules[r].head.pred.0 as usize;
        marks.set(x, true);
        r += 1;
    }
    assert forall|q: int| 0 <= q < n implies ((#[trigger] marks@[q]) <==> (exists|x: int| 0 <= x < program.facts@.len() && (#[trigger] program.facts@[x]).pred.0 == q)
        || (exists|x: int| 0 <= x < program.rules@.len() && (#[trigger] program.rules@[x]).head.pred.0 == q)
        || exists|x: int| 0 <= x < 0 && (#[trigger] program.imports@[x]).pred.0 == q) by {
        assert(r == program.rules@.len());
    }
    let mut m: usize = 0;
    while m < program.imports.len()
        invariant
            m <= program.imports@.len(),
            n == program.predicates@.len() <= u32::MAX,
            spec_in_range(*program, n as nat),
            marks@.len() == n,
            forall|q: int|
                0 <= q < n ==> ((#[trigger] marks@[q]) <==> (exists|x: int| 0 <= x < program.facts@.len() && (#[trigger] program.facts@[x]).pred.0 == q)
                    || (exists|x: int| 0 <= x < program.rules@.len() && (#[trigger] program.rules@[x]).head.pred.0 == q)
                    || exists|x: int| 0 <= x < m && (#[trigger] program.imports@[x]).pred.0 == q),
        decreases program.imports.len() - m,
    {
        let x = program.imports[m].pred.0 as usize;
        marks.set(x, true);
        m += 1;
    }
    assert(m == program.imports@.len());
    assert forall|q: int| 0 <= q < n implies (#[trigger] marks@[q] <==> spec_defined(p, ir::PredId(q as u32))) by {
        if spec_defined(p, ir::PredId(q as u32)) {
            if exists|x: int| 0 <= x < p.facts@.len() && (#[trigger] p.facts@[x]).pred == ir::PredId(q as u32) {
                let x = choose|x: int| 0 <= x < p.facts@.len() && (#[trigger] p.facts@[x]).pred == ir::PredId(q as u32);
                assert(program.facts@[x].pred.0 == q);
            } else if exists|x: int| 0 <= x < p.rules@.len() && (#[trigger] p.rules@[x]).head.pred == ir::PredId(q as u32) {
                let x = choose|x: int| 0 <= x < p.rules@.len() && (#[trigger] p.rules@[x]).head.pred == ir::PredId(q as u32);
                assert(program.rules@[x].head.pred.0 == q);
            } else {
                let x = choose|x: int| 0 <= x < p.imports@.len() && (#[trigger] p.imports@[x]).pred == ir::PredId(q as u32);
                assert(program.imports@[x].pred.0 == q);
            }
        }
        if marks@[q] {
            if exists|x: int| 0 <= x < program.facts@.len() && (#[trigger] program.facts@[x]).pred.0 == q {
                let x = choose|x: int| 0 <= x < program.facts@.len() && (#[trigger] program.facts@[x]).pred.0 == q;
                assert(program.facts@[x].pred == ir::PredId(q as u32));
            } else if exists|x: int| 0 <= x < program.rules@.len() && (#[trigger] program.rules@[x]).head.pred.0 == q {
                let x = choose|x: int| 0 <= x < program.rules@.len() && (#[trigger] program.rules@[x]).head.pred.0 == q;
                assert(program.rules@[x].head.pred == ir::PredId(q as u32));
            } else {
                let x = choose|x: int| 0 <= x < program.imports@.len() && (#[trigger] program.imports@[x]).pred.0 == q;
                assert(program.imports@[x].pred == ir::PredId(q as u32));
            }
        }
    }
    let mut defined: Vec<u32> = Vec::new();
    let mut q: usize = 0;
    while q < n
        invariant
            q <= n,
            n == program.predicates@.len() <= u32::MAX,
            marks@.len() == n,
            forall|x: int| 0 <= x < n ==> (#[trigger] marks@[x] <==> spec_defined(p, ir::PredId(x as u32))),
            forall|k: int| 0 <= k < defined@.len() ==> (#[trigger] defined@[k]) < q && marks@[defined@[k] as int],
            forall|x: int| 0 <= x < q && marks@[x] ==> defined@.contains(x as u32),
        decreases n - q,
    {
        if marks[q] {
            let ghost before = defined@;
            defined.push(q as u32);
            proof {
                assert forall|x: int| 0 <= x < q + 1 && marks@[x] implies defined@.contains(x as u32) by {
                    if x < q {
                        let w = choose|w: int| 0 <= w < before.len() && before[w] == x as u32;
                        assert(defined@[w] == before[w]);
                    } else {
                        assert(defined@[before.len() as int] == x as u32);
                    }
                }
            }
        }
        q += 1;
    }
    let mut referenced: Vec<ir::PredId> = Vec::new();
    let mut seen: Vec<bool> = Vec::new();
    let mut i: usize = 0;
    while i < n
        invariant
            i <= n,
            seen@.len() == i,
            forall|x: int| 0 <= x < i ==> !(#[trigger] seen@[x]),
        decreases n - i,
    {
        seen.push(false);
        i += 1;
    }
    let mut r: usize = 0;
    while r < program.rules.len()
        invariant
            r <= program.rules@.len(),
            n == program.predicates@.len() <= u32::MAX,
            spec_in_range(*program, n as nat),
            seen@.len() == n,
            forall|k: int| 0 <= k < seen@.len() ==> ((#[trigger] seen@[k]) <==> referenced@.contains(ir::PredId(k as u32))),
            forall|k: int| 0 <= k < referenced@.len() ==> ((#[trigger] referenced@[k]).0 as int) < seen@.len(),
            referenced@ == spec_add_new(Seq::empty(), spec_rules_refs(program.rules@.take(r as int))),
        decreases program.rules.len() - r,
    {
        assert(spec_rule_preds_ok(program.rules@[r as int], n as nat));
        collect_body_refs(&program.rules[r].body, &mut referenced, &mut seen);
        proof {
            let t = program.rules@.take(r + 1);
            assert(t.drop_last() =~= program.rules@.take(r as int));
            assert(t.last() == program.rules@[r as int]);
            lemma_add_new_concat(Seq::empty(), spec_rules_refs(program.rules@.take(r as int)), spec_body_refs(program.rules@[r as int].body@));
        }
        r += 1;
    }
    assert(program.rules@.take(program.rules@.len() as int) =~= program.rules@);
    assert(r == program.rules@.len());
    let ghost after_rules = spec_rules_refs(program.rules@);
    proof {
        assert(program.queries@.take(0) =~= Seq::<ir::Query>::empty());
        assert(spec_queries_refs(program.queries@.take(0)) =~= Seq::<ir::PredId>::empty());
        assert(after_rules + spec_queries_refs(program.queries@.take(0)) =~= after_rules);
    }
    let mut qi: usize = 0;
    while qi < program.queries.len()
        invariant
            qi <= program.queries@.len(),
            n == program.predicates@.len() <= u32::MAX,
            spec_in_range(*program, n as nat),
            seen@.len() == n,
            after_rules == spec_rules_refs(program.rules@),
            forall|k: int| 0 <= k < seen@.len() ==> ((#[trigger] seen@[k]) <==> referenced@.contains(ir::PredId(k as u32))),
            forall|k: int| 0 <= k < referenced@.len() ==> ((#[trigger] referenced@[k]).0 as int) < seen@.len(),
            referenced@ == spec_add_new(Seq::empty(), after_rules + spec_queries_refs(program.queries@.take(qi as int))),
        decreases program.queries.len() - qi,
    {
        collect_body_refs(&program.queries[qi].body, &mut referenced, &mut seen);
        proof {
            let t = program.queries@.take(qi + 1);
            assert(t.drop_last() =~= program.queries@.take(qi as int));
            assert(t.last() == program.queries@[qi as int]);
            let before = after_rules + spec_queries_refs(program.queries@.take(qi as int));
            lemma_add_new_concat(Seq::empty(), before, spec_body_refs(program.queries@[qi as int].body@));
            assert(after_rules + spec_queries_refs(t) =~= before + spec_body_refs(program.queries@[qi as int].body@));
        }
        qi += 1;
    }
    assert(program.queries@.take(program.queries@.len() as int) =~= program.queries@);
    assert(qi == program.queries@.len());
    let ghost refs = referenced@;
    assert(refs == spec_referenced(p));
    let mut warnings: Vec<crate::error::Warning> = Vec::new();
    let mut k: usize = 0;
    while k < referenced.len()
        invariant
            k <= referenced@.len(),
            refs == referenced@,
            refs == spec_referenced(p),
            p == *program,
            n == program.predicates@.len() <= u32::MAX,
            marks@.len() == n,
            forall|x: int| 0 <= x < n ==> (#[trigger] marks@[x] <==> spec_defined(p, ir::PredId(x as u32))),
            forall|j: int| 0 <= j < defined@.len() ==> (#[trigger] defined@[j]) < n && marks@[defined@[j] as int],
            forall|x: int| 0 <= x < n && marks@[x] ==> defined@.contains(x as u32),
            forall|j: int| 0 <= j < referenced@.len() ==> ((#[trigger] referenced@[j]).0 as int) < n,
            forall|i: int| 0 <= i < program.predicates@.len() ==> (#[trigger] program.predicates@[i]).name@.len() < usize::MAX,
            warnings@.len() == spec_undefined_among(p, refs.take(k as int)).len(),
            forall|j: int| 0 <= j < warnings@.len() ==> {
                let q = spec_undefined_among(p, refs.take(k as int))[j];
                let info = program.predicates@[q.0 as int];
                &&& (q.0 as int) < program.predicates@.len()
                &&& (#[trigger] warnings@[j]) matches crate::error::Warning::UndefinedPredicate { name, arity, suggestion }
                &&& name@ == info.name@
                &&& arity == info.arity
                &&& spec_suggestion(p, name@, arity, suggestion)
            },
        decreases referenced.len() - k,
    {
        let q = referenced[k];
        let ghost before = spec_undefined_among(p, refs.take(k as int));
        proof {
            let t = refs.take(k + 1);
            assert(t.drop_last() =~= refs.take(k as int));
            assert(t.last() == q);
            assert(ir::PredId(q.0 as u32) == q);
        }
        if !marks[q.0 as usize] {
            let info = &program.predicates[q.0 as usize];
            let suggestion = nearest_defined(info.name.as_str(), info.arity, &defined, program);
            proof {
                lemma_suggestion(p, defined@, marks@, info.name@, info.arity, suggestion);
            }
            warnings.push(crate::error::Warning::UndefinedPredicate {
                name: to_owned(info.name.as_str()),
                arity: info.arity,
                suggestion,
            });
            proof {
                let after = spec_undefined_among(p, refs.take(k + 1));
                assert(after =~= before.push(q));
                assert forall|j: int| 0 <= j < warnings@.len() implies {
                    let q2 = after[j];
                    let info2 = program.predicates@[q2.0 as int];
                    &&& (q2.0 as int) < program.predicates@.len()
                    &&& (#[trigger] warnings@[j]) matches crate::error::Warning::UndefinedPredicate { name, arity, suggestion }
                    &&& name@ == info2.name@
                    &&& arity == info2.arity
                    &&& spec_suggestion(p, name@, arity, suggestion)
                } by {
                    if j < before.len() {
                        assert(after[j] == before[j]);
                    }
                }
            }
        } else {
            proof {
                assert(spec_undefined_among(p, refs.take(k + 1)) =~= before);
            }
        }
        k += 1;
    }
    assert(refs.take(refs.len() as int) =~= refs);
    warnings
}

} // verus!

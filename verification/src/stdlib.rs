//! The `std` modules: the builtins a program cannot spell, each a relation in
//! scope only where `import "std/<module>".` is written.
//!
//! The registry is one table, read by lowering (which relation is a builtin),
//! by diagnostics (which module a name a program forgot to import comes from),
//! and by module resolution (which module names exist).
use vstd::prelude::*;

use crate::ast::BuiltinOp;
use crate::text::str_equal;

verus! {

/// One relation a `std` module provides.
#[derive(Debug, Clone, Copy, PartialEq, Eq)]
pub struct StdRelation {
    pub name: &'static str,
    /// Total arity, the output position included.
    pub arity: u32,
    pub op: BuiltinOp,
}

/// One `std` module: its path after the `std/` prefix, and what it provides.
#[derive(Debug, Clone, PartialEq, Eq)]
pub struct StdModule {
    pub name: &'static str,
    pub relations: Vec<StdRelation>,
}

/// The content of a relation entry: name, arity, operation.
pub open spec fn rel_view(r: StdRelation) -> (Seq<char>, u32, BuiltinOp) {
    (r.name@, r.arity, r.op)
}

/// What `std/time` provides: extraction and truncation over temporal values.
/// Each reads a bound input and binds or filters one output.
pub open spec fn spec_time_relations() -> Seq<(Seq<char>, u32, BuiltinOp)> {
    seq![
        ("year"@, 2u32, BuiltinOp::Year),
        ("month"@, 2u32, BuiltinOp::Month),
        ("day"@, 2u32, BuiltinOp::Day),
        ("hour"@, 2u32, BuiltinOp::Hour),
        ("minute"@, 2u32, BuiltinOp::Minute),
        ("second"@, 2u32, BuiltinOp::Second),
        ("truncate"@, 3u32, BuiltinOp::Truncate),
    ]
}

/// The relations of `std/time`.
fn time_relations() -> (r: Vec<StdRelation>)
    ensures
        r@.map_values(|x: StdRelation| rel_view(x)) == spec_time_relations(),
{
    let r = vec![
        StdRelation { name: "year", arity: 2, op: BuiltinOp::Year },
        StdRelation { name: "month", arity: 2, op: BuiltinOp::Month },
        StdRelation { name: "day", arity: 2, op: BuiltinOp::Day },
        StdRelation { name: "hour", arity: 2, op: BuiltinOp::Hour },
        StdRelation { name: "minute", arity: 2, op: BuiltinOp::Minute },
        StdRelation { name: "second", arity: 2, op: BuiltinOp::Second },
        StdRelation { name: "truncate", arity: 3, op: BuiltinOp::Truncate },
    ];
    assert(r@.map_values(|x: StdRelation| rel_view(x)) =~= spec_time_relations());
    r
}

/// The units `truncate` accepts, largest first.
pub fn truncate_units() -> (r: Vec<&'static str>)
    ensures
        r@.map_values(|s: &str| s@) == seq![
            "year"@,
            "quarter"@,
            "month"@,
            "week"@,
            "day"@,
            "hour"@,
            "minute"@,
        ],
{
    let r = vec!["year", "quarter", "month", "week", "day", "hour", "minute"];
    assert(r@.map_values(|s: &str| s@) =~= seq![
        "year"@,
        "quarter"@,
        "month"@,
        "week"@,
        "day"@,
        "hour"@,
        "minute"@,
    ]);
    r
}

/// The module named by a `std/…` import path: `time` is the one that exists.
pub fn module(name: &str) -> (r: Option<StdModule>)
    ensures
        r is Some <==> name@ == "time"@,
        r matches Some(m) ==> m.name@ == "time"@ && m.relations@.map_values(
            |x: StdRelation| rel_view(x),
        ) == spec_time_relations(),
{
    if str_equal(name, "time") {
        Some(StdModule { name: "time", relations: time_relations() })
    } else {
        None
    }
}

/// The first relation entry named `name` with `arity`.
pub open spec fn find_relation(rels: Seq<(Seq<char>, u32, BuiltinOp)>, name: Seq<char>, arity: u32) -> Option<
    int,
>
    decreases rels.len(),
{
    if rels.len() == 0 {
        None
    } else {
        match find_relation(rels.drop_last(), name, arity) {
            Some(i) => Some(i),
            None => if rels.last().0 == name && rels.last().1 == arity {
                Some(rels.len() - 1)
            } else {
                None
            },
        }
    }
}

/// A relation found in a prefix is the first one found.
proof fn lemma_find_relation_prefix(
    rels: Seq<(Seq<char>, u32, BuiltinOp)>,
    j: int,
    name: Seq<char>,
    arity: u32,
)
    requires
        0 <= j <= rels.len(),
        find_relation(rels.take(j), name, arity) is Some,
    ensures
        find_relation(rels, name, arity) == find_relation(rels.take(j), name, arity),
    decreases rels.len() - j,
{
    if j < rels.len() {
        assert(rels.take(j + 1).drop_last() =~= rels.take(j));
        lemma_find_relation_prefix(rels, j + 1, name, arity);
    } else {
        assert(rels.take(j) =~= rels);
    }
}

/// The relation `name/arity` that `module` provides, if it provides one.
pub fn relation(module: &StdModule, name: &str, arity: u32) -> (r: Option<StdRelation>)
    ensures
        match find_relation(module.relations@.map_values(|x: StdRelation| rel_view(x)), name@, arity) {
            Some(i) => r == Some(module.relations@[i]),
            None => r is None,
        },
{
    let ghost rels = module.relations@.map_values(|x: StdRelation| rel_view(x));
    let mut i: usize = 0;
    while i < module.relations.len()
        invariant
            i <= module.relations.len(),
            rels == module.relations@.map_values(|x: StdRelation| rel_view(x)),
            find_relation(rels.take(i as int), name@, arity) is None,
        decreases module.relations.len() - i,
    {
        assert(rels.take(i as int + 1).drop_last() =~= rels.take(i as int));
        assert(rels.take(i as int + 1).last() == rel_view(module.relations@[i as int]));
        let candidate = module.relations[i];
        if str_equal(candidate.name, name) && candidate.arity == arity {
            proof {
                lemma_find_relation_prefix(rels, i as int + 1, name@, arity);
            }
            return Some(candidate);
        }
        i += 1;
    }
    assert(rels.take(i as int) =~= rels);
    None
}

/// Which module provides `name/arity`, over every module: what turns a name
/// used but never defined into a forgotten import.
pub fn provider(name: &str, arity: u32) -> (r: Option<&'static str>)
    ensures
        r is Some <==> find_relation(spec_time_relations(), name@, arity) is Some,
        r matches Some(m) ==> m@ == "time"@,
{
    let time = StdModule { name: "time", relations: time_relations() };
    match relation(&time, name, arity) {
        Some(_) => Some("time"),
        None => None,
    }
}

/// Every module name, for the error that lists them.
pub fn module_names() -> (r: Vec<&'static str>)
    ensures
        r@.len() == 1,
        r@[0]@ == "time"@,
{
    vec!["time"]
}

/// The relation name an operation is written as.
pub open spec fn spec_op_name(op: BuiltinOp) -> Seq<char> {
    match op {
        BuiltinOp::Year => "year"@,
        BuiltinOp::Month => "month"@,
        BuiltinOp::Day => "day"@,
        BuiltinOp::Hour => "hour"@,
        BuiltinOp::Minute => "minute"@,
        BuiltinOp::Second => "second"@,
        BuiltinOp::Truncate => "truncate"@,
    }
}

/// The relation name an operation is written as, for printing a lowered body.
pub fn op_name(op: BuiltinOp) -> (r: &'static str)
    ensures
        r@ == spec_op_name(op),
        exists|i: int| 0 <= i < spec_time_relations().len() && spec_time_relations()[i].0 == r@
            && spec_time_relations()[i].2 == op,
{
    let r = match op {
        BuiltinOp::Year => "year",
        BuiltinOp::Month => "month",
        BuiltinOp::Day => "day",
        BuiltinOp::Hour => "hour",
        BuiltinOp::Minute => "minute",
        BuiltinOp::Second => "second",
        BuiltinOp::Truncate => "truncate",
    };
    proof {
        let t = spec_time_relations();
        match op {
            BuiltinOp::Year => assert(t[0].0 == r@ && t[0].2 == op),
            BuiltinOp::Month => assert(t[1].0 == r@ && t[1].2 == op),
            BuiltinOp::Day => assert(t[2].0 == r@ && t[2].2 == op),
            BuiltinOp::Hour => assert(t[3].0 == r@ && t[3].2 == op),
            BuiltinOp::Minute => assert(t[4].0 == r@ && t[4].2 == op),
            BuiltinOp::Second => assert(t[5].0 == r@ && t[5].2 == op),
            BuiltinOp::Truncate => assert(t[6].0 == r@ && t[6].2 == op),
        }
    }
    r
}

} // verus!

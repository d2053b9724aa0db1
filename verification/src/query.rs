//! One-shot queries appended to a program: a bare goal is asked as
//! `?- goal.`, and a `head :- body` rule is defined and its head asked.
use vstd::prelude::*;

use crate::ast::{Atom, StatementKind};
use crate::lexer::{lex_from, TokenView};
use crate::parser::{parse, spec_facts_from, spec_is_arg_atom, spec_pieces_from, ArgView, PieceView};
use crate::print::{print_atom, spec_atom_text};
use crate::text::{chars_of, push_char, push_str, to_owned};

verus! {

/// `s` without its trailing `.`s.
pub open spec fn spec_strip_dots(s: Seq<char>) -> Seq<char>
    decreases s.len(),
{
    if s.len() > 0 && s.last() == '.' {
        spec_strip_dots(s.drop_last())
    } else {
        s
    }
}

/// A query's goal text: trimmed, without its trailing `.`s.
pub open spec fn spec_query_goal(q: Seq<char>) -> Seq<char> {
    spec_strip_dots(crate::text::trim(q))
}

/// The text a goal is tried as: a statement of its own.
pub open spec fn spec_query_statement(goal: Seq<char>) -> Seq<char> {
    goal + ".\n"@
}

/// What one query appends: the rule and a query of its head, where the goal
/// is a rule with head text `h`; a query of the goal otherwise.
pub open spec fn spec_query_piece(goal: Seq<char>, head: Option<Seq<char>>) -> Seq<char> {
    match head {
        Some(h) => spec_query_statement(goal) + "?- "@ + h + ".\n"@,
        None => "?- "@ + goal + ".\n"@,
    }
}

/// The base program, ended by a newline where it is not empty.
pub open spec fn spec_base_text(base: Seq<char>) -> Seq<char> {
    if base.len() > 0 && base.last() != '\n' {
        base.push('\n')
    } else {
        base
    }
}

/// The base program with each query's piece appended, in order.
pub open spec fn spec_composed(base: Seq<char>, queries: Seq<Seq<char>>, heads: Seq<Option<Seq<char>>>) -> Seq<char>
    decreases queries.len(),
{
    if queries.len() == 0 {
        spec_base_text(base)
    } else {
        spec_composed(base, queries.drop_last(), heads.drop_last()) + spec_query_piece(
            spec_query_goal(queries.last()),
            heads.last(),
        )
    }
}

/// Whether a goal's statement reads as ground facts only, which is never a
/// rule.
pub open spec fn spec_reads_as_facts(goal: Seq<char>) -> bool {
    let ks = lex_from(spec_query_statement(goal), 0);
    ks.1 == 0 && spec_facts_from(ks.0.push(TokenView::Eof), 0) is Some
}

/// Each head is a printed atom, and no goal that reads as ground facts is
/// taken for a rule.
pub open spec fn spec_heads_ok(queries: Seq<Seq<char>>, heads: Seq<Option<Seq<char>>>) -> bool {
    &&& heads.len() == queries.len()
    &&& forall|i: int|
        0 <= i < heads.len() ==> (#[trigger] heads[i] matches Some(h) ==> (exists|a: Atom| spec_atom_text(a) == h)
            && !spec_reads_as_facts(spec_query_goal(queries[i])))
}

/// The head of the rule a goal's statement reads as, where it reads as
/// exactly one rule with a body.
pub open spec fn spec_single_rule_head(goal: Seq<char>) -> Option<(Seq<char>, Seq<ArgView>)> {
    spec_rule_head_of(spec_query_statement(goal))
}

/// The head of the rule `text` reads as, where it reads as exactly one rule
/// with a body.
pub open spec fn spec_rule_head_of(text: Seq<char>) -> Option<(Seq<char>, Seq<ArgView>)> {
    let ks = lex_from(text, 0);
    if ks.1 == 0 {
        match spec_pieces_from(ks.0.push(TokenView::Eof), 0) {
            Some(ps) => if ps.len() == 1 {
                match ps[0] {
                    PieceView::Rule(h, b) => if b.len() > 0 {
                        Some(h)
                    } else {
                        None
                    },
                    _ => None,
                }
            } else {
                None
            },
            None => None,
        }
    } else {
        None
    }
}

/// Whether `text` lexes and reads as facts, rules, queries, imports and
/// declarations over the plain grammar of body literals.
pub open spec fn spec_reads_as_pieces(text: Seq<char>) -> bool {
    let ks = lex_from(text, 0);
    ks.1 == 0 && spec_pieces_from(ks.0.push(TokenView::Eof), 0) is Some
}

/// Every goal that reads as exactly one rule with a body is taken for that
/// rule, and its head, printed, is what gets asked; a goal that reads as
/// anything else of the plain grammar is asked as it is.
pub open spec fn spec_rules_asked(queries: Seq<Seq<char>>, heads: Seq<Option<Seq<char>>>) -> bool {
    forall|i: int|
        0 <= i < heads.len() && 0 <= i < queries.len() ==> (#[trigger] spec_single_rule_head(spec_query_goal(queries[i])) matches Some(
            h,
        ) ==> (heads[i] matches Some(t) && exists|a: Atom| spec_atom_text(a) == t && spec_is_arg_atom(a, h.0, h.1)))
            && (spec_reads_as_pieces(spec_query_statement(spec_query_goal(queries[i]))) && spec_single_rule_head(
            spec_query_goal(queries[i]),
        ) is None ==> heads[i] is None)
}

/// The queries' texts.
pub open spec fn spec_query_texts(queries: Seq<String>) -> Seq<Seq<char>> {
    queries.map_values(|q: String| q@)
}

/// A query's goal text.
fn query_goal(query: &str) -> (r: String)
    ensures
        r@ == spec_query_goal(query@),
{
    let t = crate::lexer::trimmed(query);
    let v = chars_of(t.as_str());
    let mut end: usize = v.len();
    assert(v@.take(end as int) =~= v@);
    while end > 0 && v[end - 1] == '.'
        invariant
            end <= v@.len(),
            v@ == crate::text::trim(query@),
            spec_strip_dots(v@) == spec_strip_dots(v@.take(end as int)),
        decreases end,
    {
        assert(v@.take(end as int).drop_last() =~= v@.take(end - 1));
        end -= 1;
    }
    crate::text::sub_string(v.as_slice(), 0, end)
}

/// The printed head of the rule `statement` parses to, where it parses to
/// exactly one clause with a body.
fn rule_head(statement: &str) -> (r: Option<String>)
    ensures
        r matches Some(h) ==> (exists|a: Atom| spec_atom_text(a) == h@) && !(lex_from(statement@, 0).1 == 0
            && spec_facts_from(lex_from(statement@, 0).0.push(TokenView::Eof), 0) is Some),
        spec_rule_head_of(statement@) matches Some(h) ==> (r matches Some(t) && exists|a: Atom|
            spec_atom_text(a) == t@ && spec_is_arg_atom(a, h.0, h.1)),
        spec_reads_as_pieces(statement@) && spec_rule_head_of(statement@) is None ==> r is None,
{
    match parse(statement) {
        Ok(program) => {
            if program.statements.len() == 1 {
                match &program.statements[0].kind {
                    StatementKind::Clause(clause) => {
                        if clause.body.len() > 0 {
                            Some(print_atom(&clause.head))
                        } else {
                            None
                        }
                    },
                    _ => None,
                }
            } else {
                None
            }
        },
        Err(_) => None,
    }
}

/// The base program with each query appended: a define-and-select rule is
/// appended with a query of its head, anything else as `?- query.`.
#[verifier::rlimit(40)]
pub fn compose(base: &str, queries: &[String]) -> (r: String)
    ensures
        exists|heads: Seq<Option<Seq<char>>>|
            spec_heads_ok(spec_query_texts(queries@), heads) && spec_rules_asked(spec_query_texts(queries@), heads)
                && r@ == #[trigger] spec_composed(
                base@,
                spec_query_texts(queries@),
                heads,
            ),
{
    let ghost qs = spec_query_texts(queries@);
    let mut text = to_owned(base);
    let bv = chars_of(base);
    if bv.len() > 0 && bv[bv.len() - 1] != '\n' {
        push_char(&mut text, '\n');
    }
    let ghost mut heads: Seq<Option<Seq<char>>> = Seq::empty();
    proof {
        reveal_strlit(".\n");
        reveal_strlit("?- ");
        assert(text@ == spec_composed(base@, qs.take(0), heads));
    }
    let mut i: usize = 0;
    while i < queries.len()
        invariant
            i <= queries@.len(),
            qs == spec_query_texts(queries@),
            heads.len() == i,
            spec_heads_ok(qs.take(i as int), heads),
            spec_rules_asked(qs.take(i as int), heads),
            text@ == spec_composed(base@, qs.take(i as int), heads),
        decreases queries.len() - i,
    {
        let goal = query_goal(queries[i].as_str());
        let mut statement = to_owned(goal.as_str());
        push_str(&mut statement, ".\n");
        let head: Option<String> = rule_head(statement.as_str());
        proof {
            reveal_strlit(".\n");
            assert(statement@ == spec_query_statement(goal@));
        }
        let ghost before = text@;
        let ghost hv: Option<Seq<char>> = match &head {
            Some(h) => Some(h@),
            None => None,
        };
        match head {
            Some(h) => {
                push_str(&mut text, statement.as_str());
                push_str(&mut text, "?- ");
                push_str(&mut text, h.as_str());
                push_str(&mut text, ".\n");
            },
            None => {
                push_str(&mut text, "?- ");
                push_str(&mut text, goal.as_str());
                push_str(&mut text, ".\n");
            },
        }
        proof {
            let nh = heads.push(hv);
            let t1 = qs.take(i + 1);
            assert(t1.drop_last() =~= qs.take(i as int));
            assert(t1.last() == queries@[i as int]@);
            assert(nh.drop_last() =~= heads);
            assert(text@ =~= before + spec_query_piece(spec_query_goal(t1.last()), hv));
            assert forall|k: int| 0 <= k < nh.len() implies (#[trigger] nh[k] matches Some(h) ==> (exists|a: Atom|
                spec_atom_text(a) == h) && !spec_reads_as_facts(spec_query_goal(t1[k]))) by {
                if k < i {
                    assert(nh[k] == heads[k]);
                    assert(t1[k] == qs.take(i as int)[k]);
                }
            }
            assert forall|k: int|
                0 <= k < nh.len() && 0 <= k < t1.len() implies (#[trigger] spec_single_rule_head(spec_query_goal(t1[k]))
                matches Some(h) ==> (nh[k] matches Some(t) && exists|a: Atom|
                spec_atom_text(a) == t && spec_is_arg_atom(a, h.0, h.1))) && (spec_reads_as_pieces(
                spec_query_statement(spec_query_goal(t1[k])),
            ) && spec_single_rule_head(spec_query_goal(t1[k])) is None ==> nh[k] is None) by {
                if k < i {
                    assert(nh[k] == heads[k]);
                    assert(t1[k] == qs.take(i as int)[k]);
                } else {
                    assert(t1[k] == queries@[i as int]@);
                }
            }
            heads = nh;
        }
        i += 1;
    }
    assert(qs.take(i as int) =~= qs);
    text
}

} // verus!

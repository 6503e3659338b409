//! Steps, criteria, and the matcher: how a node was reached, what a pattern
//! segment demands of that, and routes through the document.

use vstd::prelude::*;
use crate::value::Value;
use crate::value::entries_get;

verus! {

/// How a node was reached from its immediate parent: the synthetic root,
/// an object member key, or an array index. Borrows its key from the
/// document, so it is cheap to copy.
#[derive(Clone, Copy)]
pub enum Step<'a> {
    Root,
    Key(&'a String),
    Index(usize),
}

/// One compiled pattern segment, to be tested against a [`Step`]. Owned by
/// the pattern; a sequence of criteria starting with `Root` forms a pattern.
pub enum Criterion {
    Root,
    NamedChild(String),
    AnyChild,
    IndexedChild(usize),
}

/// Whether a candidate satisfies a criterion. `at_root` is true only for the
/// synthetic root candidate created at engine construction, so `Root` can
/// never accept any later candidate, whatever its step tag.
pub open spec fn spec_matches(s: Step, c: Criterion, at_root: bool) -> bool {
    match c {
        Criterion::Root => at_root,
        Criterion::NamedChild(name) => match s {
            Step::Key(k) => k@ == name@,
            _ => false,
        },
        Criterion::AnyChild => match s {
            Step::Root => false,
            _ => true,
        },
        Criterion::IndexedChild(i) => match s {
            Step::Index(j) => j == i,
            _ => false,
        },
    }
}

/// The pure matcher: decides whether a candidate's step satisfies one
/// criterion (see [`spec_matches`]).
pub fn step_matches(s: &Step, c: &Criterion, at_root: bool) -> (r: bool)
    ensures
        r == spec_matches(*s, *c, at_root),
{
    match c {
        Criterion::Root => at_root,
        Criterion::NamedChild(name) => match s {
            Step::Key(k) => (*k).eq(name),
            _ => false,
        },
        Criterion::AnyChild => match s {
            Step::Root => false,
            _ => true,
        },
        Criterion::IndexedChild(i) => match s {
            Step::Index(j) => *j == *i,
            _ => false,
        },
    }
}

/// The node reached from `v` by applying `path` as direct member/index
/// lookups, left to right. A `Root` step resolves nowhere: routes carry the
/// leading `Root` separately.
pub open spec fn follow(v: Value, path: Seq<Step>) -> Option<Value>
    decreases path.len(),
{
    if path.len() == 0 {
        Some(v)
    } else {
        match path[0] {
            Step::Root => None,
            Step::Key(k) => match v {
                Value::Object(entries) => match entries_get(entries@, k@) {
                    Some(c) => follow(c, path.drop_first()),
                    None => None,
                },
                _ => None,
            },
            Step::Index(i) => match v {
                Value::Array(items) => if (i as int) < items@.len() {
                    follow(items@[i as int], path.drop_first())
                } else {
                    None
                },
                _ => None,
            },
        }
    }
}

/// The node a full route reaches: the route must open with the synthetic
/// `Root` step, and its remaining steps are applied as lookups.
pub open spec fn route_target(doc: Value, path: Seq<Step>) -> Option<Value> {
    if path.len() >= 1 && (path[0] matches Step::Root) {
        follow(doc, path.drop_first())
    } else {
        None
    }
}

/// Whether `s` is the step that leads from `v` to its `i`-th child in
/// canonical enumeration order.
pub open spec fn is_child_step(v: Value, i: int, s: Step) -> bool {
    match v {
        Value::Object(entries) => s matches Step::Key(k) && k@ == entries@[i].0@,
        Value::Array(items) => s matches Step::Index(j) && j as int == i,
        _ => false,
    }
}

/// The step that leads from `v` to its `i`-th child in canonical
/// enumeration order.
pub open spec fn child_step_of<'x>(v: Value, i: int) -> Step<'x> {
    match v {
        Value::Object(entries) => Step::Key(&entries@[i].0),
        Value::Array(items) => Step::Index(i as usize),
        _ => Step::Root,
    }
}

/// Order invariant: the canonical enumeration visits an object's children
/// in strictly ascending key order, and an array's children in strictly
/// ascending index order — the step of the `i`-th array child is `Index(i)`.
pub proof fn lemma_enumeration_order<'x>(v: Value, i: int, j: int)
    requires
        v.wf(),
        0 <= i < j < v.num_children(),
    ensures
        v is Object ==> crate::value::lex_lt(v.child_key(i), v.child_key(j)),
        v is Array ==> child_step_of::<'x>(v, i) == Step::<'x>::Index(i as usize)
            && child_step_of::<'x>(v, j) == Step::<'x>::Index(j as usize),
{
}

/// The node one single step reaches from `v`, if any.
pub open spec fn step_target(v: Value, s: Step) -> Option<Value> {
    match s {
        Step::Root => None,
        Step::Key(k) => match v {
            Value::Object(entries) => entries_get(entries@, k@),
            _ => None,
        },
        Step::Index(i) => match v {
            Value::Array(items) => if (i as int) < items@.len() {
                Some(items@[i as int])
            } else {
                None
            },
            _ => None,
        },
    }
}

/// On a well-formed node, the step to the `i`-th child reaches exactly the
/// `i`-th child value: object keys are strictly ascending, hence unique.
pub proof fn lemma_step_target_child(v: Value, i: int, s: Step)
    requires
        v.wf(),
        0 <= i < v.num_children(),
        is_child_step(v, i, s),
    ensures
        step_target(v, s) == Some(v.child_value(i)),
{
    match v {
        Value::Object(entries) => {
            crate::value::lemma_entries_get_index(entries@, i);
        },
        _ => {},
    }
}

/// Looking up the value under an entry key yields a well-formed value when
/// all entry values are well-formed.
proof fn lemma_entries_get_wf(entries: Seq<(String, Value)>, key: Seq<char>)
    requires
        forall|i: int| 0 <= i < entries.len() ==> (#[trigger] entries[i].1).wf(),
    ensures
        entries_get(entries, key) matches Some(v) ==> v.wf(),
    decreases entries.len(),
{
    if entries.len() > 0 && entries[0].0@ != key {
        let rest = entries.drop_first();
        assert forall|i: int| 0 <= i < rest.len() implies (#[trigger] rest[i].1).wf() by {
            assert(rest[i] == entries[i + 1]);
        }
        lemma_entries_get_wf(rest, key);
    }
}

/// Extending a lookup path by one step composes: the longer path reaches
/// whatever one more step reaches from the shorter path's target.
pub proof fn lemma_follow_snoc(v: Value, path: Seq<Step>, s: Step)
    ensures
        follow(v, path.push(s)) == match follow(v, path) {
            Some(t) => step_target(t, s),
            None => None,
        },
    decreases path.len(),
{
    let ext = path.push(s);
    if path.len() == 0 {
        assert(ext[0] == s);
        assert(ext.drop_first() =~= Seq::<Step>::empty());
        assert(follow(v, path) == Some(v));
        match s {
            Step::Root => {
                assert(follow(v, ext) == step_target(v, s));
            },
            Step::Key(k) => match v {
                Value::Object(entries) => match entries_get(entries@, k@) {
                    Some(c) => {
                        assert(follow(c, ext.drop_first()) == Some(c));
                    },
                    None => {},
                },
                _ => {},
            },
            Step::Index(i) => match v {
                Value::Array(items) => if (i as int) < items@.len() {
                    assert(follow(items@[i as int], ext.drop_first()) == Some(items@[i as int]));
                },
                _ => {},
            },
        }
    } else {
        assert(ext[0] == path[0]);
        assert(ext.drop_first() =~= path.drop_first().push(s));
        match path[0] {
            Step::Root => {},
            Step::Key(k) => match v {
                Value::Object(entries) => match entries_get(entries@, k@) {
                    Some(c) => {
                        lemma_follow_snoc(c, path.drop_first(), s);
                    },
                    None => {},
                },
                _ => {},
            },
            Step::Index(i) => match v {
                Value::Array(items) => if (i as int) < items@.len() {
                    lemma_follow_snoc(items@[i as int], path.drop_first(), s);
                },
                _ => {},
            },
        }
    }
}

/// Extending a route by one step composes: the longer route reaches
/// whatever one more step reaches from the shorter route's target.
pub proof fn lemma_route_target_snoc(doc: Value, p: Seq<Step>, s: Step, v: Value)
    requires
        route_target(doc, p) == Some(v),
    ensures
        route_target(doc, p.push(s)) == step_target(v, s),
{
    assert(p.push(s)[0] == p[0]);
    assert(p.push(s).drop_first() =~= p.drop_first().push(s));
    lemma_follow_snoc(doc, p.drop_first(), s);
}

/// A route from a well-formed document only ever reaches well-formed nodes.
pub proof fn lemma_route_target_wf(doc: Value, p: Seq<Step>)
    requires
        doc.wf(),
    ensures
        route_target(doc, p) matches Some(v) ==> v.wf(),
{
    if p.len() >= 1 && (p[0] matches Step::Root) {
        lemma_follow_wf(doc, p.drop_first());
    }
}

/// A lookup from a well-formed document only ever reaches well-formed nodes.
pub proof fn lemma_follow_wf(v: Value, path: Seq<Step>)
    requires
        v.wf(),
    ensures
        follow(v, path) matches Some(t) ==> t.wf(),
    decreases path.len(),
{
    if path.len() > 0 {
        match path[0] {
            Step::Root => {},
            Step::Key(k) => match v {
                Value::Object(entries) => match entries_get(entries@, k@) {
                    Some(c) => {
                        lemma_entries_get_wf(entries@, k@);
                        lemma_follow_wf(c, path.drop_first());
                    },
                    None => {},
                },
                _ => {},
            },
            Step::Index(i) => match v {
                Value::Array(items) => if (i as int) < items@.len() {
                    lemma_follow_wf(items@[i as int], path.drop_first());
                },
                _ => {},
            },
        }
    }
}

} // verus!


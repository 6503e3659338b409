//! The traversal engine: an explicit-stack, resumable depth-first search
//! that interprets a criteria sequence against a document tree and yields
//! each matching node with its route, one result per call.

use vstd::prelude::*;
use crate::value::Value;
use crate::value::lemma_suffix_weight_unfold;
use crate::path::Criterion;
use crate::path::Step;
use crate::path::child_step_of;
use crate::path::is_child_step;
use crate::path::lemma_route_target_snoc;
use crate::path::lemma_route_target_wf;
use crate::path::lemma_step_target_child;
use crate::path::step_matches;
use crate::path::route_target;
use crate::path::spec_matches;

verus! {

/// One result of a traversal: the matched node, together with the ordered
/// route of steps from the document root to it (leading `Root` included).
pub struct Found<'a> {
    pub value: &'a Value,
    pub path: Vec<Step<'a>>,
}

/// A stack frame: the step through which `node` was reached from its parent
/// (consulted by the matcher), coupled with a cursor over `node`'s own
/// children (consulted when descending or backtracking). `pos` is the
/// cursor position: the index of the next child to offer; it never rewinds.
/// `is_root` marks the one synthetic root frame made at construction, so
/// the `Root` criterion can never accept any other candidate.
struct Frame<'a> {
    step: Step<'a>,
    node: &'a Value,
    pos: usize,
    is_root: bool,
}

impl<'a> Frame<'a> {
    /// Cursor advance: the next `(step, child)` pair of this node in
    /// canonical order — objects by ascending key, arrays by ascending
    /// index, scalars never — or `None` once exhausted, and then `None`
    /// forever.
    fn advance(&mut self) -> (r: Option<(Step<'a>, &'a Value)>)
        ensures
            final(self).step == old(self).step,
            final(self).node == old(self).node,
            final(self).is_root == old(self).is_root,
            match r {
                Some(p) => {
                    &&& (old(self).pos as int) < old(self).node.num_children()
                    &&& final(self).pos == old(self).pos + 1
                    &&& is_child_step(*old(self).node, old(self).pos as int, p.0)
                    &&& p.0 == child_step_of(*old(self).node, old(self).pos as int)
                    &&& *p.1 == old(self).node.child_value(old(self).pos as int)
                },
                None => {
                    &&& *final(self) == *old(self)
                    &&& (old(self).pos as int) >= old(self).node.num_children()
                },
            },
    {
        match self.node {
            Value::Object(entries) => {
                if self.pos < entries.len() {
                    let entry = &entries[self.pos];
                    let s = Step::Key(&entry.0);
                    self.pos = self.pos + 1;
                    Some((s, &entry.1))
                } else {
                    None
                }
            },
            Value::Array(items) => {
                if self.pos < items.len() {
                    let s = Step::Index(self.pos);
                    let child = &items[self.pos];
                    self.pos = self.pos + 1;
                    Some((s, child))
                } else {
                    None
                }
            },
            _ => None,
        }
    }
}

/// One result as the specification sees it: a route of steps, and the
/// value that route reaches.
pub type SearchItem<'x> = (Seq<Step<'x>>, Value);

/// Every result a search rooted at candidate `(v, s)` yields, in order.
/// The candidate is tested against `cl[ci]`; a rejected candidate yields
/// nothing, a fully matched one yields itself, a partially matched one
/// yields whatever its children yield under the next criterion, children
/// in canonical order. `at_root` is true only for the synthetic root
/// candidate, so a `Root` criterion can accept nothing else.
pub open spec fn results_at<'x>(
    v: Value,
    s: Step<'x>,
    at_root: bool,
    cl: Seq<Criterion>,
    ci: int,
    prefix: Seq<Step<'x>>,
) -> Seq<SearchItem<'x>>
    decreases v, v.num_children() + 1,
{
    if ci < 0 || ci >= cl.len() {
        Seq::empty()
    } else if !spec_matches(s, cl[ci], at_root) {
        Seq::empty()
    } else if ci == cl.len() - 1 {
        seq![(prefix.push(s), v)]
    } else {
        results_kids(v, 0, cl, ci + 1, prefix.push(s))
    }
}

/// Every result the children of `v` from position `from` onward yield
/// under criterion index `ci`, concatenated in canonical child order.
pub open spec fn results_kids<'x>(
    v: Value,
    from: int,
    cl: Seq<Criterion>,
    ci: int,
    prefix: Seq<Step<'x>>,
) -> Seq<SearchItem<'x>>
    decreases v, v.num_children() - from,
{
    if from < 0 || from >= v.num_children() {
        Seq::empty()
    } else {
        results_at(v.child_value(from), child_step_of(v, from), false, cl, ci, prefix)
            + results_kids(v, from + 1, cl, ci, prefix)
    }
}

/// The complete, ordered result sequence of a search: what the whole
/// traversal of `doc` under the pattern `cl` produces, from the synthetic
/// root candidate down.
pub open spec fn search<'x>(doc: Value, cl: Seq<Criterion>) -> Seq<SearchItem<'x>> {
    results_at(doc, Step::Root, true, cl, 0, Seq::empty())
}

/// What every emitted result satisfies: the route is as long as the
/// pattern, each of its steps satisfies the criterion at the same position
/// (with only position zero offered the root candidate), and re-applying
/// the route to the document by direct member/index lookups reaches exactly
/// the returned value.
pub open spec fn found_ok(doc: Value, criteria: Seq<Criterion>, f: Found) -> bool {
    &&& f.path@.len() == criteria.len()
    &&& route_target(doc, f.path@) == Some(*f.value)
    &&& forall|i: int|
        0 <= i < criteria.len() ==> spec_matches(#[trigger] f.path@[i], criteria[i], i == 0)
}

/// The work a frame still stands for: the frame itself plus the subtrees
/// its cursor has not yet offered.
spec fn frame_weight<'a>(f: Frame<'a>) -> nat {
    1 + f.node.suffix_weight(f.pos as int)
}

/// The combined weight of the first `k` frames of a stack.
spec fn frames_weight<'a>(frames: Seq<Frame<'a>>, k: int) -> nat
    decreases k,
{
    if k <= 0 {
        0
    } else {
        frames_weight(frames, k - 1) + frame_weight(frames[k - 1])
    }
}

/// Stacks that agree on a prefix carry the same weight over it.
proof fn lemma_frames_weight_prefix<'a>(s1: Seq<Frame<'a>>, s2: Seq<Frame<'a>>, k: int)
    requires
        forall|j: int| 0 <= j < k ==> s1[j] == s2[j],
    ensures
        frames_weight(s1, k) == frames_weight(s2, k),
    decreases k,
{
    if k > 0 {
        lemma_frames_weight_prefix(s1, s2, k - 1);
    }
}

/// Collects the steps of the frames of `stack`, outer to inner.
fn steps_of<'a>(stack: &Vec<Frame<'a>>) -> (r: Vec<Step<'a>>)
    ensures
        r@ == stack@.map_values(|f: Frame<'a>| f.step),
{
    let mut r: Vec<Step<'a>> = Vec::new();
    let mut k: usize = 0;
    while k < stack.len()
        invariant
            k <= stack@.len(),
            r@ == stack@.subrange(0, k as int).map_values(|f: Frame<'a>| f.step),
        decreases stack@.len() - k,
    {
        r.push(stack[k].step);
        k = k + 1;
        proof {
            assert(r@ =~= stack@.subrange(0, k as int).map_values(|f: Frame<'a>| f.step));
        }
    }
    proof {
        assert(stack@.subrange(0, stack@.len() as int) =~= stack@);
    }
    r
}

/// The traversal engine. It is constructed once per `(document, criteria)`
/// pair, borrows both for its lifetime, and is consumed by repeated calls
/// of [`Iter::next`] until exhausted; exhaustion is permanent.
pub struct Iter<'a, 'b> {
    doc: &'a Value,
    criteria: &'b [Criterion],
    current: Option<Frame<'a>>,
    stack: Vec<Frame<'a>>,
    emitted: Ghost<Seq<SearchItem<'a>>>,
}

impl<'a, 'b> Iter<'a, 'b> {
    /// The document under search.
    pub closed spec fn doc_spec(self) -> Value {
        *self.doc
    }

    /// The compiled pattern.
    pub closed spec fn criteria_spec(self) -> Seq<Criterion> {
        self.criteria@
    }

    /// Whether the search is over: no candidate is left and no ancestor
    /// retains unexplored children.
    pub closed spec fn exhausted(self) -> bool {
        self.current is None
    }

    /// Every result this engine has produced so far, in order.
    pub closed spec fn produced(self) -> Seq<SearchItem<'a>> {
        self.emitted@
    }

    /// The steps of the first `j` retained ancestor frames, outer to inner.
    spec fn steps_prefix(self, j: int) -> Seq<Step<'a>> {
        self.stack@.subrange(0, j).map_values(|f: Frame<'a>| f.step)
    }

    /// The retained frame at depth `j` is consistent: its route from the
    /// document root reaches its node, its step satisfied the criterion at
    /// its depth, and only depth zero holds the synthetic root frame.
    spec fn stack_frame_ok(self, j: int) -> bool {
        let f = self.stack@[j];
        &&& f.pos as int <= f.node.num_children()
        &&& route_target(*self.doc, self.steps_prefix(j + 1)) == Some(*f.node)
        &&& spec_matches(f.step, self.criteria@[j], f.is_root)
        &&& (f.is_root <==> j == 0)
        &&& (f.is_root ==> f.step matches Step::Root)
    }

    /// The candidate awaiting its match test is consistent with the stack.
    spec fn current_ok(self) -> bool {
        match self.current {
            Some(c) => {
                &&& self.stack@.len() < self.criteria@.len()
                &&& c.pos as int <= c.node.num_children()
                &&& route_target(
                    *self.doc,
                    self.steps_prefix(self.stack@.len() as int).push(c.step),
                ) == Some(*c.node)
                &&& (c.is_root <==> self.stack@.len() == 0)
                &&& (c.is_root ==> c.step matches Step::Root)
            },
            None => self.stack@.len() == 0,
        }
    }

    /// The total work left: every subtree the search has still to visit.
    /// Each produced result and each backtracking step strictly shrinks
    /// either this weight or the current depth, so any traversal of a
    /// finite document terminates.
    spec fn pending_weight(self) -> nat {
        frames_weight(self.stack@, self.stack@.len() as int) + match self.current {
            Some(c) => frame_weight(c),
            None => 0,
        }
    }

    /// The structural part of the engine invariant.
    spec fn shape_wf(self) -> bool {
        &&& (*self.doc).wf()
        &&& self.criteria@.len() >= 1
        &&& self.stack@.len() + 1 <= self.criteria@.len()
        &&& forall|j: int| 0 <= j < self.stack@.len() ==> #[trigger] self.stack_frame_ok(j)
        &&& self.current_ok()
    }

    /// What the candidate still stands to produce: nothing if it will be
    /// rejected; itself if it fully matches; otherwise whatever its
    /// unoffered children produce under the next criterion.
    spec fn cur_pending(self) -> Seq<SearchItem<'a>> {
        match self.current {
            Some(c) => {
                let d = self.stack@.len() as int;
                let prefix = self.steps_prefix(d);
                if !spec_matches(c.step, self.criteria@[d], c.is_root) {
                    Seq::empty()
                } else if d == self.criteria@.len() - 1 {
                    seq![(prefix.push(c.step), *c.node)]
                } else {
                    results_kids(*c.node, c.pos as int, self.criteria@, d + 1, prefix.push(c.step))
                }
            },
            None => Seq::empty(),
        }
    }

    /// What the retained frame at depth `j` still stands to produce: its
    /// children not yet offered, under the criterion below it.
    spec fn frame_pending(self, j: int) -> Seq<SearchItem<'a>> {
        results_kids(
            *self.stack@[j].node,
            self.stack@[j].pos as int,
            self.criteria@,
            j + 1,
            self.steps_prefix(j + 1),
        )
    }

    /// What the first `j` retained frames still stand to produce, in the
    /// order backtracking will reach them: innermost first.
    spec fn frames_pending(self, j: int) -> Seq<SearchItem<'a>>
        decreases j,
    {
        if j <= 0 {
            Seq::empty()
        } else {
            self.frame_pending(j - 1) + self.frames_pending(j - 1)
        }
    }

    /// Everything the engine still stands to produce, in order.
    spec fn pending_results(self) -> Seq<SearchItem<'a>> {
        self.cur_pending() + self.frames_pending(self.stack@.len() as int)
    }

    /// The engine invariant: established by [`Iter::new`], preserved by
    /// every [`Iter::next`] call. Besides the structural facts it accounts
    /// for every result: what was produced so far followed by what is
    /// still pending is exactly the full search of the document.
    pub closed spec fn wf(self) -> bool {
        &&& self.shape_wf()
        &&& self.emitted@ + self.pending_results() == search(*self.doc, self.criteria@)
    }

    /// Builds an engine over `root` and a compiled pattern. The caller owes
    /// a well-formed document and a non-empty pattern; whether the pattern
    /// opens with `Root` is the pattern compiler's concern — any other
    /// first criterion simply rejects the root candidate, and the search
    /// is empty.
    pub fn new(root: &'a Value, criteria: &'b [Criterion]) -> (it: Self)
        requires
            root.wf(),
            criteria@.len() >= 1,
        ensures
            it.wf(),
            it.doc_spec() == *root,
            it.criteria_spec() == criteria@,
            it.produced() == Seq::<SearchItem<'a>>::empty(),
    {
        let it = Iter {
            doc: root,
            criteria,
            current: Some(Frame { step: Step::Root, node: root, pos: 0, is_root: true }),
            stack: Vec::new(),
            emitted: Ghost(Seq::empty()),
        };
        proof {
            let p = it.steps_prefix(0).push(Step::Root);
            assert(p.drop_first() =~= Seq::<Step>::empty());
            assert(route_target(*it.doc, p) == Some(*root));
            assert(it.steps_prefix(0) =~= Seq::<Step<'a>>::empty());
            assert(it.cur_pending() == search(*root, criteria@));
            assert(it.emitted@ + it.pending_results() =~= search(*root, criteria@));
        }
        it
    }

    /// Produces the next match, or `None` once the search is exhausted —
    /// and then `None` forever, the engine left unchanged. Every produced
    /// result is a route through the document that satisfies the whole
    /// pattern and reaches the returned node (see [`found_ok`]).
    #[verifier::rlimit(60)]
    pub fn next(&mut self) -> (r: Option<Found<'a>>)
        requires
            old(self).wf(),
        ensures
            final(self).wf(),
            final(self).doc_spec() == old(self).doc_spec(),
            final(self).criteria_spec() == old(self).criteria_spec(),
            old(self).exhausted() ==> r is None && *final(self) == *old(self),
            r is None ==> final(self).exhausted(),
            r matches Some(f) ==> found_ok(old(self).doc_spec(), old(self).criteria_spec(), f),
            r matches Some(f) ==> final(self).produced() == old(self).produced().push(
                (f.path@, *f.value),
            ),
            r is None ==> final(self).produced() == old(self).produced()
                && final(self).produced() == search(old(self).doc_spec(), old(self).criteria_spec()),
    {
        loop
            invariant
                self.wf(),
                self.doc_spec() == old(self).doc_spec(),
                self.criteria_spec() == old(self).criteria_spec(),
                self.produced() == old(self).produced(),
                old(self).exhausted() ==> self.exhausted() && *self == *old(self),
            decreases self.pending_weight(), self.criteria@.len() - self.stack@.len(),
        {
            let ghost pre = *self;
            match self.current.take() {
                None => {
                    proof {
                        assert(self.pending_results() =~= Seq::<SearchItem<'a>>::empty());
                        assert(self.emitted@ + self.pending_results() =~= self.emitted@);
                    }
                    return None;
                },
                Some(mut cur) => {
                    let ghost cur0 = cur;
                    proof {
                        assert(pre.current == Some(cur0));
                    }
                    let ghost len = pre.stack@.len() as int;
                    let d = self.stack.len();
                    let at_root = cur.is_root;
                    if step_matches(&cur.step, &self.criteria[d], at_root) {
                        if d + 1 == self.criteria.len() {
                            // Full match: emit the route, then resume one
                            // level up so remaining siblings are searched.
                            let mut path = steps_of(&self.stack);
                            path.push(cur.step);
                            let val = cur.node;
                            self.current = self.stack.pop();
                            proof {
                                self.emitted@ = self.emitted@.push((path@, *val));
                                assert(pre.steps_prefix(len) =~= pre.stack@.map_values(
                                    |f: Frame<'a>| f.step,
                                ));
                                assert(path@ == pre.steps_prefix(len).push(cur.step));
                                assert forall|i: int| 0 <= i < pre.criteria@.len() implies
                                    spec_matches(#[trigger] path@[i], pre.criteria@[i], i == 0) by {
                                    if i < len {
                                        assert(pre.stack_frame_ok(i));
                                        assert(path@[i] == pre.stack@[i].step);
                                    } else {
                                        assert(path@[i] == cur.step);
                                    }
                                }
                                let ghost item = (path@, *val);
                                assert(pre.cur_pending() =~= seq![item]);
                                if len > 0 {
                                    assert(pre.stack_frame_ok(len - 1));
                                    lemma_pop_wf(pre, *self);
                                    assert(pre.frames_pending(len) == pre.frame_pending(len - 1)
                                        + pre.frames_pending(len - 1));
                                    assert(self.steps_prefix(len - 1).push(pre.stack@[len - 1].step)
                                        =~= pre.steps_prefix(len));
                                    assert(self.cur_pending() == pre.frame_pending(len - 1));
                                    lemma_frames_pending_eq(*self, pre, len - 1);
                                }
                                assert(self.emitted@ + self.pending_results() =~= pre.emitted@
                                    + pre.pending_results());
                            }
                            return Some(Found { value: val, path });
                        } else {
                            // Partial match: descend into the first child;
                            // a childless node backtracks instead.
                            let ghost cpos = cur.pos as int;
                            match cur.advance() {
                                Some((s, child)) => {
                                    let ghost q = pre.steps_prefix(len).push(cur.step);
                                    self.stack.push(cur);
                                    self.current = Some(
                                        Frame { step: s, node: child, pos: 0, is_root: false },
                                    );
                                    proof {
                                        lemma_route_target_wf(*pre.doc, q);
                                        lemma_step_target_child(*cur.node, cpos, s);
                                        lemma_route_target_snoc(*pre.doc, q, s, *cur.node);
                                        assert forall|j: int| 0 <= j < self.stack@.len() implies
                                            #[trigger] self.stack_frame_ok(j) by {
                                            if j < len {
                                                assert(pre.stack_frame_ok(j));
                                                assert(self.steps_prefix(j + 1) =~= pre.steps_prefix(
                                                    j + 1,
                                                ));
                                                assert(self.stack@[j] == pre.stack@[j]);
                                            } else {
                                                assert(self.steps_prefix(len + 1) =~= q);
                                            }
                                        }
                                        assert(self.steps_prefix(len + 1) =~= q);
                                        assert(self.steps_prefix(self.stack@.len() as int).push(s)
                                            =~= q.push(s));
                                        lemma_frames_weight_prefix(self.stack@, pre.stack@, len);
                                        lemma_suffix_weight_unfold(*cur.node, cpos);
                                        assert(frames_weight(self.stack@, len + 1)
                                            == frames_weight(pre.stack@, len) + frame_weight(cur));
                                        assert((*child).size() == 1 + (*child).suffix_weight(0));
                                        assert(self.pending_weight() == pre.pending_weight());
                                        assert(pre.cur_pending() == results_kids(
                                            *cur.node,
                                            cpos,
                                            pre.criteria@,
                                            len + 1,
                                            q,
                                        ));
                                        assert(results_kids(*cur.node, cpos, pre.criteria@, len + 1, q)
                                            == results_at(
                                            (*cur.node).child_value(cpos),
                                            child_step_of(*cur.node, cpos),
                                            false,
                                            pre.criteria@,
                                            len + 1,
                                            q,
                                        ) + results_kids(*cur.node, cpos + 1, pre.criteria@, len + 1, q));
                                        lemma_frames_pending_eq(*self, pre, len);
                                        assert(self.frames_pending(len + 1) == self.frame_pending(len)
                                            + self.frames_pending(len));
                                        assert(self.frame_pending(len) == results_kids(
                                            *cur.node,
                                            cpos + 1,
                                            pre.criteria@,
                                            len + 1,
                                            q,
                                        ));
                                        assert(self.cur_pending() == results_at(
                                            *child,
                                            s,
                                            false,
                                            pre.criteria@,
                                            len + 1,
                                            q,
                                        ));
                                        assert(self.emitted@ + self.pending_results() =~= pre.emitted@
                                            + pre.pending_results());
                                    }
                                },
                                None => {
                                    self.current = self.stack.pop();
                                    proof {
                                        assert(pre.cur_pending() =~= Seq::<SearchItem<'a>>::empty());
                                        if len > 0 {
                                            assert(pre.stack_frame_ok(len - 1));
                                            lemma_pop_wf(pre, *self);
                                            lemma_frames_weight_prefix(
                                                self.stack@,
                                                pre.stack@,
                                                len - 1,
                                            );
                                            assert(pre.frames_pending(len) == pre.frame_pending(
                                                len - 1,
                                            ) + pre.frames_pending(len - 1));
                                            assert(self.steps_prefix(len - 1).push(
                                                pre.stack@[len - 1].step,
                                            ) =~= pre.steps_prefix(len));
                                            assert(self.cur_pending() == pre.frame_pending(len - 1));
                                            lemma_frames_pending_eq(*self, pre, len - 1);
                                        }
                                        assert(self.pending_weight() < pre.pending_weight());
                                        assert(self.emitted@ + self.pending_results() =~= pre.emitted@
                                            + pre.pending_results());
                                    }
                                },
                            }
                        }
                    } else {
                        // No match: try the parent's next child at the same
                        // depth; an exhausted parent becomes the candidate
                        // again, to be backtracked past in its turn.
                        match self.stack.pop() {
                            None => {
                                proof {
                                    assert(self.pending_weight() < pre.pending_weight());
                                    assert(pre.cur_pending() =~= Seq::<SearchItem<'a>>::empty());
                                    assert(self.emitted@ + self.pending_results() =~= pre.emitted@
                                        + pre.pending_results());
                                }
                            },
                            Some(mut parent) => {
                                let ghost ppos = parent.pos as int;
                                match parent.advance() {
                                    Some((s, child)) => {
                                        let ghost q = pre.steps_prefix(len);
                                        self.stack.push(parent);
                                        self.current = Some(
                                            Frame { step: s, node: child, pos: 0, is_root: false },
                                        );
                                        proof {
                                            assert(pre.stack_frame_ok(len - 1));
                                            lemma_route_target_wf(*pre.doc, q);
                                            lemma_step_target_child(*parent.node, ppos, s);
                                            lemma_route_target_snoc(*pre.doc, q, s, *parent.node);
                                            assert(self.stack@ =~= pre.stack@.update(
                                                len - 1,
                                                self.stack@[len - 1],
                                            ));
                                            assert forall|j: int| 0 <= j < self.stack@.len() implies
                                                #[trigger] self.stack_frame_ok(j) by {
                                                assert(pre.stack_frame_ok(j));
                                                assert(self.steps_prefix(j + 1) =~= pre.steps_prefix(
                                                    j + 1,
                                                ));
                                                if j < len - 1 {
                                                    assert(self.stack@[j] == pre.stack@[j]);
                                                }
                                            }
                                            assert(self.steps_prefix(self.stack@.len() as int).push(s)
                                                =~= q.push(s));
                                            lemma_frames_weight_prefix(
                                                self.stack@,
                                                pre.stack@,
                                                len - 1,
                                            );
                                            lemma_suffix_weight_unfold(*parent.node, ppos);
                                            assert(frames_weight(self.stack@, len)
                                                == frames_weight(pre.stack@, len - 1)
                                                + frame_weight(parent));
                                            assert(frames_weight(pre.stack@, len)
                                                == frames_weight(pre.stack@, len - 1)
                                                + frame_weight(pre.stack@[len - 1]));
                                            assert((*child).size() == 1 + (*child).suffix_weight(0));
                                            assert(self.pending_weight() < pre.pending_weight());
                                            assert(pre.cur_pending() =~= Seq::<
                                                SearchItem<'a>,
                                            >::empty());
                                            assert(pre.frames_pending(len) == pre.frame_pending(
                                                len - 1,
                                            ) + pre.frames_pending(len - 1));
                                            assert(pre.frame_pending(len - 1) == results_kids(
                                                *parent.node,
                                                ppos,
                                                pre.criteria@,
                                                len,
                                                q,
                                            ));
                                            assert(results_kids(
                                                *parent.node,
                                                ppos,
                                                pre.criteria@,
                                                len,
                                                q,
                                            ) == results_at(
                                                (*parent.node).child_value(ppos),
                                                child_step_of(*parent.node, ppos),
                                                false,
                                                pre.criteria@,
                                                len,
                                                q,
                                            ) + results_kids(
                                                *parent.node,
                                                ppos + 1,
                                                pre.criteria@,
                                                len,
                                                q,
                                            ));
                                            lemma_frames_pending_eq(*self, pre, len - 1);
                                            assert(self.frames_pending(len) == self.frame_pending(
                                                len - 1,
                                            ) + self.frames_pending(len - 1));
                                            assert(self.steps_prefix(len) =~= q);
                                            assert(self.frame_pending(len - 1) == results_kids(
                                                *parent.node,
                                                ppos + 1,
                                                pre.criteria@,
                                                len,
                                                q,
                                            ));
                                            assert(self.cur_pending() == results_at(
                                                *child,
                                                s,
                                                false,
                                                pre.criteria@,
                                                len,
                                                q,
                                            ));
                                            assert(self.emitted@ + self.pending_results()
                                                =~= pre.emitted@ + pre.pending_results());
                                        }
                                    },
                                    None => {
                                        self.current = Some(parent);
                                        proof {
                                            assert(pre.stack_frame_ok(len - 1));
                                            lemma_pop_wf(pre, *self);
                                            lemma_frames_weight_prefix(
                                                self.stack@,
                                                pre.stack@,
                                                len - 1,
                                            );
                                            assert(frames_weight(pre.stack@, len)
                                                == frames_weight(pre.stack@, len - 1)
                                                + frame_weight(pre.stack@[len - 1]));
                                            assert(self.pending_weight() < pre.pending_weight());
                                            assert(pre.cur_pending() =~= Seq::<
                                                SearchItem<'a>,
                                            >::empty());
                                            assert(pre.frames_pending(len) == pre.frame_pending(
                                                len - 1,
                                            ) + pre.frames_pending(len - 1));
                                            assert(pre.frame_pending(len - 1) =~= Seq::<
                                                SearchItem<'a>,
                                            >::empty());
                                            assert(self.steps_prefix(len - 1).push(
                                                pre.stack@[len - 1].step,
                                            ) =~= pre.steps_prefix(len));
                                            assert(self.cur_pending() =~= Seq::<
                                                SearchItem<'a>,
                                            >::empty());
                                            lemma_frames_pending_eq(*self, pre, len - 1);
                                            assert(self.emitted@ + self.pending_results()
                                                =~= pre.emitted@ + pre.pending_results());
                                        }
                                    },
                                }
                            },
                        }
                    }
                },
            }
        }
    }
}

/// The steps taken by descending through `v` along the child indices
/// `idxs`, one index per level.
pub open spec fn steps_along<'x>(v: Value, idxs: Seq<int>) -> Seq<Step<'x>>
    decreases idxs.len(),
{
    if idxs.len() == 0 {
        Seq::empty()
    } else {
        seq![child_step_of(v, idxs[0])] + steps_along(v.child_value(idxs[0]), idxs.drop_first())
    }
}

/// The node reached by descending through `v` along the child indices
/// `idxs`.
pub open spec fn value_along(v: Value, idxs: Seq<int>) -> Value
    decreases idxs.len(),
{
    if idxs.len() == 0 {
        v
    } else {
        value_along(v.child_value(idxs[0]), idxs.drop_first())
    }
}

/// Every index of the descent is in range at its level.
pub open spec fn route_in_bounds(v: Value, idxs: Seq<int>) -> bool
    decreases idxs.len(),
{
    if idxs.len() == 0 {
        true
    } else {
        &&& 0 <= idxs[0] < v.num_children()
        &&& route_in_bounds(v.child_value(idxs[0]), idxs.drop_first())
    }
}

/// Every step of the descent satisfies the criterion at its position,
/// starting from criterion index `ci`.
pub open spec fn route_matches_from(v: Value, idxs: Seq<int>, cl: Seq<Criterion>, ci: int) -> bool
    decreases idxs.len(),
{
    if idxs.len() == 0 {
        true
    } else {
        &&& spec_matches(child_step_of(v, idxs[0]), cl[ci], false)
        &&& route_matches_from(v.child_value(idxs[0]), idxs.drop_first(), cl, ci + 1)
    }
}

/// An item of either part of a concatenation is an item of the whole.
proof fn lemma_contains_concat<'x>(a: Seq<SearchItem<'x>>, b: Seq<SearchItem<'x>>, x: SearchItem<'x>)
    requires
        a.contains(x) || b.contains(x),
    ensures
        (a + b).contains(x),
{
    if a.contains(x) {
        let j = choose|j: int| 0 <= j < a.len() && a[j] == x;
        assert((a + b)[j] == x);
    } else {
        let j = choose|j: int| 0 <= j < b.len() && b[j] == x;
        assert((a + b)[a.len() + j] == x);
    }
}

/// What one child's search yields, the search over all children from any
/// earlier position yields too.
proof fn lemma_kids_contain<'x>(
    v: Value,
    from: int,
    i: int,
    cl: Seq<Criterion>,
    ci: int,
    prefix: Seq<Step<'x>>,
    x: SearchItem<'x>,
)
    requires
        0 <= from <= i < v.num_children(),
        results_at(v.child_value(i), child_step_of(v, i), false, cl, ci, prefix).contains(x),
    ensures
        results_kids(v, from, cl, ci, prefix).contains(x),
    decreases i - from,
{
    let head = results_at(v.child_value(from), child_step_of(v, from), false, cl, ci, prefix);
    let rest = results_kids(v, from + 1, cl, ci, prefix);
    if from < i {
        lemma_kids_contain(v, from + 1, i, cl, ci, prefix, x);
    }
    lemma_contains_concat(head, rest, x);
}

/// A candidate that matches its criterion yields every descent below it
/// whose steps go on satisfying the rest of the pattern.
proof fn lemma_results_at_complete<'x>(
    v: Value,
    s: Step<'x>,
    at_root: bool,
    cl: Seq<Criterion>,
    ci: int,
    prefix: Seq<Step<'x>>,
    idxs: Seq<int>,
)
    requires
        v.wf(),
        0 <= ci < cl.len(),
        idxs.len() == cl.len() - 1 - ci,
        spec_matches(s, cl[ci], at_root),
        route_in_bounds(v, idxs),
        route_matches_from(v, idxs, cl, ci + 1),
    ensures
        results_at(v, s, at_root, cl, ci, prefix).contains(
            (prefix.push(s) + steps_along(v, idxs), value_along(v, idxs)),
        ),
    decreases idxs.len(),
{
    if idxs.len() == 0 {
        assert(prefix.push(s) + steps_along(v, idxs) =~= prefix.push(s));
        assert(results_at(v, s, at_root, cl, ci, prefix)[0] == (prefix.push(s), v));
    } else {
        let i = idxs[0];
        let child = v.child_value(i);
        let cs = child_step_of::<'x>(v, i);
        let rest = idxs.drop_first();
        crate::value::lemma_child_wf(v, i);
        lemma_results_at_complete(child, cs, false, cl, ci + 1, prefix.push(s), rest);
        let item = (prefix.push(s).push(cs) + steps_along(child, rest), value_along(child, rest));
        lemma_kids_contain(v, 0, i, cl, ci + 1, prefix.push(s), item);
        assert(steps_along(v, idxs) =~= seq![cs] + steps_along(child, rest));
        assert(prefix.push(s) + (seq![cs] + steps_along(child, rest)) =~= prefix.push(s).push(cs)
            + steps_along(child, rest));
    }
}

/// Completeness: every route through a well-formed document whose steps
/// satisfy the whole pattern, position by position, appears among the
/// search's results — no satisfying route is missed.
pub proof fn lemma_search_complete<'x>(doc: Value, cl: Seq<Criterion>, idxs: Seq<int>)
    requires
        doc.wf(),
        cl.len() >= 1,
        cl[0] is Root,
        idxs.len() == cl.len() - 1,
        route_in_bounds(doc, idxs),
        route_matches_from(doc, idxs, cl, 1),
    ensures
        search::<'x>(doc, cl).contains(
            (Seq::empty().push(Step::Root) + steps_along(doc, idxs), value_along(doc, idxs)),
        ),
{
    lemma_results_at_complete(doc, Step::Root, true, cl, 0, Seq::empty(), idxs);
}

/// Exhaustiveness without duplication: a pattern ending in a wildcard,
/// applied to a node with `k` children, yields exactly `k` results for
/// that segment — one per child, each exactly once, in canonical order.
pub proof fn lemma_wildcard_fanout<'x>(
    v: Value,
    cl: Seq<Criterion>,
    ci: int,
    prefix: Seq<Step<'x>>,
    from: int,
)
    requires
        0 <= from <= v.num_children(),
        0 <= ci,
        ci == cl.len() - 1,
        cl[ci] is AnyChild,
    ensures
        results_kids(v, from, cl, ci, prefix).len() == v.num_children() - from,
        forall|j: int|
            from <= j < v.num_children() ==> results_kids(v, from, cl, ci, prefix)[j - from]
                == (prefix.push(child_step_of(v, j)), v.child_value(j)),
    decreases v.num_children() - from,
{
    if from < v.num_children() {
        lemma_wildcard_fanout(v, cl, ci, prefix, from + 1);
        let head = results_at(v.child_value(from), child_step_of(v, from), false, cl, ci, prefix);
        assert(head =~= seq![(prefix.push(child_step_of(v, from)), v.child_value(from))]);
    }
}

/// Determinism, part one: an exhausted engine has produced exactly the
/// search of its document and pattern — a function of those two alone.
pub proof fn lemma_exhausted_complete<'a, 'b>(it: Iter<'a, 'b>)
    requires
        it.wf(),
        it.exhausted(),
    ensures
        it.produced() == search(it.doc_spec(), it.criteria_spec()),
{
    assert(it.pending_results() =~= Seq::<SearchItem<'a>>::empty());
    assert(it.emitted@ + it.pending_results() =~= it.emitted@);
}

/// Determinism: two exhausted traversals of the same document under the
/// same pattern have produced identical result sequences, in the same
/// order.
pub proof fn lemma_deterministic<'a, 'b>(x: Iter<'a, 'b>, y: Iter<'a, 'b>)
    requires
        x.wf(),
        y.wf(),
        x.exhausted(),
        y.exhausted(),
        x.doc_spec() == y.doc_spec(),
        x.criteria_spec() == y.criteria_spec(),
    ensures
        x.produced() == y.produced(),
{
    lemma_exhausted_complete(x);
    lemma_exhausted_complete(y);
}

/// Engines that agree on their criteria and on their first `j` frames
/// have the same pending results over those frames.
proof fn lemma_frames_pending_eq<'a, 'b>(a: Iter<'a, 'b>, b: Iter<'a, 'b>, j: int)
    requires
        a.criteria@ == b.criteria@,
        j <= a.stack@.len(),
        j <= b.stack@.len(),
        forall|k: int| 0 <= k < j ==> a.stack@[k] == b.stack@[k],
    ensures
        a.frames_pending(j) == b.frames_pending(j),
    decreases j,
{
    if j > 0 {
        lemma_frames_pending_eq(a, b, j - 1);
        assert(a.stack@.subrange(0, j) =~= b.stack@.subrange(0, j));
        assert(a.stack@[j - 1] == b.stack@[j - 1]);
    }
}

/// After the top retained frame is popped back into the candidate slot —
/// with its step, node, root mark and cursor untouched — the engine
/// invariant holds again.
proof fn lemma_pop_wf<'a, 'b>(pre: Iter<'a, 'b>, post: Iter<'a, 'b>)
    requires
        (*pre.doc).wf(),
        pre.criteria@.len() >= 1,
        pre.stack@.len() + 1 <= pre.criteria@.len(),
        pre.stack@.len() > 0,
        forall|j: int| 0 <= j < pre.stack@.len() ==> #[trigger] pre.stack_frame_ok(j),
        post.doc == pre.doc,
        post.criteria == pre.criteria,
        post.stack@ == pre.stack@.drop_last(),
        post.current matches Some(c) && c == pre.stack@.last(),
    ensures
        post.shape_wf(),
{
    let len = pre.stack@.len() as int;
    assert forall|j: int| 0 <= j < post.stack@.len() implies #[trigger] post.stack_frame_ok(j) by {
        assert(pre.stack_frame_ok(j));
        assert(post.steps_prefix(j + 1) =~= pre.steps_prefix(j + 1));
        assert(post.stack@[j] == pre.stack@[j]);
    }
    assert(pre.stack_frame_ok(len - 1));
    assert(post.steps_prefix(len - 1).push(pre.stack@.last().step) =~= pre.steps_prefix(len));
}

} // verus!

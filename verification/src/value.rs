//! The document tree: a JSON-like value whose object children are kept in
//! ascending lexicographic key order, so that enumeration order is canonical.

use vstd::prelude::*;

verus! {

/// A JSON-like document node. Objects store their entries as a vector of
/// `(key, child)` pairs whose keys are strictly ascending (see [`Value::wf`]);
/// arrays store children by index. Scalars carry no children.
pub enum Value {
    Null,
    Bool(bool),
    Number(i64),
    Text(String),
    Array(Vec<Value>),
    Object(Vec<(String, Value)>),
}

/// Strict lexicographic order on character sequences, by code point.
pub open spec fn lex_lt(a: Seq<char>, b: Seq<char>) -> bool
    decreases a.len(),
{
    if b.len() == 0 {
        false
    } else if a.len() == 0 {
        true
    } else if (a[0] as u32) < (b[0] as u32) {
        true
    } else if (a[0] as u32) > (b[0] as u32) {
        false
    } else {
        lex_lt(a.drop_first(), b.drop_first())
    }
}

/// The value stored under `key` in an entry sequence: the first entry whose
/// key matches, if any.
pub open spec fn entries_get(entries: Seq<(String, Value)>, key: Seq<char>) -> Option<Value>
    decreases entries.len(),
{
    if entries.len() == 0 {
        None
    } else if entries[0].0@ == key {
        Some(entries[0].1)
    } else {
        entries_get(entries.drop_first(), key)
    }
}

impl Value {
    /// Well-formedness: every object in the tree keeps its keys strictly
    /// ascending in lexicographic order, so children enumerate canonically.
    pub open spec fn wf(self) -> bool
        decreases self,
    {
        match self {
            Value::Array(items) => forall|i: int|
                0 <= i < items@.len() ==> (#[trigger] items@[i]).wf(),
            Value::Object(entries) => {
                &&& forall|i: int| 0 <= i < entries@.len() ==> (#[trigger] entries@[i].1).wf()
                &&& forall|i: int, j: int|
                    0 <= i < j < entries@.len() ==> lex_lt(
                        #[trigger] entries@[i].0@,
                        #[trigger] entries@[j].0@,
                    )
            },
            _ => true,
        }
    }

    /// How many direct children this node offers for enumeration.
    pub open spec fn num_children(self) -> int {
        match self {
            Value::Array(items) => items@.len() as int,
            Value::Object(entries) => entries@.len() as int,
            _ => 0,
        }
    }

    /// The `i`-th direct child, in canonical enumeration order.
    pub open spec fn child_value(self, i: int) -> Value {
        match self {
            Value::Array(items) => items@[i],
            Value::Object(entries) => entries@[i].1,
            _ => self,
        }
    }

    /// The key of the `i`-th entry of an object node.
    pub open spec fn child_key(self, i: int) -> Seq<char> {
        match self {
            Value::Object(entries) => entries@[i].0@,
            _ => Seq::empty(),
        }
    }

    /// The number of nodes in this tree: the node itself and all its
    /// descendants. Every tree is finite, so searches can be bounded by it.
    pub open spec fn size(self) -> nat
        decreases self, self.num_children() + 1,
    {
        1 + self.suffix_weight(0)
    }

    /// The total size of the children from position `pos` onward: what a
    /// cursor standing at `pos` still has to offer.
    pub open spec fn suffix_weight(self, pos: int) -> nat
        decreases self, self.num_children() - pos,
    {
        if pos < 0 || pos >= self.num_children() {
            0
        } else {
            self.child_value(pos).size() + self.suffix_weight(pos + 1)
        }
    }
}

/// Passing one child reduces the remaining weight by exactly that child's
/// size.
pub proof fn lemma_suffix_weight_unfold(v: Value, pos: int)
    requires
        0 <= pos < v.num_children(),
    ensures
        v.suffix_weight(pos) == v.child_value(pos).size() + v.suffix_weight(pos + 1),
{
}

/// Strict lexicographic order composes: what is below `b` is below
/// whatever `b` is below.
pub proof fn lemma_lex_lt_trans(a: Seq<char>, b: Seq<char>, c: Seq<char>)
    requires
        lex_lt(a, b),
        lex_lt(b, c),
    ensures
        lex_lt(a, c),
    decreases a.len() + b.len() + c.len(),
{
    if a.len() > 0 && (a[0] as u32) == (b[0] as u32) && (b[0] as u32) == (c[0] as u32) {
        lemma_lex_lt_trans(a.drop_first(), b.drop_first(), c.drop_first());
    }
}

/// Sequences that agree on their first `i` elements compare beyond them.
pub proof fn lemma_lex_lt_skip(a: Seq<char>, b: Seq<char>, i: int)
    requires
        0 <= i <= a.len(),
        i <= b.len(),
        forall|k: int| 0 <= k < i ==> a[k] == b[k],
    ensures
        lex_lt(a, b) == lex_lt(a.skip(i), b.skip(i)),
    decreases i,
{
    if i > 0 {
        assert(a[0] == b[0]);
        let a1 = a.drop_first();
        let b1 = b.drop_first();
        assert forall|k: int| 0 <= k < i - 1 implies a1[k] == b1[k] by {
            assert(a1[k] == a[k + 1]);
            assert(b1[k] == b[k + 1]);
        }
        lemma_lex_lt_skip(a1, b1, i - 1);
        assert(a1.skip(i - 1) =~= a.skip(i));
        assert(b1.skip(i - 1) =~= b.skip(i));
    } else {
        assert(a.skip(0) =~= a);
        assert(b.skip(0) =~= b);
    }
}

/// Lexicographic comparison of two strings, by code point: decides
/// [`lex_lt`] on their character sequences.
pub fn str_lt(a: &str, b: &str) -> (r: bool)
    ensures
        r == lex_lt(a@, b@),
{
    let alen = a.unicode_len();
    let blen = b.unicode_len();
    let mut i: usize = 0;
    loop
        invariant
            i <= alen,
            i <= blen,
            alen == a@.len(),
            blen == b@.len(),
            forall|k: int| 0 <= k < i ==> a@[k] == b@[k],
        decreases alen - i,
    {
        proof {
            lemma_lex_lt_skip(a@, b@, i as int);
        }
        if i == blen {
            return false;
        }
        if i == alen {
            return true;
        }
        let ca = a.get_char(i);
        let cb = b.get_char(i);
        proof {
            assert(a@.skip(i as int)[0] == a@[i as int]);
            assert(b@.skip(i as int)[0] == b@[i as int]);
        }
        if (ca as u32) < (cb as u32) {
            return true;
        }
        if (ca as u32) > (cb as u32) {
            return false;
        }
        i = i + 1;
    }
}

/// Strict lexicographic order never relates a sequence to itself.
pub proof fn lemma_lex_lt_irrefl(a: Seq<char>)
    ensures
        !lex_lt(a, a),
    decreases a.len(),
{
    if a.len() > 0 {
        lemma_lex_lt_irrefl(a.drop_first());
    }
}

/// In an entry sequence with strictly ascending keys, looking up the key of
/// the `i`-th entry finds exactly the `i`-th entry's value.
pub proof fn lemma_entries_get_index(entries: Seq<(String, Value)>, i: int)
    requires
        0 <= i < entries.len(),
        forall|p: int, q: int|
            0 <= p < q < entries.len() ==> lex_lt(
                #[trigger] entries[p].0@,
                #[trigger] entries[q].0@,
            ),
    ensures
        entries_get(entries, entries[i].0@) == Some(entries[i].1),
    decreases entries.len(),
{
    if i == 0 {
    } else {
        lemma_lex_lt_irrefl(entries[i].0@);
        assert(lex_lt(entries[0].0@, entries[i].0@));
        assert(entries[0].0@ != entries[i].0@);
        let rest = entries.drop_first();
        assert forall|p: int, q: int| 0 <= p < q < rest.len() implies lex_lt(
            #[trigger] rest[p].0@,
            #[trigger] rest[q].0@,
        ) by {
            assert(rest[p] == entries[p + 1]);
            assert(rest[q] == entries[q + 1]);
        }
        lemma_entries_get_index(rest, i - 1);
        assert(rest[i - 1] == entries[i]);
    }
}

/// A well-formed node's children are well-formed.
pub proof fn lemma_child_wf(v: Value, i: int)
    requires
        v.wf(),
        0 <= i < v.num_children(),
    ensures
        v.child_value(i).wf(),
{
}

/// Keys ascending between every two neighbours ascend between any two
/// positions.
proof fn lemma_adjacent_sorted(entries: Seq<(String, Value)>, p: int, q: int)
    requires
        forall|k: int| 1 <= k < entries.len() ==> lex_lt(
            entries[k - 1].0@,
            #[trigger] entries[k].0@,
        ),
        0 <= p < q < entries.len(),
    ensures
        lex_lt(entries[p].0@, entries[q].0@),
    decreases q - p,
{
    if q > p + 1 {
        lemma_adjacent_sorted(entries, p, q - 1);
        lemma_lex_lt_trans(entries[p].0@, entries[q - 1].0@, entries[q].0@);
    }
}

impl Value {
    /// Decides well-formedness at run time, for documents built by
    /// unverified callers: every object's keys must strictly ascend, at
    /// every depth.
    #[verifier::loop_isolation(false)]
    pub fn check_wf(&self) -> (r: bool)
        ensures
            r == self.wf(),
        decreases *self,
    {
        match self {
            Value::Object(entries) => {
                let n = entries.len();
                let mut k: usize = 0;
                while k < n
                    invariant
                        k <= n,
                        n == entries@.len(),
                        forall|p: int| 0 <= p < k ==> (#[trigger] entries@[p].1).wf(),
                        forall|p: int| 1 <= p < k ==> lex_lt(
                            entries@[p - 1].0@,
                            #[trigger] entries@[p].0@,
                        ),
                    decreases n - k,
                {
                    if k > 0 {
                        if !str_lt(entries[k - 1].0.as_str(), entries[k].0.as_str()) {
                            proof {
                                assert(self.wf() ==> lex_lt(
                                    entries@[k - 1].0@,
                                    entries@[k as int].0@,
                                ));
                            }
                            return false;
                        }
                    }
                    if !entries[k].1.check_wf() {
                        proof {
                            assert(self.wf() ==> entries@[k as int].1.wf());
                        }
                        return false;
                    }
                    k = k + 1;
                }
                proof {
                    assert forall|p: int, q: int| 0 <= p < q < entries@.len() implies lex_lt(
                        #[trigger] entries@[p].0@,
                        #[trigger] entries@[q].0@,
                    ) by {
                        lemma_adjacent_sorted(entries@, p, q);
                    }
                }
                true
            },
            Value::Array(items) => {
                let n = items.len();
                let mut k: usize = 0;
                while k < n
                    invariant
                        k <= n,
                        n == items@.len(),
                        forall|p: int| 0 <= p < k ==> (#[trigger] items@[p]).wf(),
                    decreases n - k,
                {
                    if !items[k].check_wf() {
                        proof {
                            assert(self.wf() ==> items@[k as int].wf());
                        }
                        return false;
                    }
                    k = k + 1;
                }
                true
            },
            _ => true,
        }
    }
}

} // verus!


use vstd::prelude::*;
use crate::expr::{ExprLocation, Visibility};
use crate::istr::{lemma_lex_total, lemma_lex_trans, lex_lt, IStr};
use crate::val::{bind_height, bind_model, duplicate_opt_val, opt_val_model, EvalError, MBind, MVal, Val};

verus! {

/// Handle of an object node in an `ObjArena`.  Equality and hash go by the
/// handle alone: two handles are the same object exactly when they carry the
/// same index — the reference identity that memoization and assertion
/// bookkeeping rely on.
#[derive(Debug, Clone, Copy, PartialEq, Eq, Hash, Structural)]
pub struct ObjValue {
    pub id: usize,
}

/// A single field descriptor: the additive (`+:`) flag, the visibility, the
/// deferred computation of the value, and an optional source location that
/// only diagnostics read.
pub struct ObjMember {
    pub add: bool,
    pub visibility: Visibility,
    pub invoke: crate::val::LazyBinding,
    pub location: Option<ExprLocation>,
}

/// Model of a member.
#[verifier::ext_equal]
pub struct MMember {
    pub add: bool,
    pub visibility: Visibility,
    pub invoke: MBind,
}

/// Model of a member.
pub open spec fn member_model(m: ObjMember) -> MMember {
    MMember { add: m.add, visibility: m.visibility, invoke: bind_model(m.invoke) }
}

/// A deferred predicate attached to an object.  It is evaluated against the
/// composed `self` and must yield `true` before any field read succeeds.
pub struct ObjectAssertion {
    pub cond: crate::val::LazyBinding,
}

/// One memoization record: field name, effective self, and the resolved
/// optional value (`None` records that the chain lacks the field).
struct CacheEntry {
    key: IStr,
    this: ObjValue,
    value: Option<Val>,
}

/// Model of a memoization record.
#[verifier::ext_equal]
pub struct MCache {
    pub key: Seq<u8>,
    pub this: int,
    pub value: Option<MVal>,
}

/// Model of an object node.
#[verifier::ext_equal]
pub struct MNode {
    /// Parent in the inheritance chain.
    pub sup: Option<int>,
    /// Pinned effective self, when this node is an alias made by `with_this`.
    pub pinned: Option<int>,
    /// Own members: name, member descriptor.  Lookup takes the first match.
    pub entries: Seq<(Seq<u8>, MMember)>,
    /// Own assertions, in order.
    pub asserts: Seq<MBind>,
    /// Memoization cache, append-only.
    pub cache: Seq<MCache>,
    /// Effective selves whose assertion runs already succeeded here.
    pub ran: Seq<int>,
}

/// A fresh node with empty caches.
pub open spec fn blank_node(
    sup: Option<int>,
    pinned: Option<int>,
    entries: Seq<(Seq<u8>, MMember)>,
    asserts: Seq<MBind>,
) -> MNode {
    MNode { sup, pinned, entries, asserts, cache: Seq::empty(), ran: Seq::empty() }
}

/// Model of an entry list.
pub open spec fn entries_model(s: Seq<(IStr, ObjMember)>) -> Seq<(Seq<u8>, MMember)> {
    s.map_values(|p: (IStr, ObjMember)| (p.0@, member_model(p.1)))
}

/// Model of an assertion list.
pub open spec fn asserts_model(s: Seq<ObjectAssertion>) -> Seq<MBind> {
    s.map_values(|a: ObjectAssertion| bind_model(a.cond))
}

/// Model of a cache.
spec fn cache_model(s: Seq<CacheEntry>) -> Seq<MCache> {
    s.map_values(
        |c: CacheEntry| MCache { key: c.key@, this: c.this.id as int, value: opt_val_model(c.value) },
    )
}

/// Model of a ran-set.
pub open spec fn ran_model(s: Seq<ObjValue>) -> Seq<int> {
    s.map_values(|o: ObjValue| o.id as int)
}

/// Structural sanity of a model heap: ancestors and pinned selves come
/// earlier in the arena than the nodes that point at them, and no
/// effective self is recorded twice in one ran-set.
pub open spec fn model_wf(h: Seq<MNode>) -> bool {
    forall|i: int| 0 <= i < h.len() ==> #[trigger] node_model_wf(h, i)
}

/// Structural sanity of one node of a model heap.
pub open spec fn node_model_wf(h: Seq<MNode>, i: int) -> bool {
    &&& match h[i].sup {
        Option::Some(s) => 0 <= s < i,
        Option::None => true,
    }
    &&& match h[i].pinned {
        Option::Some(p) => 0 <= p < i,
        Option::None => true,
    }
    &&& forall|j: int, k: int|
        0 <= j < k < h[i].ran.len() ==> h[i].ran[j] != h[i].ran[k]
}

/// The parent of a node, guarded so that every walk up the chain is
/// well-founded even on a heap that is not well formed.
pub open spec fn sup_of(h: Seq<MNode>, id: int) -> Option<int> {
    if 0 <= id < h.len() {
        match h[id].sup {
            Option::Some(s) => if 0 <= s < id {
                Option::Some(s)
            } else {
                Option::None
            },
            Option::None => Option::None,
        }
    } else {
        Option::None
    }
}

/// One object node, owned by the arena.  Only the caches mutate after
/// construction; everything else is written once.
pub struct ObjValueInternals {
    super_obj: Option<ObjValue>,
    this_obj: Option<ObjValue>,
    this_entries: usize,
    assertions: usize,
    assertions_ran: Vec<ObjValue>,
    value_cache: Vec<CacheEntry>,
}

/// The object arena.  Object values are handles into it; member and
/// assertion lists are shared between nodes, so a composition reuses what
/// the objects it was built from already hold.
pub struct ObjArena {
    nodes: Vec<ObjValueInternals>,
    entry_sets: Vec<Vec<(IStr, ObjMember)>>,
    assert_sets: Vec<Vec<ObjectAssertion>>,
    max_stack: usize,
    assertion_runs: usize,
}

impl ObjArena {
    /// Model of one node.
    pub(crate) closed spec fn node_model(&self, i: int) -> MNode {
        let n = self.nodes@[i];
        MNode {
            sup: match n.super_obj {
                Option::Some(s) => Option::Some(s.id as int),
                Option::None => Option::None,
            },
            pinned: match n.this_obj {
                Option::Some(t) => Option::Some(t.id as int),
                Option::None => Option::None,
            },
            entries: entries_model(self.entry_sets@[n.this_entries as int]@),
            asserts: asserts_model(self.assert_sets@[n.assertions as int]@),
            cache: cache_model(n.value_cache@),
            ran: ran_model(n.assertions_ran@),
        }
    }

    /// Model of the arena: the sequence of node models.
    pub closed spec fn model(&self) -> Seq<MNode> {
        Seq::new(self.nodes@.len() as nat, |i: int| self.node_model(i))
    }

    /// The configured recursion budget.
    pub closed spec fn spec_max_stack(&self) -> nat {
        self.max_stack as nat
    }

    /// How many assertion executions have happened so far.
    pub closed spec fn spec_assertion_runs(&self) -> nat {
        self.assertion_runs as nat
    }

    /// Arena well-formedness: the model is structurally sane and every
    /// node's shared member and assertion lists exist.
    pub closed spec fn wf(&self) -> bool {
        &&& model_wf(self.model())
        &&& forall|i: int|
            0 <= i < self.nodes@.len() ==> (#[trigger] self.nodes@[i]).this_entries
                < self.entry_sets@.len() && self.nodes@[i].assertions < self.assert_sets@.len()
    }

    /// A fresh arena with the given recursion budget and no objects.
    pub fn new_arena(max_stack: usize) -> (r: ObjArena)
        ensures
            r.wf(),
            r.model() == Seq::<MNode>::empty(),
            r.spec_max_stack() == max_stack as nat,
            r.spec_assertion_runs() == 0,
    {
        let r = ObjArena {
            nodes: Vec::new(),
            entry_sets: Vec::new(),
            assert_sets: Vec::new(),
            max_stack,
            assertion_runs: 0,
        };
        proof {
            assert(r.model() =~= Seq::<MNode>::empty());
        }
        r
    }

    /// Change the recursion budget; the objects are untouched.
    pub fn set_max_stack(&mut self, max_stack: usize)
        requires
            old(self).wf(),
        ensures
            final(self).wf(),
            final(self).model() == old(self).model(),
            final(self).spec_max_stack() == max_stack as nat,
            final(self).spec_assertion_runs() == old(self).spec_assertion_runs(),
    {
        self.max_stack = max_stack;
        proof {
            assert(self.model() =~= old(self).model());
        }

    }

    /// How many assertion executions have happened so far.
    pub fn assertion_runs(&self) -> (r: usize)
        ensures
            r as nat == self.spec_assertion_runs(),
    {
        self.assertion_runs
    }

    /// How many objects live in the arena.
    pub fn node_count(&self) -> (r: usize)
        ensures
            r as nat == self.model().len(),
    {
        self.nodes.len()
    }
}

/// Append a node built from already-stored member and assertion lists.
fn push_node(
    heap: &mut ObjArena,
    super_obj: Option<ObjValue>,
    this_obj: Option<ObjValue>,
    this_entries: usize,
    assertions: usize,
) -> (r: ObjValue)
    requires
        old(heap).wf(),
        match super_obj {
            Option::Some(s) => s.id < old(heap).nodes@.len(),
            Option::None => true,
        },
        match this_obj {
            Option::Some(t) => t.id < old(heap).nodes@.len(),
            Option::None => true,
        },
        this_entries < old(heap).entry_sets@.len(),
        assertions < old(heap).assert_sets@.len(),
    ensures
        final(heap).wf(),
        r.id as int == old(heap).model().len(),
        final(heap).model() == old(heap).model().push(
            blank_node(
                match super_obj {
                    Option::Some(s) => Option::Some(s.id as int),
                    Option::None => Option::None,
                },
                match this_obj {
                    Option::Some(t) => Option::Some(t.id as int),
                    Option::None => Option::None,
                },
                entries_model(old(heap).entry_sets@[this_entries as int]@),
                asserts_model(old(heap).assert_sets@[assertions as int]@),
            ),
        ),
        final(heap).entry_sets@ == old(heap).entry_sets@,
        final(heap).assert_sets@ == old(heap).assert_sets@,
        final(heap).spec_max_stack() == old(heap).spec_max_stack(),
        final(heap).spec_assertion_runs() == old(heap).spec_assertion_runs(),
        final(heap).nodes@.len() == old(heap).nodes@.len() + 1,
        forall|i: int|
            0 <= i < old(heap).nodes@.len() ==> final(heap).nodes@[i] == old(heap).nodes@[i],
{
    let id = heap.nodes.len();
    heap.nodes.push(
        ObjValueInternals {
            super_obj,
            this_obj,
            this_entries,
            assertions,
            assertions_ran: Vec::new(),
            value_cache: Vec::new(),
        },
    );
    proof {
        let m0 = old(heap).model();
        let m1 = heap.model();
        assert forall|i: int| 0 <= i < m0.len() implies heap.node_model(i) == old(heap).node_model(
            i,
        ) by {
            assert(heap.nodes@[i] == old(heap).nodes@[i]);
        }
        assert(heap.node_model(id as int).cache =~= Seq::<MCache>::empty());
        assert(heap.node_model(id as int).ran =~= Seq::<int>::empty());
        assert(m1 =~= m0.push(heap.node_model(id as int)));
        assert forall|i: int| 0 <= i < m1.len() implies node_model_wf(m1, i) by {
            if i < m0.len() {
                assert(node_model_wf(m0, i));
            }
        }
    }
    ObjValue { id }
}

impl ObjValue {
    /// Create a fresh object with the given parent, own members and own
    /// assertions.  Caches start empty and nothing is pinned.
    pub fn new(
        heap: &mut ObjArena,
        super_obj: Option<ObjValue>,
        this_entries: Vec<(IStr, ObjMember)>,
        assertions: Vec<ObjectAssertion>,
    ) -> (r: ObjValue)
        requires
            old(heap).wf(),
            match super_obj {
                Option::Some(s) => (s.id as int) < old(heap).model().len(),
                Option::None => true,
            },
        ensures
            final(heap).wf(),
            r.id as int == old(heap).model().len(),
            final(heap).model() == old(heap).model().push(
                blank_node(
                    match super_obj {
                        Option::Some(s) => Option::Some(s.id as int),
                        Option::None => Option::None,
                    },
                    Option::None,
                    entries_model(this_entries@),
                    asserts_model(assertions@),
                ),
            ),
            final(heap).spec_max_stack() == old(heap).spec_max_stack(),
            final(heap).spec_assertion_runs() == old(heap).spec_assertion_runs(),
    {
        let eidx = heap.entry_sets.len();
        heap.entry_sets.push(this_entries);
        let aidx = heap.assert_sets.len();
        heap.assert_sets.push(assertions);
        proof {
            assert(heap.model() =~= old(heap).model());
            assert forall|i: int| 0 <= i < heap.nodes@.len() implies node_model_wf(
                heap.model(),
                i,
            ) by {
                assert(node_model_wf(old(heap).model(), i));
            }
        }
        push_node(heap, super_obj, None, eidx, aidx)
    }

    /// An object with no parent, no members and no assertions.
    pub fn new_empty(heap: &mut ObjArena) -> (r: ObjValue)
        requires
            old(heap).wf(),
        ensures
            final(heap).wf(),
            r.id as int == old(heap).model().len(),
            final(heap).model() == old(heap).model().push(
                blank_node(
                    Option::None,
                    Option::None,
                    Seq::<(Seq<u8>, MMember)>::empty(),
                    Seq::<MBind>::empty(),
                ),
            ),
            final(heap).spec_max_stack() == old(heap).spec_max_stack(),
            final(heap).spec_assertion_runs() == old(heap).spec_assertion_runs(),
    {
        let r = Self::new(heap, None, Vec::new(), Vec::new());
        proof {
            assert(entries_model(Seq::<(IStr, ObjMember)>::empty()) =~= Seq::<(
                Seq<u8>,
                MMember,
            )>::empty());
            assert(asserts_model(Seq::<ObjectAssertion>::empty()) =~= Seq::<MBind>::empty());
        }
        r
    }

    /// Identity comparison of two handles.
    pub fn ptr_eq(a: &ObjValue, b: &ObjValue) -> (r: bool)
        ensures
            r == (a.id == b.id),
    {
        a.id == b.id
    }
}

/// The inheritance chain of a node, the node itself first, the deepest
/// ancestor last.
pub open spec fn chain_of(h: Seq<MNode>, id: int) -> Seq<int>
    decreases id,
{
    match sup_of(h, id) {
        Option::Some(s) => seq![id] + chain_of(h, s),
        Option::None => seq![id],
    }
}

/// Grafting `parent` at the bottom of `child`'s chain: every node of the
/// chain is copied with fresh caches, and the copy of the chain's last node
/// gets `parent` as its parent.  Returns the new heap and the handle of the
/// copy of `child`.
pub open spec fn spec_extend(h: Seq<MNode>, child: int, parent: int) -> (Seq<MNode>, int)
    decreases child,
{
    let ent = if 0 <= child < h.len() {
        h[child].entries
    } else {
        Seq::empty()
    };
    let asr = if 0 <= child < h.len() {
        h[child].asserts
    } else {
        Seq::empty()
    };
    match sup_of(h, child) {
        Option::None => (h.push(blank_node(Option::Some(parent), Option::None, ent, asr)), h.len() as int),
        Option::Some(s) => {
            let (h1, ns) = spec_extend(h, s, parent);
            (h1.push(blank_node(Option::Some(ns), Option::None, ent, asr)), h1.len() as int)
        }
    }
}

/// `spec_extend` only appends: the old nodes stay as they were, and the
/// returned handle is the last appended node.
pub proof fn lemma_spec_extend_frame(h: Seq<MNode>, child: int, parent: int)
    ensures
        spec_extend(h, child, parent).0.len() > h.len(),
        forall|i: int|
            0 <= i < h.len() ==> #[trigger] spec_extend(h, child, parent).0[i] == h[i],
        spec_extend(h, child, parent).1 == spec_extend(h, child, parent).0.len() - 1,
    decreases child,
{
    match sup_of(h, child) {
        Option::None => {}
        Option::Some(s) => {
            lemma_spec_extend_frame(h, s, parent);
        }
    }
}

impl ObjValue {
    /// Layer this object's own chain on top of `super_obj`: the result keeps
    /// every member and assertion of the receiver's chain, with `super_obj`
    /// grafted underneath as the deepest ancestor.
    pub fn extend_from(&self, heap: &mut ObjArena, super_obj: ObjValue) -> (r: ObjValue)
        requires
            old(heap).wf(),
            (self.id as int) < old(heap).model().len(),
            (super_obj.id as int) < old(heap).model().len(),
        ensures
            final(heap).wf(),
            final(heap).model() == spec_extend(
                old(heap).model(),
                self.id as int,
                super_obj.id as int,
            ).0,
            r.id as int == spec_extend(old(heap).model(), self.id as int, super_obj.id as int).1,
            (r.id as int) < final(heap).model().len(),
            final(heap).spec_max_stack() == old(heap).spec_max_stack(),
            final(heap).spec_assertion_runs() == old(heap).spec_assertion_runs(),
        decreases self.id,
    {
        proof {
            assert(node_model_wf(old(heap).model(), self.id as int));
        }
        let n_sup = heap.nodes[self.id].super_obj;
        match n_sup {
            Option::None => {
                proof {
                    assert(old(heap).model()[self.id as int].sup is None);
                    assert(sup_of(old(heap).model(), self.id as int) is None);
                }
                let eidx = heap.nodes[self.id].this_entries;
                let aidx = heap.nodes[self.id].assertions;
                let r = push_node(heap, Some(super_obj), None, eidx, aidx);
                proof {
                    assert(old(heap).model()[self.id as int].entries == entries_model(
                        old(heap).entry_sets@[eidx as int]@,
                    ));
                    assert(old(heap).model()[self.id as int].asserts == asserts_model(
                        old(heap).assert_sets@[aidx as int]@,
                    ));
                }
                r
            }
            Option::Some(s) => {
                proof {
                    assert(old(heap).model()[self.id as int].sup == Option::Some(s.id as int));
                    assert(0 <= (s.id as int) && (s.id as int) < (self.id as int));
                    assert(sup_of(old(heap).model(), self.id as int) == Option::Some(s.id as int));
                }
                let ns = s.extend_from(heap, super_obj);
                proof {
                    lemma_spec_extend_frame(old(heap).model(), s.id as int, super_obj.id as int);
                    assert(heap.model()[self.id as int] == old(heap).model()[self.id as int]);
                    assert((self.id as int) < heap.model().len());
                }
                let eidx = heap.nodes[self.id].this_entries;
                let aidx = heap.nodes[self.id].assertions;
                let ghost pre = *heap;
                proof {
                    assert(pre.model()[self.id as int].entries == entries_model(
                        pre.entry_sets@[eidx as int]@,
                    ));
                    assert(pre.model()[self.id as int].asserts == asserts_model(
                        pre.assert_sets@[aidx as int]@,
                    ));
                    assert(pre.model()[self.id as int] == old(heap).model()[self.id as int]);
                }
                let r = push_node(heap, Some(ns), None, eidx, aidx);
                proof {
                    assert(heap.model() == spec_extend(
                        old(heap).model(),
                        self.id as int,
                        super_obj.id as int,
                    ).0);
                }
                r
            }
        }
    }

    /// A shallow alias of this object whose effective self is pinned to
    /// `this_obj`.  It shares parent, members and assertions with the
    /// receiver but starts with fresh caches and a fresh ran-set.
    pub fn with_this(&self, heap: &mut ObjArena, this_obj: ObjValue) -> (r: ObjValue)
        requires
            old(heap).wf(),
            (self.id as int) < old(heap).model().len(),
            (this_obj.id as int) < old(heap).model().len(),
        ensures
            final(heap).wf(),
            r.id as int == old(heap).model().len(),
            final(heap).model() == old(heap).model().push(
                blank_node(
                    old(heap).model()[self.id as int].sup,
                    Option::Some(this_obj.id as int),
                    old(heap).model()[self.id as int].entries,
                    old(heap).model()[self.id as int].asserts,
                ),
            ),
            final(heap).spec_max_stack() == old(heap).spec_max_stack(),
            final(heap).spec_assertion_runs() == old(heap).spec_assertion_runs(),
    {
        proof {
            assert(node_model_wf(old(heap).model(), self.id as int));
        }
        let n_sup = heap.nodes[self.id].super_obj;
        let eidx = heap.nodes[self.id].this_entries;
        let aidx = heap.nodes[self.id].assertions;
        push_node(heap, n_sup, Some(this_obj), eidx, aidx)
    }

    /// A child object with a single member `key`, whose parent is the
    /// receiver.  Used for targeted overrides.
    pub fn extend_with_field(&self, heap: &mut ObjArena, key: IStr, value: ObjMember) -> (r:
        ObjValue)
        requires
            old(heap).wf(),
            (self.id as int) < old(heap).model().len(),
        ensures
            final(heap).wf(),
            r.id as int == old(heap).model().len(),
            final(heap).model() == old(heap).model().push(
                blank_node(
                    Option::Some(self.id as int),
                    Option::None,
                    seq![(key@, member_model(value))],
                    Seq::<MBind>::empty(),
                ),
            ),
            final(heap).spec_max_stack() == old(heap).spec_max_stack(),
            final(heap).spec_assertion_runs() == old(heap).spec_assertion_runs(),
    {
        let ghost k = key@;
        let ghost mm = member_model(value);
        let mut single: Vec<(IStr, ObjMember)> = Vec::new();
        single.push((key, value));
        let eidx = heap.entry_sets.len();
        heap.entry_sets.push(single);
        let aidx = heap.assert_sets.len();
        heap.assert_sets.push(Vec::new());
        proof {
            assert(heap.model() =~= old(heap).model());
            assert forall|i: int| 0 <= i < heap.nodes@.len() implies node_model_wf(
                heap.model(),
                i,
            ) by {
                assert(node_model_wf(old(heap).model(), i));
            }
            assert(entries_model(heap.entry_sets@[eidx as int]@) =~= seq![(k, mm)]);
            assert(asserts_model(heap.assert_sets@[aidx as int]@) =~= Seq::<MBind>::empty());
        }
        push_node(heap, Some(*self), None, eidx, aidx)
    }
}


// ---------------------------------------------------------------------------
// Specification semantics of field resolution.
//
// The functions below define, over the model heap, exactly what evaluation
// does: running assertions, walking the inheritance chain, forcing members,
// adding values and filling the caches.  `fuel` bounds the depth of nested
// field reads; it is consumed exactly when a binding reads a field through
// `self` or `super`, the one place evaluation recurses unboundedly.
// ---------------------------------------------------------------------------

/// First member under `key`, scanning from position `i`.
pub open spec fn find_member_from(entries: Seq<(Seq<u8>, MMember)>, key: Seq<u8>, i: int) -> Option<
    MMember,
>
    decreases entries.len() - i,
{
    if i < 0 || i >= entries.len() {
        Option::None
    } else if entries[i].0 == key {
        Option::Some(entries[i].1)
    } else {
        find_member_from(entries, key, i + 1)
    }
}

/// The member under `key`, if the node has one of its own.
pub open spec fn find_member(entries: Seq<(Seq<u8>, MMember)>, key: Seq<u8>) -> Option<MMember> {
    find_member_from(entries, key, 0)
}

/// First cache record for `(key, this)`, scanning from position `i`.
pub open spec fn find_cache_from(cache: Seq<MCache>, key: Seq<u8>, this: int, i: int) -> Option<
    Option<MVal>,
>
    decreases cache.len() - i,
{
    if i < 0 || i >= cache.len() {
        Option::None
    } else if cache[i].key == key && cache[i].this == this {
        Option::Some(cache[i].value)
    } else {
        find_cache_from(cache, key, this, i + 1)
    }
}

/// The memoized result for `(key, this)`, if one exists.
pub open spec fn find_cache(cache: Seq<MCache>, key: Seq<u8>, this: int) -> Option<Option<MVal>> {
    find_cache_from(cache, key, this, 0)
}

/// Remove the first occurrence of `t`, scanning from position `i`.
pub open spec fn seq_remove_first(s: Seq<int>, t: int, i: int) -> Seq<int>
    decreases s.len() - i,
{
    if i < 0 || i >= s.len() {
        s
    } else if s[i] == t {
        s.remove(i)
    } else {
        seq_remove_first(s, t, i + 1)
    }
}

/// Append one memoization record at node `i`.
pub open spec fn set_cache(h: Seq<MNode>, i: int, e: MCache) -> Seq<MNode> {
    if 0 <= i < h.len() {
        h.update(i, MNode { cache: h[i].cache.push(e), ..h[i] })
    } else {
        h
    }
}

/// Record that node `i`'s assertions ran for effective self `t`.
pub open spec fn set_mark(h: Seq<MNode>, i: int, t: int) -> Seq<MNode> {
    if 0 <= i < h.len() {
        h.update(i, MNode { ran: h[i].ran.push(t), ..h[i] })
    } else {
        h
    }
}

/// Undo the ran-marker of node `i` for effective self `t`.
pub open spec fn unset_mark(h: Seq<MNode>, i: int, t: int) -> Seq<MNode> {
    if 0 <= i < h.len() {
        h.update(i, MNode { ran: seq_remove_first(h[i].ran, t, 0), ..h[i] })
    } else {
        h
    }
}

/// The effective self of a field read on `id`: the pinned self when the
/// node is an alias, the receiver itself otherwise.
pub open spec fn target_of(h: Seq<MNode>, id: int) -> int {
    if 0 <= id < h.len() {
        match h[id].pinned {
            Option::Some(p) => p,
            Option::None => id,
        }
    } else {
        id
    }
}

/// The `+` of the surface language: numbers add, strings and arrays
/// concatenate, objects compose (the right operand extends the left), and
/// anything else is refused.
pub open spec fn spec_add(h: Seq<MNode>, a: MVal, b: MVal) -> (Seq<MNode>, Result<
    MVal,
    EvalError,
>) {
    match (a, b) {
        (MVal::Num(x), MVal::Num(y)) => if i64::MIN <= x + y && x + y <= i64::MAX {
            (h, Result::Ok(MVal::Num(x + y)))
        } else {
            (h, Result::Err(EvalError::NumOverflow))
        },
        (MVal::Str(x), MVal::Str(y)) => (h, Result::Ok(MVal::Str(x + y))),
        (MVal::Arr(x), MVal::Arr(y)) => (h, Result::Ok(MVal::Arr(x + y))),
        (MVal::Obj(x), MVal::Obj(y)) => if 0 <= x && x < h.len() && 0 <= y && y < h.len() {
            (spec_extend(h, y, x).0, Result::Ok(MVal::Obj(spec_extend(h, y, x).1)))
        } else {
            (h, Result::Err(EvalError::AddIncompatible))
        },
        _ => (h, Result::Err(EvalError::AddIncompatible)),
    }
}

/// Evaluate a binding under the given `self` and `super`.
pub open spec fn spec_eval(
    h: Seq<MNode>,
    e: MBind,
    this: Option<int>,
    sup: Option<int>,
    fuel: nat,
) -> (Seq<MNode>, Result<MVal, EvalError>)
    decreases fuel, 0nat, bind_height(e),
{
    match e {
        MBind::Literal(v) => (h, Result::Ok(v)),
        MBind::SelfField(k) => match this {
            Option::None => (h, Result::Err(EvalError::NoSuchField)),
            Option::Some(t) => if fuel == 0 {
                (h, Result::Err(EvalError::StackOverflow))
            } else {
                let (h1, r) = spec_get(h, t, k, (fuel - 1) as nat);
                match r {
                    Result::Ok(Option::Some(v)) => (h1, Result::Ok(v)),
                    Result::Ok(Option::None) => (h1, Result::Err(EvalError::NoSuchField)),
                    Result::Err(er) => (h1, Result::Err(er)),
                }
            },
        },
        MBind::SuperField(k) => match sup {
            Option::None => (h, Result::Err(EvalError::NoSuchField)),
            Option::Some(t) => if fuel == 0 {
                (h, Result::Err(EvalError::StackOverflow))
            } else {
                let (h1, r) = spec_get(h, t, k, (fuel - 1) as nat);
                match r {
                    Result::Ok(Option::Some(v)) => (h1, Result::Ok(v)),
                    Result::Ok(Option::None) => (h1, Result::Err(EvalError::NoSuchField)),
                    Result::Err(er) => (h1, Result::Err(er)),
                }
            },
        },
        MBind::Plus(x, y) => {
            let (h1, rx) = spec_eval(h, *x, this, sup, fuel);
            match rx {
                Result::Err(er) => (h1, Result::Err(er)),
                Result::Ok(vx) => {
                    let (h2, ry) = spec_eval(h1, *y, this, sup, fuel);
                    match ry {
                        Result::Err(er) => (h2, Result::Err(er)),
                        Result::Ok(vy) => spec_add(h2, vx, vy),
                    }
                },
            }
        },
        MBind::Equals(x, y) => {
            let (h1, rx) = spec_eval(h, *x, this, sup, fuel);
            match rx {
                Result::Err(er) => (h1, Result::Err(er)),
                Result::Ok(vx) => {
                    let (h2, ry) = spec_eval(h1, *y, this, sup, fuel);
                    match ry {
                        Result::Err(er) => (h2, Result::Err(er)),
                        Result::Ok(vy) => (h2, Result::Ok(MVal::Bool(vx == vy))),
                    }
                },
            }
        },
    }
}

/// Run the assertions of one node, from position `i` on, against effective
/// self `t` and the node's own parent.  `None` means they all passed.
pub open spec fn spec_run_list(
    h: Seq<MNode>,
    asserts: Seq<MBind>,
    i: int,
    t: int,
    sup: Option<int>,
    fuel: nat,
) -> (Seq<MNode>, Option<EvalError>)
    decreases fuel, 1nat, asserts.len() - i,
{
    if i < 0 || i >= asserts.len() {
        (h, Option::None)
    } else {
        let (h1, r) = spec_eval(h, asserts[i], Option::Some(t), sup, fuel);
        match r {
            Result::Ok(MVal::Bool(true)) => spec_run_list(h1, asserts, i + 1, t, sup, fuel),
            Result::Ok(_) => (h1, Option::Some(EvalError::AssertionFailed)),
            Result::Err(er) => (h1, Option::Some(er)),
        }
    }
}

/// Run every ancestor's own assertions once for effective self `t`: a node
/// whose marker for `t` is present is skipped; otherwise the marker is set,
/// the node's assertions run, and on failure the marker is taken back and
/// the error propagates.
pub open spec fn spec_run_assertions(h: Seq<MNode>, id: int, t: int, fuel: nat) -> (Seq<MNode>, Option<
    EvalError,
>)
    decreases fuel, 2nat, id,
{
    if !(0 <= id < h.len()) {
        (h, Option::None)
    } else if h[id].ran.contains(t) {
        match sup_of(h, id) {
            Option::Some(s) => spec_run_assertions(h, s, t, fuel),
            Option::None => (h, Option::None),
        }
    } else {
        let h1 = set_mark(h, id, t);
        let (h2, e) = spec_run_list(h1, h[id].asserts, 0, t, sup_of(h, id), fuel);
        match e {
            Option::Some(er) => (unset_mark(h2, id, t), Option::Some(er)),
            Option::None => match sup_of(h, id) {
                Option::Some(s) => spec_run_assertions(h2, s, t, fuel),
                Option::None => (h2, Option::None),
            },
        }
    }
}

/// Resolve `key` on the chain starting at `id`, with effective self `t`:
/// memoized lookup, then the resolution table of the engine — own member
/// forced with the node's own parent as `super`; additive members combined
/// with the parent's value; otherwise the parent chain is consulted.  The
/// outcome, unless it is an error, is memoized at `id`.
pub open spec fn spec_get_raw(h: Seq<MNode>, id: int, key: Seq<u8>, t: int, fuel: nat) -> (
    Seq<MNode>,
    Result<Option<MVal>, EvalError>,
)
    decreases fuel, 2nat, id,
{
    if !(0 <= id < h.len()) {
        (h, Result::Ok(Option::None))
    } else {
        match find_cache(h[id].cache, key, t) {
            Option::Some(v) => (h, Result::Ok(v)),
            Option::None => {
                let res = match (find_member(h[id].entries, key), sup_of(h, id)) {
                    (Option::Some(mm), Option::None) => {
                        let (h1, r) = spec_eval(h, mm.invoke, Option::Some(t), Option::None, fuel);
                        match r {
                            Result::Ok(v) => (h1, Result::Ok(Option::Some(v))),
                            Result::Err(er) => (h1, Result::Err(er)),
                        }
                    },
                    (Option::Some(mm), Option::Some(sp)) => if !mm.add {
                        let (h1, r) = spec_eval(
                            h,
                            mm.invoke,
                            Option::Some(t),
                            Option::Some(sp),
                            fuel,
                        );
                        match r {
                            Result::Ok(v) => (h1, Result::Ok(Option::Some(v))),
                            Result::Err(er) => (h1, Result::Err(er)),
                        }
                    } else {
                        let (h1, r) = spec_eval(
                            h,
                            mm.invoke,
                            Option::Some(t),
                            Option::Some(sp),
                            fuel,
                        );
                        match r {
                            Result::Err(er) => (h1, Result::Err(er)),
                            Result::Ok(our) => {
                                let (h2, rp) = spec_get_raw(h1, sp, key, t, fuel);
                                match rp {
                                    Result::Err(er) => (h2, Result::Err(er)),
                                    Result::Ok(Option::None) => (h2, Result::Ok(Option::Some(our))),
                                    Result::Ok(Option::Some(pv)) => {
                                        let (h3, rs) = spec_add(h2, pv, our);
                                        match rs {
                                            Result::Ok(v) => (h3, Result::Ok(Option::Some(v))),
                                            Result::Err(er) => (h3, Result::Err(er)),
                                        }
                                    },
                                }
                            },
                        }
                    },
                    (Option::None, Option::Some(sp)) => spec_get_raw(h, sp, key, t, fuel),
                    (Option::None, Option::None) => (h, Result::Ok(Option::None)),
                };
                match res.1 {
                    Result::Err(er) => (res.0, Result::Err(er)),
                    Result::Ok(v) => match find_cache(res.0[id].cache, key, t) {
                        Option::Some(w) => (res.0, Result::Ok(w)),
                        Option::None => (
                            set_cache(res.0, id, MCache { key, this: t, value: v }),
                            Result::Ok(v),
                        ),
                    },
                }
            },
        }
    }
}

/// A public field read: run the assertions of the whole chain for the
/// effective self, then resolve the key.
pub open spec fn spec_get(h: Seq<MNode>, id: int, key: Seq<u8>, fuel: nat) -> (Seq<MNode>, Result<
    Option<MVal>,
    EvalError,
>)
    decreases fuel, 3nat, id,
{
    if !(0 <= id < h.len()) {
        (h, Result::Ok(Option::None))
    } else {
        let t = target_of(h, id);
        let (h1, e) = spec_run_assertions(h, id, t, fuel);
        match e {
            Option::Some(er) => (h1, Result::Err(er)),
            Option::None => spec_get_raw(h1, id, key, t, fuel),
        }
    }
}


// ---------------------------------------------------------------------------
// Executable engine helpers.
// ---------------------------------------------------------------------------

/// Model of an optional handle.
pub open spec fn opt_id(o: Option<ObjValue>) -> Option<int> {
    match o {
        Option::Some(x) => Option::Some(x.id as int),
        Option::None => Option::None,
    }
}

/// Model of an evaluation outcome.
pub open spec fn res_val_model(r: Result<Val, EvalError>) -> Result<MVal, EvalError> {
    match r {
        Result::Ok(v) => Result::Ok(crate::val::val_model(v)),
        Result::Err(e) => Result::Err(e),
    }
}

/// Model of a resolution outcome.
pub open spec fn res_opt_model(r: Result<Option<Val>, EvalError>) -> Result<
    Option<MVal>,
    EvalError,
> {
    match r {
        Result::Ok(v) => Result::Ok(opt_val_model(v)),
        Result::Err(e) => Result::Err(e),
    }
}

/// What evaluation leaves untouched: the shared member and assertion lists,
/// the stack budget, and every already-built node's immutable fields.
spec fn pure_frame(a: ObjArena, b: ObjArena) -> bool {
    &&& b.entry_sets@ == a.entry_sets@
    &&& b.assert_sets@ == a.assert_sets@
    &&& b.max_stack == a.max_stack
    &&& a.nodes@.len() <= b.nodes@.len()
    &&& forall|i: int|
        0 <= i < a.nodes@.len() ==> {
            &&& (#[trigger] b.nodes@[i]).super_obj == a.nodes@[i].super_obj
            &&& b.nodes@[i].this_obj == a.nodes@[i].this_obj
            &&& b.nodes@[i].this_entries == a.nodes@[i].this_entries
            &&& b.nodes@[i].assertions == a.nodes@[i].assertions
        }
}

/// Look the pair `(key, t)` up in node `id`'s cache; a hit hands back a copy
/// of the memoized optional value.
fn cache_lookup(heap: &ObjArena, id: usize, key: &IStr, t: ObjValue) -> (r: Option<Option<Val>>)
    requires
        heap.wf(),
        (id as int) < heap.model().len(),
    ensures
        match r {
            Option::Some(v) => find_cache(heap.model()[id as int].cache, key@, t.id as int)
                == Option::Some(opt_val_model(v)),
            Option::None => find_cache(heap.model()[id as int].cache, key@, t.id as int)
                is None,
        },
{
    let ghost cm = heap.model()[id as int].cache;
    proof {
        assert(cm == cache_model(heap.nodes@[id as int].value_cache@));
    }
    let n = heap.nodes[id].value_cache.len();
    let mut i: usize = 0;
    while i < n
        invariant
            heap.wf(),
            (id as int) < heap.model().len(),
            i <= n,
            n == heap.nodes@[id as int].value_cache@.len(),
            cm == cache_model(heap.nodes@[id as int].value_cache@),
            find_cache_from(cm, key@, t.id as int, 0) == find_cache_from(
                cm,
                key@,
                t.id as int,
                i as int,
            ),
        decreases n - i,
    {
        let ghost c = heap.nodes@[id as int].value_cache@[i as int];
        let k_eq = heap.nodes[id].value_cache[i].key.eq_name(key);
        let t_eq = heap.nodes[id].value_cache[i].this.id == t.id;
        proof {
            assert(cm[i as int] == MCache {
                key: c.key@,
                this: c.this.id as int,
                value: opt_val_model(c.value),
            });
        }
        if k_eq && t_eq {
            let out = duplicate_opt_val(&heap.nodes[id].value_cache[i].value);
            proof {
                assert(find_cache_from(cm, key@, t.id as int, i as int) == Option::Some(
                    cm[i as int].value,
                ));
            }
            return Option::Some(out);
        }
        i = i + 1;
    }
    Option::None
}

/// Memoize `value` for `(key, t)` at node `id`, unless a record is already
/// there; hand back the value the cache now holds.
fn cache_store(heap: &mut ObjArena, id: usize, key: &IStr, t: ObjValue, value: Option<Val>) -> (out:
    Option<Val>)
    requires
        old(heap).wf(),
        (id as int) < old(heap).model().len(),
    ensures
        final(heap).wf(),
        pure_frame(*old(heap), *final(heap)),
        final(heap).model().len() == old(heap).model().len(),
        final(heap).spec_assertion_runs() == old(heap).spec_assertion_runs(),
        ({
            let cm = old(heap).model()[id as int].cache;
            match find_cache(cm, key@, t.id as int) {
                Option::Some(w) => final(heap).model() == old(heap).model() && opt_val_model(out)
                    == w,
                Option::None => final(heap).model() == set_cache(
                    old(heap).model(),
                    id as int,
                    MCache { key: key@, this: t.id as int, value: opt_val_model(value) },
                ) && opt_val_model(out) == opt_val_model(value),
            }
        }),
{
    let found = cache_lookup(heap, id, key, t);
    match found {
        Option::Some(w) => {
            proof {
                assert(heap.model() =~= old(heap).model());
            }
            w
        }
        Option::None => {
            let out = duplicate_opt_val(&value);
            let entry = CacheEntry { key: key.duplicate(), this: t, value };
            let ghost oldm = heap.model();
            let ghost olde = heap.nodes@[id as int].value_cache@;
            let node = &mut heap.nodes[id];
            node.value_cache.push(entry);
            proof {
                assert(cache_model(heap.nodes@[id as int].value_cache@) =~= cache_model(
                    olde,
                ).push(MCache { key: key@, this: t.id as int, value: opt_val_model(value) }));
                assert forall|i: int|
                    0 <= i < heap.nodes@.len() && i != id as int implies heap.node_model(i)
                    == old(heap).node_model(i) by {
                    assert(heap.nodes@[i] == old(heap).nodes@[i]);
                }
                assert(heap.model() =~= set_cache(
                    oldm,
                    id as int,
                    MCache { key: key@, this: t.id as int, value: opt_val_model(value) },
                ));
                assert forall|i: int| 0 <= i < heap.model().len() implies node_model_wf(
                    heap.model(),
                    i,
                ) by {
                    assert(node_model_wf(oldm, i));
                    assert(heap.model()[i].ran == oldm[i].ran);
                    assert(heap.model()[i].sup == oldm[i].sup);
                    assert(heap.model()[i].pinned == oldm[i].pinned);
                }
            }
            out
        }
    }
}

/// Record effective self `t` in node `id`'s ran-set, telling the caller
/// whether it was already there.
fn check_and_mark(heap: &mut ObjArena, id: usize, t: ObjValue) -> (was: bool)
    requires
        old(heap).wf(),
        (id as int) < old(heap).model().len(),
    ensures
        final(heap).wf(),
        pure_frame(*old(heap), *final(heap)),
        final(heap).model().len() == old(heap).model().len(),
        final(heap).spec_assertion_runs() == old(heap).spec_assertion_runs(),
        was == old(heap).model()[id as int].ran.contains(t.id as int),
        was ==> final(heap).model() == old(heap).model(),
        !was ==> final(heap).model() == set_mark(old(heap).model(), id as int, t.id as int),
{
    let ghost rm = heap.model()[id as int].ran;
    proof {
        assert(rm == ran_model(heap.nodes@[id as int].assertions_ran@));
    }
    let n = heap.nodes[id].assertions_ran.len();
    let mut i: usize = 0;
    while i < n
        invariant
            old(heap) == heap,
            old(heap).wf(),
            (id as int) < heap.model().len(),
            i <= n,
            n == heap.nodes@[id as int].assertions_ran@.len(),
            rm == ran_model(heap.nodes@[id as int].assertions_ran@),
            forall|j: int| 0 <= j < i ==> rm[j] != t.id as int,
        decreases n - i,
    {
        if heap.nodes[id].assertions_ran[i].id == t.id {
            proof {
                assert(rm[i as int] == t.id as int);
                assert(rm.contains(t.id as int));
            }
            return true;
        }
        proof {
            assert(rm[i as int] == heap.nodes@[id as int].assertions_ran@[i as int].id as int);
        }
        i = i + 1;
    }
    proof {
        assert(!rm.contains(t.id as int)) by {
            if rm.contains(t.id as int) {
                let j = choose|j: int| 0 <= j < rm.len() && rm[j] == t.id as int;
                assert(false);
            }
        }
    }
    let ghost oldm = heap.model();
    let node = &mut heap.nodes[id];
    node.assertions_ran.push(t);
    proof {
        assert(ran_model(heap.nodes@[id as int].assertions_ran@) =~= rm.push(t.id as int));
        assert forall|i2: int|
            0 <= i2 < heap.nodes@.len() && i2 != id as int implies heap.node_model(i2) == old(
            heap,
        ).node_model(i2) by {
            assert(heap.nodes@[i2] == old(heap).nodes@[i2]);
        }
        assert(heap.model() =~= set_mark(oldm, id as int, t.id as int));
        assert forall|i2: int| 0 <= i2 < heap.model().len() implies node_model_wf(
            heap.model(),
            i2,
        ) by {
            assert(node_model_wf(oldm, i2));
            if i2 == id as int {
                let nr = heap.model()[i2].ran;
                assert(nr =~= oldm[i2].ran.push(t.id as int));
                assert forall|j: int, k: int|
                    0 <= j < k < nr.len() implies nr[j] != nr[k] by {
                    if k == nr.len() - 1 {
                        assert(nr[j] == oldm[i2].ran[j]);
                        assert(oldm[i2].ran[j] != t.id as int);
                    }
                }
            }
        }
    }
    false
}

/// Remove the first occurrence of `t`, scanning from `i`, leaves everything
/// else alone.
proof fn lemma_remove_first_at(s: Seq<int>, t: int, j: int, i: int)
    requires
        0 <= i <= j < s.len(),
        s[j] == t,
        forall|m: int| i <= m < j ==> s[m] != t,
    ensures
        seq_remove_first(s, t, i) == s.remove(j),
    decreases j - i,
{
    if s[i] == t {
        assert(i == j);
    } else {
        lemma_remove_first_at(s, t, j, i + 1);
    }
}

/// If `t` never occurs from `i` on, removal changes nothing.
proof fn lemma_remove_first_absent(s: Seq<int>, t: int, i: int)
    requires
        forall|m: int| i <= m < s.len() ==> s[m] != t,
    ensures
        seq_remove_first(s, t, i) == s,
    decreases s.len() - i,
{
    if 0 <= i < s.len() {
        lemma_remove_first_absent(s, t, i + 1);
    }
}

/// Take the ran-marker of node `id` for effective self `t` back.
fn unmark(heap: &mut ObjArena, id: usize, t: ObjValue)
    requires
        old(heap).wf(),
        (id as int) < old(heap).model().len(),
    ensures
        final(heap).wf(),
        pure_frame(*old(heap), *final(heap)),
        final(heap).model().len() == old(heap).model().len(),
        final(heap).spec_assertion_runs() == old(heap).spec_assertion_runs(),
        final(heap).model() == unset_mark(old(heap).model(), id as int, t.id as int),
{
    let ghost rm = heap.model()[id as int].ran;
    proof {
        assert(rm == ran_model(heap.nodes@[id as int].assertions_ran@));
    }
    let n = heap.nodes[id].assertions_ran.len();
    let mut i: usize = 0;
    while i < n
        invariant
            old(heap) == heap,
            old(heap).wf(),
            (id as int) < heap.model().len(),
            i <= n,
            n == heap.nodes@[id as int].assertions_ran@.len(),
            rm == ran_model(heap.nodes@[id as int].assertions_ran@),
            forall|j: int| 0 <= j < i ==> rm[j] != t.id as int,
        decreases n - i,
    {
        if heap.nodes[id].assertions_ran[i].id == t.id {
            let ghost oldm = heap.model();
            let node = &mut heap.nodes[id];
            node.assertions_ran.remove(i);
            proof {
                lemma_remove_first_at(rm, t.id as int, i as int, 0);
                assert(ran_model(heap.nodes@[id as int].assertions_ran@) =~= rm.remove(i as int));
                assert forall|i2: int|
                    0 <= i2 < heap.nodes@.len() && i2 != id as int implies heap.node_model(i2)
                    == old(heap).node_model(i2) by {
                    assert(heap.nodes@[i2] == old(heap).nodes@[i2]);
                }
                assert(heap.model() =~= unset_mark(oldm, id as int, t.id as int));
                assert forall|i2: int| 0 <= i2 < heap.model().len() implies node_model_wf(
                    heap.model(),
                    i2,
                ) by {
                    assert(node_model_wf(oldm, i2));
                    if i2 == id as int {
                        let nr = heap.model()[i2].ran;
                        assert(nr =~= oldm[i2].ran.remove(i as int));
                        assert forall|j: int, k: int|
                            0 <= j < k < nr.len() implies nr[j] != nr[k] by {
                            let oj = if j < i as int { j } else { j + 1 };
                            let ok = if k < i as int { k } else { k + 1 };
                            assert(nr[j] == oldm[i2].ran[oj]);
                            assert(nr[k] == oldm[i2].ran[ok]);
                        }
                    }
                }
            }
            return ;
        }
        proof {
            assert(rm[i as int] == heap.nodes@[id as int].assertions_ran@[i as int].id as int);
        }
        i = i + 1;
    }
    proof {
        lemma_remove_first_absent(rm, t.id as int, 0);
        assert(unset_mark(heap.model(), id as int, t.id as int) =~= heap.model()) by {
            assert(seq_remove_first(rm, t.id as int, 0) == rm);
            assert(MNode { ran: rm, ..heap.model()[id as int] } =~= heap.model()[id as int]);
        }
    }
}

/// Find the node's own member under `key`: the index into its shared entry
/// list, if any.
fn member_lookup(heap: &ObjArena, id: usize, key: &IStr) -> (r: Option<usize>)
    requires
        heap.wf(),
        (id as int) < heap.model().len(),
    ensures
        ({
            let eidx = heap.nodes@[id as int].this_entries as int;
            match r {
                Option::Some(j) => {
                    &&& (j as int) < heap.entry_sets@[eidx]@.len()
                    &&& find_member(heap.model()[id as int].entries, key@) == Option::Some(
                        member_model(heap.entry_sets@[eidx]@[j as int].1),
                    )
                },
                Option::None => find_member(heap.model()[id as int].entries, key@) is None,
            }
        }),
{
    let ghost em = heap.model()[id as int].entries;
    let eidx = heap.nodes[id].this_entries;
    proof {
        assert(em == entries_model(heap.entry_sets@[eidx as int]@));
    }
    let n = heap.entry_sets[eidx].len();
    let mut i: usize = 0;
    while i < n
        invariant
            heap.wf(),
            (id as int) < heap.model().len(),
            eidx == heap.nodes@[id as int].this_entries,
            i <= n,
            n == heap.entry_sets@[eidx as int]@.len(),
            em == entries_model(heap.entry_sets@[eidx as int]@),
            find_member_from(em, key@, 0) == find_member_from(em, key@, i as int),
        decreases n - i,
    {
        proof {
            assert(em[i as int] == (
                heap.entry_sets@[eidx as int]@[i as int].0@,
                member_model(heap.entry_sets@[eidx as int]@[i as int].1),
            ));
        }
        if heap.entry_sets[eidx][i].0.eq_name(key) {
            return Option::Some(i);
        }
        i = i + 1;
    }
    Option::None
}


/// Advance the assertion-execution counter, leaving the objects alone.
fn bump_counter(heap: &mut ObjArena)
    requires
        old(heap).wf(),
    ensures
        final(heap).wf(),
        pure_frame(*old(heap), *final(heap)),
        final(heap).model() == old(heap).model(),
{
    if heap.assertion_runs < usize::MAX {
        heap.assertion_runs = heap.assertion_runs + 1;
    }
    proof {
        assert forall|i: int| 0 <= i < heap.nodes@.len() implies heap.node_model(i) == old(
            heap,
        ).node_model(i) by {
            assert(heap.nodes@[i] == old(heap).nodes@[i]);
        }
        assert(heap.model() =~= old(heap).model());
    }
}

/// `extend_from`, with the internal frame facts evaluation relies on.
fn extend_nodes(heap: &mut ObjArena, child: ObjValue, parent: ObjValue) -> (r: ObjValue)
    requires
        old(heap).wf(),
        (child.id as int) < old(heap).model().len(),
        (parent.id as int) < old(heap).model().len(),
    ensures
        final(heap).wf(),
        pure_frame(*old(heap), *final(heap)),
        old(heap).model().len() <= final(heap).model().len(),
        final(heap).model() == spec_extend(
            old(heap).model(),
            child.id as int,
            parent.id as int,
        ).0,
        r.id as int == spec_extend(old(heap).model(), child.id as int, parent.id as int).1,
        (r.id as int) < final(heap).model().len(),
        final(heap).spec_assertion_runs() == old(heap).spec_assertion_runs(),
    decreases child.id,
{
    proof {
        assert(node_model_wf(old(heap).model(), child.id as int));
    }
    let n_sup = heap.nodes[child.id].super_obj;
    match n_sup {
        Option::None => {
            proof {
                assert(old(heap).model()[child.id as int].sup is None);
                assert(sup_of(old(heap).model(), child.id as int) is None);
            }
            let eidx = heap.nodes[child.id].this_entries;
            let aidx = heap.nodes[child.id].assertions;
            let r = push_node(heap, Some(parent), None, eidx, aidx);
            proof {
                assert(old(heap).model()[child.id as int].entries == entries_model(
                    old(heap).entry_sets@[eidx as int]@,
                ));
                assert(old(heap).model()[child.id as int].asserts == asserts_model(
                    old(heap).assert_sets@[aidx as int]@,
                ));
            }
            r
        }
        Option::Some(sh) => {
            proof {
                assert(old(heap).model()[child.id as int].sup == Option::Some(sh.id as int));
                assert(0 <= (sh.id as int) && (sh.id as int) < (child.id as int));
                assert(sup_of(old(heap).model(), child.id as int) == Option::Some(sh.id as int));
            }
            let ns = extend_nodes(heap, sh, parent);
            proof {
                lemma_spec_extend_frame(old(heap).model(), sh.id as int, parent.id as int);
                assert(heap.model()[child.id as int] == old(heap).model()[child.id as int]);
                assert((child.id as int) < heap.model().len());
            }
            let eidx = heap.nodes[child.id].this_entries;
            let aidx = heap.nodes[child.id].assertions;
            let ghost pre = *heap;
            proof {
                assert(pre.model()[child.id as int].entries == entries_model(
                    pre.entry_sets@[eidx as int]@,
                ));
                assert(pre.model()[child.id as int].asserts == asserts_model(
                    pre.assert_sets@[aidx as int]@,
                ));
                assert(pre.model()[child.id as int] == old(heap).model()[child.id as int]);
            }
            let r = push_node(heap, Some(ns), None, eidx, aidx);
            proof {
                assert(heap.model() == spec_extend(
                    old(heap).model(),
                    child.id as int,
                    parent.id as int,
                ).0);
                assert(pure_frame(*old(heap), *heap));
            }
            r
        }
    }
}

/// The `+` of the surface language on already-evaluated values.
fn add_values(heap: &mut ObjArena, a: &Val, b: &Val) -> (r: Result<Val, EvalError>)
    requires
        old(heap).wf(),
    ensures
        final(heap).wf(),
        pure_frame(*old(heap), *final(heap)),
        old(heap).model().len() <= final(heap).model().len(),
        (final(heap).model(), res_val_model(r)) == spec_add(
            old(heap).model(),
            crate::val::val_model(*a),
            crate::val::val_model(*b),
        ),
        final(heap).spec_assertion_runs() == old(heap).spec_assertion_runs(),
{
    match (a, b) {
        (Val::Num(x), Val::Num(y)) => {
            let xv = *x;
            let yv = *y;
            if yv > 0 && xv > i64::MAX - yv {
                Result::Err(EvalError::NumOverflow)
            } else if yv < 0 && xv < i64::MIN - yv {
                Result::Err(EvalError::NumOverflow)
            } else {
                Result::Ok(Val::Num(xv + yv))
            }
        }
        (Val::Str(x), Val::Str(y)) => Result::Ok(Val::Str(x.concat(y))),
        (Val::Arr(x), Val::Arr(y)) => Result::Ok(Val::Arr(Box::new(crate::val::list_append(x, y)))),
        (Val::Obj(x), Val::Obj(y)) => {
            if x.id < heap.nodes.len() && y.id < heap.nodes.len() {
                let nid = extend_nodes(heap, *y, *x);
                Result::Ok(Val::Obj(nid))
            } else {
                Result::Err(EvalError::AddIncompatible)
            }
        }
        _ => {
            Result::Err(EvalError::AddIncompatible)
        }
    }
}

/// Every node of the chain already carries the marker for `t`.
pub open spec fn all_marked(h: Seq<MNode>, id: int, t: int) -> bool
    decreases id,
{
    if !(0 <= id < h.len()) {
        true
    } else {
        h[id].ran.contains(t) && match sup_of(h, id) {
            Option::Some(s) => all_marked(h, s, t),
            Option::None => true,
        }
    }
}

/// Force one binding against the given `self` and `super`.
fn eval_binding(
    heap: &mut ObjArena,
    e: &crate::val::LazyBinding,
    this: Option<ObjValue>,
    sup: Option<ObjValue>,
    fuel: usize,
) -> (r: Result<Val, EvalError>)
    requires
        old(heap).wf(),
        match this {
            Option::Some(t) => (t.id as int) < old(heap).model().len(),
            Option::None => true,
        },
        match sup {
            Option::Some(x) => (x.id as int) < old(heap).model().len(),
            Option::None => true,
        },
    ensures
        final(heap).wf(),
        pure_frame(*old(heap), *final(heap)),
        old(heap).model().len() <= final(heap).model().len(),
        (final(heap).model(), res_val_model(r)) == spec_eval(
            old(heap).model(),
            bind_model(*e),
            opt_id(this),
            opt_id(sup),
            fuel as nat,
        ),
    decreases fuel, 0nat, bind_height(bind_model(*e)),
{
    match e {
        crate::val::LazyBinding::Literal(v) => Result::Ok(v.duplicate()),
        crate::val::LazyBinding::SelfField(k) => match this {
            Option::None => Result::Err(EvalError::NoSuchField),
            Option::Some(t) => {
                if fuel == 0 {
                    Result::Err(EvalError::StackOverflow)
                } else {
                    let g = get_fuel(heap, t, k, fuel - 1);
                    match g {
                        Result::Ok(Option::Some(v)) => Result::Ok(v),
                        Result::Ok(Option::None) => Result::Err(EvalError::NoSuchField),
                        Result::Err(er) => Result::Err(er),
                    }
                }
            }
        },
        crate::val::LazyBinding::SuperField(k) => match sup {
            Option::None => Result::Err(EvalError::NoSuchField),
            Option::Some(t) => {
                if fuel == 0 {
                    Result::Err(EvalError::StackOverflow)
                } else {
                    let g = get_fuel(heap, t, k, fuel - 1);
                    match g {
                        Result::Ok(Option::Some(v)) => Result::Ok(v),
                        Result::Ok(Option::None) => Result::Err(EvalError::NoSuchField),
                        Result::Err(er) => Result::Err(er),
                    }
                }
            }
        },
        crate::val::LazyBinding::Plus(x, y) => {
            let rx = eval_binding(heap, x, this, sup, fuel);
            match rx {
                Result::Err(er) => Result::Err(er),
                Result::Ok(vx) => {
                    let ry = eval_binding(heap, y, this, sup, fuel);
                    match ry {
                        Result::Err(er) => Result::Err(er),
                        Result::Ok(vy) => add_values(heap, &vx, &vy),
                    }
                }
            }
        },
        crate::val::LazyBinding::Equals(x, y) => {
            let rx = eval_binding(heap, x, this, sup, fuel);
            match rx {
                Result::Err(er) => Result::Err(er),
                Result::Ok(vx) => {
                    let ry = eval_binding(heap, y, this, sup, fuel);
                    match ry {
                        Result::Err(er) => Result::Err(er),
                        Result::Ok(vy) => Result::Ok(Val::Bool(crate::val::val_eq(&vx, &vy))),
                    }
                }
            }
        },
    }
}

/// Run the chain's assertions for effective self `t`, as `spec_run_assertions`
/// prescribes, advancing the execution counter once per assertion tried.
#[verifier::rlimit(50)]
#[verifier::loop_isolation(false)]
fn run_assertions_fuel(heap: &mut ObjArena, obj: ObjValue, t: ObjValue, fuel: usize) -> (r: Option<
    EvalError,
>)
    requires
        old(heap).wf(),
        (obj.id as int) < old(heap).model().len(),
        (t.id as int) < old(heap).model().len(),
    ensures
        final(heap).wf(),
        pure_frame(*old(heap), *final(heap)),
        old(heap).model().len() <= final(heap).model().len(),
        (final(heap).model(), r) == spec_run_assertions(
            old(heap).model(),
            obj.id as int,
            t.id as int,
            fuel as nat,
        ),
        all_marked(old(heap).model(), obj.id as int, t.id as int) ==> final(heap).assertion_runs
            == old(heap).assertion_runs,
    decreases fuel, 2nat, obj.id,
{
    let ghost h0 = heap.model();
    proof {
        assert(node_model_wf(h0, obj.id as int));
    }
    let was = check_and_mark(heap, obj.id, t);
    let sup_h = heap.nodes[obj.id].super_obj;
    proof {
        match sup_h {
            Option::Some(sh) => {
                assert(h0[obj.id as int].sup == Option::Some(sh.id as int));
                assert(sup_of(h0, obj.id as int) == Option::Some(sh.id as int));
            }
            Option::None => {
                assert(sup_of(h0, obj.id as int) is None);
            }
        }
    }
    if was {
        match sup_h {
            Option::Some(sh) => {
                let r = run_assertions_fuel(heap, sh, t, fuel);
                r
            }
            Option::None => Option::None,
        }
    } else {
        proof {
            assert(!h0[obj.id as int].ran.contains(t.id as int));
            assert(!all_marked(h0, obj.id as int, t.id as int));
        }
        let ghost h1 = heap.model();
        let aidx = heap.nodes[obj.id].assertions;
        let ghost asserts_m = h0[obj.id as int].asserts;
        let ghost spsup = sup_of(h0, obj.id as int);
        proof {
            assert(asserts_m == asserts_model(heap.assert_sets@[aidx as int]@));
        }
        let n = heap.assert_sets[aidx].len();
        let mut i: usize = 0;
        while i < n
            invariant
                heap.wf(),
                pure_frame(*old(heap), *heap),
                (obj.id as int) < heap.model().len(),
                (t.id as int) < heap.model().len(),
                aidx == heap.nodes@[obj.id as int].assertions,
                aidx < heap.assert_sets@.len(),
                n == heap.assert_sets@[aidx as int]@.len(),
                asserts_m == asserts_model(heap.assert_sets@[aidx as int]@),
                i <= n,
                h0.len() <= heap.model().len(),
                match sup_h {
                    Option::Some(x) => (x.id as int) < heap.model().len() && spsup
                        == Option::Some(x.id as int),
                    Option::None => spsup is None,
                },
                spec_run_list(h1, asserts_m, 0, t.id as int, spsup, fuel as nat) == spec_run_list(
                    heap.model(),
                    asserts_m,
                    i as int,
                    t.id as int,
                    spsup,
                    fuel as nat,
                ),
            decreases n - i,
        {
            let cond = heap.assert_sets[aidx][i].cond.duplicate();
            proof {
                assert(bind_model(cond) == asserts_m[i as int]);
            }
            bump_counter(heap);
            let ghost hpre = heap.model();
            let e = eval_binding(heap, &cond, Some(t), sup_h, fuel);
            match e {
                Result::Err(er) => {
                    let ghost hfail = heap.model();
                    proof {
                        assert(spec_run_list(hpre, asserts_m, i as int, t.id as int, spsup, fuel as nat)
                            == (hfail, Option::Some(er)));
                        assert(spec_run_list(h1, asserts_m, 0, t.id as int, spsup, fuel as nat)
                            == (hfail, Option::Some(er)));
                    }
                    unmark(heap, obj.id, t);
                    proof {
                        assert(heap.model() == unset_mark(hfail, obj.id as int, t.id as int));
                        assert(h1 == set_mark(h0, obj.id as int, t.id as int));
                        assert(0 <= obj.id as int && (obj.id as int) < h0.len());
                        assert(asserts_m == h0[obj.id as int].asserts);
                        assert(spsup == sup_of(h0, obj.id as int));
                        assert(spec_run_assertions(h0, obj.id as int, t.id as int, fuel as nat)
                            == (unset_mark(hfail, obj.id as int, t.id as int), Option::Some(er)));
                    }
                    return Option::Some(er);
                }
                Result::Ok(v) => {
                    let is_true = crate::val::val_eq(&v, &Val::Bool(true));
                    if !is_true {
                        let ghost hfail = heap.model();
                        proof {
                            assert(crate::val::val_model(v) != MVal::Bool(true));
                            assert(spec_run_list(hpre, asserts_m, i as int, t.id as int, spsup, fuel as nat)
                                == (hfail, Option::Some(EvalError::AssertionFailed)));
                            assert(spec_run_list(h1, asserts_m, 0, t.id as int, spsup, fuel as nat)
                                == (hfail, Option::Some(EvalError::AssertionFailed)));
                        }
                        unmark(heap, obj.id, t);
                        proof {
                            assert(heap.model() == unset_mark(hfail, obj.id as int, t.id as int));
                            assert(h1 == set_mark(h0, obj.id as int, t.id as int));
                            assert(0 <= obj.id as int && (obj.id as int) < h0.len());
                            assert(asserts_m == h0[obj.id as int].asserts);
                            assert(spsup == sup_of(h0, obj.id as int));
                            assert(spec_run_assertions(h0, obj.id as int, t.id as int, fuel as nat)
                                == (unset_mark(hfail, obj.id as int, t.id as int), Option::Some(EvalError::AssertionFailed)));
                        }
                        return Option::Some(EvalError::AssertionFailed);
                    }
                    proof {
                        assert(crate::val::val_model(v) == MVal::Bool(true));
                        assert(spec_run_list(hpre, asserts_m, i as int, t.id as int, spsup, fuel as nat)
                            == spec_run_list(heap.model(), asserts_m, i as int + 1, t.id as int, spsup, fuel as nat));
                    }
                    i = i + 1;
                }
            }
        }
        proof {
            assert(spec_run_list(h1, asserts_m, 0, t.id as int, spsup, fuel as nat) == (
                heap.model(),
                Option::<EvalError>::None,
            ));
        }
        match sup_h {
            Option::Some(sh) => {
                let r = run_assertions_fuel(heap, sh, t, fuel);
                r
            }
            Option::None => Option::None,
        }
    }
}

/// Resolve `key` on the chain, with memoization, as `spec_get_raw`
/// prescribes.
fn get_raw_fuel(heap: &mut ObjArena, obj: ObjValue, key: &IStr, t: ObjValue, fuel: usize) -> (r:
    Result<Option<Val>, EvalError>)
    requires
        old(heap).wf(),
        (obj.id as int) < old(heap).model().len(),
        (t.id as int) < old(heap).model().len(),
    ensures
        final(heap).wf(),
        pure_frame(*old(heap), *final(heap)),
        old(heap).model().len() <= final(heap).model().len(),
        (final(heap).model(), res_opt_model(r)) == spec_get_raw(
            old(heap).model(),
            obj.id as int,
            key@,
            t.id as int,
            fuel as nat,
        ),
    decreases fuel, 2nat, obj.id,
{
    let ghost h0 = heap.model();
    proof {
        assert(node_model_wf(h0, obj.id as int));
    }
    let cached = cache_lookup(heap, obj.id, key, t);
    match cached {
        Option::Some(v) => {
            proof {
                assert(heap.model() == h0);
            }
            return Result::Ok(v);
        }
        Option::None => {}
    }
    let mj = member_lookup(heap, obj.id, key);
    let sup_h = heap.nodes[obj.id].super_obj;
    proof {
        match sup_h {
            Option::Some(sh) => {
                assert(h0[obj.id as int].sup == Option::Some(sh.id as int));
                assert(sup_of(h0, obj.id as int) == Option::Some(sh.id as int));
            }
            Option::None => {
                assert(sup_of(h0, obj.id as int) is None);
            }
        }
    }
    let value: Option<Val>;
    match (mj, sup_h) {
        (Option::Some(j), Option::None) => {
            let eidx = heap.nodes[obj.id].this_entries;
            let bind = heap.entry_sets[eidx][j].1.invoke.duplicate();
            let rv = eval_binding(heap, &bind, Some(t), None, fuel);
            match rv {
                Result::Err(er) => {
                    return Result::Err(er);
                }
                Result::Ok(v) => {
                    value = Option::Some(v);
                }
            }
        }
        (Option::Some(j), Option::Some(sh)) => {
            let eidx = heap.nodes[obj.id].this_entries;
            let additive = heap.entry_sets[eidx][j].1.add;
            let bind = heap.entry_sets[eidx][j].1.invoke.duplicate();
            let rv = eval_binding(heap, &bind, Some(t), Some(sh), fuel);
            match rv {
                Result::Err(er) => {
                    return Result::Err(er);
                }
                Result::Ok(our) => {
                    if !additive {
                        value = Option::Some(our);
                    } else {
                        let rp = get_raw_fuel(heap, sh, key, t, fuel);
                        match rp {
                            Result::Err(er) => {
                                return Result::Err(er);
                            }
                            Result::Ok(Option::None) => {
                                value = Option::Some(our);
                            }
                            Result::Ok(Option::Some(pv)) => {
                                let ra = add_values(heap, &pv, &our);
                                match ra {
                                    Result::Err(er) => {
                                        return Result::Err(er);
                                    }
                                    Result::Ok(sum) => {
                                        value = Option::Some(sum);
                                    }
                                }
                            }
                        }
                    }
                }
            }
        }
        (Option::None, Option::Some(sh)) => {
            let rr = get_raw_fuel(heap, sh, key, t, fuel);
            match rr {
                Result::Err(er) => {
                    return Result::Err(er);
                }
                Result::Ok(v) => {
                    value = v;
                }
            }
        }
        (Option::None, Option::None) => {
            value = Option::None;
        }
    }
    let out = cache_store(heap, obj.id, key, t, value);
    Result::Ok(out)
}

/// A full field read with an explicit fuel: assertions first, then
/// resolution with the effective self.
fn get_fuel(heap: &mut ObjArena, obj: ObjValue, key: &IStr, fuel: usize) -> (r: Result<
    Option<Val>,
    EvalError,
>)
    requires
        old(heap).wf(),
        (obj.id as int) < old(heap).model().len(),
    ensures
        final(heap).wf(),
        pure_frame(*old(heap), *final(heap)),
        old(heap).model().len() <= final(heap).model().len(),
        (final(heap).model(), res_opt_model(r)) == spec_get(
            old(heap).model(),
            obj.id as int,
            key@,
            fuel as nat,
        ),
    decreases fuel, 3nat, obj.id,
{
    let ghost h0 = heap.model();
    proof {
        assert(node_model_wf(h0, obj.id as int));
    }
    let t = match heap.nodes[obj.id].this_obj {
        Option::Some(p) => p,
        Option::None => obj,
    };
    proof {
        assert(target_of(h0, obj.id as int) == t.id as int);
        assert((t.id as int) < h0.len());
    }
    let ra = run_assertions_fuel(heap, obj, t, fuel);
    match ra {
        Option::Some(er) => Result::Err(er),
        Option::None => get_raw_fuel(heap, obj, key, t, fuel),
    }
}

impl ObjValue {
    /// Read field `key`: run the chain's assertions for the effective self,
    /// then resolve the key along the chain, memoizing the outcome.  The
    /// arena's stack budget bounds nested reads; exceeding it surfaces
    /// `StackOverflow`.  Errors are never cached.
    pub fn get(&self, heap: &mut ObjArena, key: &IStr) -> (r: Result<Option<Val>, EvalError>)
        requires
            old(heap).wf(),
            (self.id as int) < old(heap).model().len(),
        ensures
            final(heap).wf(),
            old(heap).model().len() <= final(heap).model().len(),
            (final(heap).model(), res_opt_model(r)) == spec_get(
                old(heap).model(),
                self.id as int,
                key@,
                old(heap).spec_max_stack(),
            ),
            final(heap).spec_max_stack() == old(heap).spec_max_stack(),
    {
        let fuel = heap.max_stack;
        get_fuel(heap, *self, key, fuel)
    }

    /// Run every ancestor's own assertions once for this object's effective
    /// self.  A node whose assertions already ran for that self is skipped;
    /// when all of them already ran, nothing at all happens — in particular
    /// the assertion-execution counter stays where it was.
    pub fn run_assertions(&self, heap: &mut ObjArena) -> (r: Option<EvalError>)
        requires
            old(heap).wf(),
            (self.id as int) < old(heap).model().len(),
        ensures
            final(heap).wf(),
            old(heap).model().len() <= final(heap).model().len(),
            (final(heap).model(), r) == spec_run_assertions(
                old(heap).model(),
                self.id as int,
                target_of(old(heap).model(), self.id as int),
                old(heap).spec_max_stack(),
            ),
            final(heap).spec_max_stack() == old(heap).spec_max_stack(),
            all_marked(
                old(heap).model(),
                self.id as int,
                target_of(old(heap).model(), self.id as int),
            ) ==> final(heap).spec_assertion_runs() == old(heap).spec_assertion_runs(),
    {
        let ghost h0 = heap.model();
        proof {
            assert(node_model_wf(h0, self.id as int));
        }
        let t = match heap.nodes[self.id].this_obj {
            Option::Some(p) => p,
            Option::None => *self,
        };
        proof {
            assert(target_of(h0, self.id as int) == t.id as int);
            assert((t.id as int) < h0.len());
        }
        let fuel = heap.max_stack;
        run_assertions_fuel(heap, *self, t, fuel)
    }
}

/// The `+` of the surface language, on already-evaluated values: numbers
/// add, strings and arrays concatenate, objects compose with the right
/// operand extending the left.
pub fn evaluate_add_op(heap: &mut ObjArena, a: &Val, b: &Val) -> (r: Result<Val, EvalError>)
    requires
        old(heap).wf(),
    ensures
        final(heap).wf(),
        old(heap).model().len() <= final(heap).model().len(),
        (final(heap).model(), res_val_model(r)) == spec_add(
            old(heap).model(),
            crate::val::val_model(*a),
            crate::val::val_model(*b),
        ),
        final(heap).spec_max_stack() == old(heap).spec_max_stack(),
{
    add_values(heap, a, b)
}


// ---------------------------------------------------------------------------
// Visibility and enumeration.
// ---------------------------------------------------------------------------

/// The visibility a chain gives `key`: an own entry's visibility wins unless
/// it is `Normal`, in which case the parent's verdict (if any) is inherited;
/// absent everywhere is `None`.
pub open spec fn spec_field_visibility(h: Seq<MNode>, id: int, key: Seq<u8>) -> Option<Visibility>
    decreases id,
{
    if !(0 <= id < h.len()) {
        Option::None
    } else {
        match find_member(h[id].entries, key) {
            Option::Some(m) => match m.visibility {
                Visibility::Normal => match sup_of(h, id) {
                    Option::Some(sp) => match spec_field_visibility(h, sp, key) {
                        Option::Some(v) => Option::Some(v),
                        Option::None => Option::Some(Visibility::Normal),
                    },
                    Option::None => Option::Some(Visibility::Normal),
                },
                v => Option::Some(v),
            },
            Option::None => match sup_of(h, id) {
                Option::Some(sp) => spec_field_visibility(h, sp, key),
                Option::None => Option::None,
            },
        }
    }
}

/// Whether any node of the chain owns a member under `key`.
pub open spec fn spec_has_field_include_hidden(h: Seq<MNode>, id: int, key: Seq<u8>) -> bool
    decreases id,
{
    if !(0 <= id < h.len()) {
        false
    } else if find_member(h[id].entries, key) is Some {
        true
    } else {
        match sup_of(h, id) {
            Option::Some(sp) => spec_has_field_include_hidden(h, sp, key),
            Option::None => false,
        }
    }
}

/// Whether `key` resolves to a field that default enumeration shows.
pub open spec fn spec_has_field(h: Seq<MNode>, id: int, key: Seq<u8>) -> bool {
    match spec_field_visibility(h, id, key) {
        Option::Some(v) => crate::expr::spec_is_visible(v),
        Option::None => false,
    }
}

/// Model of a visibility listing.
pub open spec fn vis_model(s: Seq<(IStr, bool)>) -> Seq<(Seq<u8>, bool)> {
    s.map_values(|p: (IStr, bool)| (p.0@, p.1))
}

/// Index of `k` in a visibility listing, scanning from `i`.
pub open spec fn vis_idx(base: Seq<(Seq<u8>, bool)>, k: Seq<u8>, i: int) -> Option<int>
    decreases base.len() - i,
{
    if i < 0 || i >= base.len() {
        Option::None
    } else if base[i].0 == k {
        Option::Some(i)
    } else {
        vis_idx(base, k, i + 1)
    }
}

/// Fold one member into a visibility listing: `Hidden` and `Unhide`
/// overwrite, `Normal` only records a new name.
pub open spec fn apply_one(base: Seq<(Seq<u8>, bool)>, k: Seq<u8>, vis: Visibility) -> Seq<(
    Seq<u8>,
    bool,
)> {
    match vis {
        Visibility::Normal => match vis_idx(base, k, 0) {
            Option::Some(_) => base,
            Option::None => base.push((k, true)),
        },
        Visibility::Hidden => match vis_idx(base, k, 0) {
            Option::Some(j) => base.update(j, (k, false)),
            Option::None => base.push((k, false)),
        },
        Visibility::Unhide => match vis_idx(base, k, 0) {
            Option::Some(j) => base.update(j, (k, true)),
            Option::None => base.push((k, true)),
        },
    }
}

/// Fold the first `n` members of a node into a visibility listing.
pub open spec fn apply_prefix(
    base: Seq<(Seq<u8>, bool)>,
    entries: Seq<(Seq<u8>, MMember)>,
    n: int,
) -> Seq<(Seq<u8>, bool)>
    decreases n,
{
    if n <= 0 {
        base
    } else {
        apply_one(apply_prefix(base, entries, n - 1), entries[n - 1].0, entries[n - 1].1.visibility)
    }
}

/// The visibility listing of a chain: parent first, then the node's own
/// members, so that a child's `Hidden`/`Unhide` wins and a child's `Normal`
/// cannot unhide what an ancestor hid.
pub open spec fn spec_fields_visibility(h: Seq<MNode>, id: int) -> Seq<(Seq<u8>, bool)>
    decreases id,
{
    if !(0 <= id < h.len()) {
        Seq::empty()
    } else {
        let base = match sup_of(h, id) {
            Option::Some(sp) => spec_fields_visibility(h, sp),
            Option::None => Seq::empty(),
        };
        apply_prefix(base, h[id].entries, h[id].entries.len() as int)
    }
}

/// Fold one member into an executable visibility listing.
fn vis_apply(out: &mut Vec<(IStr, bool)>, k: IStr, vis: Visibility)
    ensures
        vis_model(final(out)@) == apply_one(vis_model(old(out)@), k@, vis),
{
    let ghost vm = vis_model(out@);
    let n = out.len();
    let mut i: usize = 0;
    while i < n
        invariant
            out == old(out),
            vm == vis_model(out@),
            i <= n,
            n == out@.len(),
            vis_idx(vm, k@, 0) == vis_idx(vm, k@, i as int),
        decreases n - i,
    {
        proof {
            assert(vm[i as int] == (out@[i as int].0@, out@[i as int].1));
        }
        if out[i].0.eq_name(&k) {
            proof {
                assert(vis_idx(vm, k@, i as int) == Option::Some(i as int));
            }
            match vis {
                Visibility::Normal => {}
                Visibility::Hidden => {
                    let p = &mut out[i];
                    p.1 = false;
                    proof {
                        assert(vis_model(out@) =~= apply_one(vm, k@, vis));
                    }
                }
                Visibility::Unhide => {
                    let p = &mut out[i];
                    p.1 = true;
                    proof {
                        assert(vis_model(out@) =~= apply_one(vm, k@, vis));
                    }
                }
            }
            return ;
        }
        i = i + 1;
    }
    let shown = match vis {
        Visibility::Normal => true,
        Visibility::Hidden => false,
        Visibility::Unhide => true,
    };
    out.push((k, shown));
    proof {
        assert(vis_idx(vm, k@, n as int) is None);
        assert(vis_model(out@) =~= apply_one(vm, k@, vis));
    }
}

impl ObjValue {
    /// The visibility a chain gives `name`, as `spec_field_visibility` says.
    pub fn field_visibility(&self, heap: &ObjArena, name: &IStr) -> (r: Option<Visibility>)
        requires
            heap.wf(),
            (self.id as int) < heap.model().len(),
        ensures
            r == spec_field_visibility(heap.model(), self.id as int, name@),
        decreases self.id,
    {
        proof {
            assert(node_model_wf(heap.model(), self.id as int));
        }
        let mj = member_lookup(heap, self.id, name);
        let sup_h = heap.nodes[self.id].super_obj;
        proof {
            match sup_h {
                Option::Some(sh) => {
                    assert(sup_of(heap.model(), self.id as int) == Option::Some(sh.id as int));
                }
                Option::None => {
                    assert(sup_of(heap.model(), self.id as int) is None);
                }
            }
        }
        match mj {
            Option::Some(j) => {
                let eidx = heap.nodes[self.id].this_entries;
                let vis = heap.entry_sets[eidx][j].1.visibility;
                match vis {
                    Visibility::Normal => match sup_h {
                        Option::Some(sh) => match sh.field_visibility(heap, name) {
                            Option::Some(v) => Option::Some(v),
                            Option::None => Option::Some(Visibility::Normal),
                        },
                        Option::None => Option::Some(Visibility::Normal),
                    },
                    Visibility::Hidden => Option::Some(Visibility::Hidden),
                    Visibility::Unhide => Option::Some(Visibility::Unhide),
                }
            }
            Option::None => match sup_h {
                Option::Some(sh) => sh.field_visibility(heap, name),
                Option::None => Option::None,
            },
        }
    }

    /// Whether any node of the chain owns a member under `name`.
    fn has_field_include_hidden(&self, heap: &ObjArena, name: &IStr) -> (r: bool)
        requires
            heap.wf(),
            (self.id as int) < heap.model().len(),
        ensures
            r == spec_has_field_include_hidden(heap.model(), self.id as int, name@),
        decreases self.id,
    {
        proof {
            assert(node_model_wf(heap.model(), self.id as int));
        }
        let mj = member_lookup(heap, self.id, name);
        let sup_h = heap.nodes[self.id].super_obj;
        proof {
            match sup_h {
                Option::Some(sh) => {
                    assert(sup_of(heap.model(), self.id as int) == Option::Some(sh.id as int));
                }
                Option::None => {
                    assert(sup_of(heap.model(), self.id as int) is None);
                }
            }
        }
        match mj {
            Option::Some(_) => true,
            Option::None => match sup_h {
                Option::Some(sh) => sh.has_field_include_hidden(heap, name),
                Option::None => false,
            },
        }
    }

    /// Whether the object has a field `name`, with hidden fields counted
    /// only when `include_hidden` asks for them.
    pub fn has_field_ex(&self, heap: &ObjArena, name: &IStr, include_hidden: bool) -> (r: bool)
        requires
            heap.wf(),
            (self.id as int) < heap.model().len(),
        ensures
            include_hidden ==> r == spec_has_field_include_hidden(
                heap.model(),
                self.id as int,
                name@,
            ),
            !include_hidden ==> r == spec_has_field(heap.model(), self.id as int, name@),
    {
        if include_hidden {
            self.has_field_include_hidden(heap, name)
        } else {
            self.has_field(heap, name)
        }
    }

    /// Whether the object has a field `name` that default enumeration shows.
    pub fn has_field(&self, heap: &ObjArena, name: &IStr) -> (r: bool)
        requires
            heap.wf(),
            (self.id as int) < heap.model().len(),
        ensures
            r == spec_has_field(heap.model(), self.id as int, name@),
    {
        match self.field_visibility(heap, name) {
            Option::Some(v) => v.is_visible(),
            Option::None => false,
        }
    }

    /// The visibility listing of the chain, parent first, as
    /// `spec_fields_visibility` says.
    pub fn fields_visibility(&self, heap: &ObjArena) -> (r: Vec<(IStr, bool)>)
        requires
            heap.wf(),
            (self.id as int) < heap.model().len(),
        ensures
            vis_model(r@) == spec_fields_visibility(heap.model(), self.id as int),
        decreases self.id,
    {
        proof {
            assert(node_model_wf(heap.model(), self.id as int));
        }
        let sup_h = heap.nodes[self.id].super_obj;
        proof {
            match sup_h {
                Option::Some(sh) => {
                    assert(sup_of(heap.model(), self.id as int) == Option::Some(sh.id as int));
                }
                Option::None => {
                    assert(sup_of(heap.model(), self.id as int) is None);
                }
            }
        }
        let mut out = match sup_h {
            Option::Some(sh) => sh.fields_visibility(heap),
            Option::None => Vec::new(),
        };
        let ghost base = vis_model(out@);
        proof {
            if sup_h is None {
                assert(base =~= Seq::<(Seq<u8>, bool)>::empty());
            }
        }
        let ghost em = heap.model()[self.id as int].entries;
        let eidx = heap.nodes[self.id].this_entries;
        proof {
            assert(em == entries_model(heap.entry_sets@[eidx as int]@));
        }
        let n = heap.entry_sets[eidx].len();
        let mut i: usize = 0;
        while i < n
            invariant
                heap.wf(),
                (self.id as int) < heap.model().len(),
                eidx == heap.nodes@[self.id as int].this_entries,
                i <= n,
                n == heap.entry_sets@[eidx as int]@.len(),
                em == entries_model(heap.entry_sets@[eidx as int]@),
                vis_model(out@) == apply_prefix(base, em, i as int),
            decreases n - i,
        {
            proof {
                assert(em[i as int] == (
                    heap.entry_sets@[eidx as int]@[i as int].0@,
                    member_model(heap.entry_sets@[eidx as int]@[i as int].1),
                ));
            }
            let k = heap.entry_sets[eidx][i].0.duplicate();
            let vis = heap.entry_sets[eidx][i].1.visibility;
            vis_apply(&mut out, k, vis);
            i = i + 1;
        }
        out
    }
}

/// Insert a name into a lexicographically ordered listing.
pub open spec fn spec_insert_name(s: Seq<Seq<u8>>, x: Seq<u8>) -> Seq<Seq<u8>>
    decreases s.len(),
{
    if s.len() == 0 {
        seq![x]
    } else if lex_lt(x, s[0]) {
        seq![x] + s
    } else {
        seq![s[0]] + spec_insert_name(s.skip(1), x)
    }
}

/// The sorted names of the first `n` records of a visibility listing,
/// keeping the hidden ones only on request.
pub open spec fn spec_sorted_names(v: Seq<(Seq<u8>, bool)>, include_hidden: bool, n: int) -> Seq<
    Seq<u8>,
>
    decreases n,
{
    if n <= 0 {
        Seq::empty()
    } else {
        let prev = spec_sorted_names(v, include_hidden, n - 1);
        if include_hidden || v[n - 1].1 {
            spec_insert_name(prev, v[n - 1].0)
        } else {
            prev
        }
    }
}

/// The sorted field names of a chain.
pub open spec fn spec_fields_ex(h: Seq<MNode>, id: int, include_hidden: bool) -> Seq<Seq<u8>> {
    let v = spec_fields_visibility(h, id);
    spec_sorted_names(v, include_hidden, v.len() as int)
}

/// Names of a listing.
pub open spec fn names_view(s: Seq<IStr>) -> Seq<Seq<u8>> {
    s.map_values(|p: IStr| p@)
}

/// Insert `x` before the first strictly larger name.
fn insert_sorted(out: &mut Vec<IStr>, x: IStr)
    ensures
        names_view(final(out)@) == spec_insert_name(names_view(old(out)@), x@),
{
    let ghost nv = names_view(out@);
    let n = out.len();
    let mut i: usize = 0;
    proof {
        assert(nv.skip(0) =~= nv);
        assert(nv.take(0) + spec_insert_name(nv.skip(0), x@) =~= spec_insert_name(nv, x@));
    }
    while i < n
        invariant
            out == old(out),
            nv == names_view(out@),
            i <= n,
            n == out@.len(),
            spec_insert_name(nv, x@) == nv.take(i as int) + spec_insert_name(
                nv.skip(i as int),
                x@,
            ),
        decreases n - i,
    {
        proof {
            assert(nv[i as int] == out@[i as int]@);
            assert(nv.skip(i as int)[0] == nv[i as int]);
        }
        if x.lt_name(&out[i]) {
            out.insert(i, x);
            proof {
                assert(spec_insert_name(nv.skip(i as int), x@) =~= seq![x@] + nv.skip(i as int));
                assert(names_view(out@) =~= nv.take(i as int) + (seq![x@] + nv.skip(i as int)));
            }
            return ;
        }
        proof {
            assert(spec_insert_name(nv.skip(i as int), x@) == seq![nv[i as int]]
                + spec_insert_name(nv.skip(i as int).skip(1), x@));
            assert(nv.skip(i as int).skip(1) =~= nv.skip(i as int + 1));
            assert(nv.take(i as int) + (seq![nv[i as int]] + spec_insert_name(
                nv.skip(i as int + 1),
                x@,
            )) =~= nv.take(i as int + 1) + spec_insert_name(nv.skip(i as int + 1), x@));
        }
        i = i + 1;
    }
    out.push(x);
    proof {
        assert(nv.skip(n as int) =~= Seq::<Seq<u8>>::empty());
        assert(spec_insert_name(nv.skip(n as int), x@) =~= seq![x@]);
        assert(names_view(out@) =~= nv.take(n as int) + seq![x@]);
        assert(nv.take(n as int) =~= nv);
    }
}

impl ObjValue {
    /// The field names of the chain, lexicographically sorted; hidden
    /// fields appear only when `include_hidden` asks for them.
    pub fn fields_ex(&self, heap: &ObjArena, include_hidden: bool) -> (r: Vec<IStr>)
        requires
            heap.wf(),
            (self.id as int) < heap.model().len(),
        ensures
            names_view(r@) == spec_fields_ex(heap.model(), self.id as int, include_hidden),
    {
        let vis = self.fields_visibility(heap);
        let ghost vm = vis_model(vis@);
        let n = vis.len();
        let mut out: Vec<IStr> = Vec::new();
        let mut i: usize = 0;
        proof {
            assert(names_view(out@) =~= Seq::<Seq<u8>>::empty());
        }
        while i < n
            invariant
                i <= n,
                n == vis@.len(),
                vm == vis_model(vis@),
                names_view(out@) == spec_sorted_names(vm, include_hidden, i as int),
            decreases n - i,
        {
            proof {
                assert(vm[i as int] == (vis@[i as int].0@, vis@[i as int].1));
            }
            if include_hidden || vis[i].1 {
                let k = vis[i].0.duplicate();
                insert_sorted(&mut out, k);
            }
            i = i + 1;
        }
        proof {
            assert(vm.len() == n as int);
        }
        out
    }

    /// The default field listing: sorted, without hidden fields.
    pub fn fields(&self, heap: &ObjArena) -> (r: Vec<IStr>)
        requires
            heap.wf(),
            (self.id as int) < heap.model().len(),
        ensures
            names_view(r@) == spec_fields_ex(heap.model(), self.id as int, false),
    {
        self.fields_ex(heap, false)
    }
}


// ---------------------------------------------------------------------------
// Laws of the engine.
// ---------------------------------------------------------------------------

/// How one heap may follow from another during evaluation: nothing already
/// built changes except that caches gain records and ran-sets keep their
/// markers; new nodes may be appended.
pub open spec fn heap_evolves(a: Seq<MNode>, b: Seq<MNode>) -> bool {
    &&& a.len() <= b.len()
    &&& forall|i: int|
        0 <= i < a.len() ==> {
            &&& (#[trigger] b[i]).sup == a[i].sup
            &&& b[i].pinned == a[i].pinned
            &&& b[i].entries == a[i].entries
            &&& b[i].asserts == a[i].asserts
        }
    &&& forall|i: int, x: int|
        0 <= i < a.len() && #[trigger] a[i].ran.contains(x) ==> b[i].ran.contains(x)
    &&& forall|i: int, k: Seq<u8>, t: int|
        0 <= i < a.len() && (#[trigger] find_cache(a[i].cache, k, t)) is Some ==> find_cache(
            b[i].cache,
            k,
            t,
        ) == find_cache(a[i].cache, k, t)
}

proof fn lemma_evolves_trans(a: Seq<MNode>, b: Seq<MNode>, c: Seq<MNode>)
    requires
        heap_evolves(a, b),
        heap_evolves(b, c),
    ensures
        heap_evolves(a, c),
{
    assert forall|i: int, x: int|
        0 <= i < a.len() && #[trigger] a[i].ran.contains(x) implies c[i].ran.contains(x) by {
        assert(b[i].ran.contains(x));
    }
    assert forall|i: int, k: Seq<u8>, t: int|
        0 <= i < a.len() && (#[trigger] find_cache(a[i].cache, k, t)) is Some implies find_cache(
        c[i].cache,
        k,
        t,
    ) == find_cache(a[i].cache, k, t) by {
        assert(find_cache(b[i].cache, k, t) == find_cache(a[i].cache, k, t));
    }
}

/// A memoized record survives appends at the end of the cache.
proof fn lemma_find_cache_push(c: Seq<MCache>, e: MCache, k: Seq<u8>, t: int, i: int)
    requires
        find_cache_from(c, k, t, i) is Some,
    ensures
        find_cache_from(c.push(e), k, t, i) == find_cache_from(c, k, t, i),
    decreases c.len() - i,
{
    if i < 0 || i >= c.len() {
    } else if c[i].key == k && c[i].this == t {
        assert(c.push(e)[i] == c[i]);
    } else {
        assert(c.push(e)[i] == c[i]);
        lemma_find_cache_push(c, e, k, t, i + 1);
    }
}

/// A missing record is found after the matching record is appended.
proof fn lemma_find_cache_after_push(c: Seq<MCache>, k: Seq<u8>, t: int, v: Option<MVal>, i: int)
    requires
        0 <= i <= c.len(),
        find_cache_from(c, k, t, i) is None,
    ensures
        find_cache_from(c.push(MCache { key: k, this: t, value: v }), k, t, i) == Option::Some(v),
    decreases c.len() - i,
{
    let cp = c.push(MCache { key: k, this: t, value: v });
    if i == c.len() {
        assert(cp[i] == MCache { key: k, this: t, value: v });
    } else {
        assert(cp[i] == c[i]);
        lemma_find_cache_after_push(c, k, t, v, i + 1);
    }
}

/// Removing the first occurrence of `t` keeps every other value.
proof fn lemma_remove_first_keeps(s: Seq<int>, t: int, x: int, i: int)
    requires
        x != t,
        s.contains(x),
    ensures
        seq_remove_first(s, t, i).contains(x),
    decreases s.len() - i,
{
    if i < 0 || i >= s.len() {
    } else if s[i] == t {
        let r = s.remove(i);
        let m = choose|m: int| 0 <= m < s.len() && s[m] == x;
        if m < i {
            assert(r[m] == x);
        } else {
            assert(m != i);
            assert(r[m - 1] == x);
        }
    } else {
        lemma_remove_first_keeps(s, t, x, i + 1);
    }
}

proof fn lemma_set_mark_evolves(h: Seq<MNode>, i: int, t: int)
    ensures
        heap_evolves(h, set_mark(h, i, t)),
{
    let b = set_mark(h, i, t);
    assert forall|j: int, x: int|
        0 <= j < h.len() && #[trigger] h[j].ran.contains(x) implies b[j].ran.contains(x) by {
        if j == i {
            let m = choose|m: int| 0 <= m < h[j].ran.len() && h[j].ran[m] == x;
            assert(b[j].ran[m] == x);
        }
    }
}

proof fn lemma_set_cache_evolves(h: Seq<MNode>, i: int, e: MCache)
    ensures
        heap_evolves(h, set_cache(h, i, e)),
{
    let b = set_cache(h, i, e);
    assert forall|j: int, k: Seq<u8>, t: int|
        0 <= j < h.len() && (#[trigger] find_cache(h[j].cache, k, t)) is Some implies find_cache(
        b[j].cache,
        k,
        t,
    ) == find_cache(h[j].cache, k, t) by {
        if j == i {
            lemma_find_cache_push(h[j].cache, e, k, t, 0);
        }
    }
}

/// `spec_extend` only appends, so the old heap evolves into its result.
proof fn lemma_extend_evolves(h: Seq<MNode>, c: int, p: int)
    ensures
        heap_evolves(h, spec_extend(h, c, p).0),
{
    lemma_spec_extend_frame(h, c, p);
    let b = spec_extend(h, c, p).0;
    assert forall|j: int, x: int|
        0 <= j < h.len() && #[trigger] h[j].ran.contains(x) implies b[j].ran.contains(x) by {
        assert(b[j] == h[j]);
    }
}

proof fn lemma_add_evolves(h: Seq<MNode>, a: MVal, b: MVal)
    ensures
        heap_evolves(h, spec_add(h, a, b).0),
{
    match (a, b) {
        (MVal::Obj(x), MVal::Obj(y)) => {
            if 0 <= x && x < h.len() && 0 <= y && y < h.len() {
                lemma_extend_evolves(h, y, x);
            }
        }
        _ => {}
    }
}

/// Evaluation only evolves the heap.
proof fn lemma_eval_evolves(h: Seq<MNode>, e: MBind, this: Option<int>, sup: Option<int>, fuel: nat)
    ensures
        heap_evolves(h, spec_eval(h, e, this, sup, fuel).0),
    decreases fuel, 0nat, bind_height(e),
{
    match e {
        MBind::Literal(_) => {}
        MBind::SelfField(k) => {
            if this is Some && fuel > 0 {
                lemma_get_evolves(h, this->Some_0, k, (fuel - 1) as nat);
            }
        }
        MBind::SuperField(k) => {
            if sup is Some && fuel > 0 {
                lemma_get_evolves(h, sup->Some_0, k, (fuel - 1) as nat);
            }
        }
        MBind::Plus(x, y) => {
            lemma_eval_evolves(h, *x, this, sup, fuel);
            let (h1, rx) = spec_eval(h, *x, this, sup, fuel);
            if rx is Ok {
                lemma_eval_evolves(h1, *y, this, sup, fuel);
                let (h2, ry) = spec_eval(h1, *y, this, sup, fuel);
                lemma_evolves_trans(h, h1, h2);
                if ry is Ok {
                    lemma_add_evolves(h2, rx->Ok_0, ry->Ok_0);
                    lemma_evolves_trans(h, h2, spec_add(h2, rx->Ok_0, ry->Ok_0).0);
                }
            }
        }
        MBind::Equals(x, y) => {
            lemma_eval_evolves(h, *x, this, sup, fuel);
            let (h1, rx) = spec_eval(h, *x, this, sup, fuel);
            if rx is Ok {
                lemma_eval_evolves(h1, *y, this, sup, fuel);
                let (h2, _) = spec_eval(h1, *y, this, sup, fuel);
                lemma_evolves_trans(h, h1, h2);
            }
        }
    }
}

proof fn lemma_run_list_evolves(
    h: Seq<MNode>,
    asserts: Seq<MBind>,
    i: int,
    t: int,
    sup: Option<int>,
    fuel: nat,
)
    ensures
        heap_evolves(h, spec_run_list(h, asserts, i, t, sup, fuel).0),
    decreases fuel, 1nat, asserts.len() - i,
{
    if i < 0 || i >= asserts.len() {
    } else {
        lemma_eval_evolves(h, asserts[i], Option::Some(t), sup, fuel);
        let (h1, r) = spec_eval(h, asserts[i], Option::Some(t), sup, fuel);
        match r {
            Result::Ok(MVal::Bool(true)) => {
                lemma_run_list_evolves(h1, asserts, i + 1, t, sup, fuel);
                lemma_evolves_trans(h, h1, spec_run_list(h1, asserts, i + 1, t, sup, fuel).0);
            }
            _ => {}
        }
    }
}

proof fn lemma_run_assertions_evolves(h: Seq<MNode>, id: int, t: int, fuel: nat)
    ensures
        heap_evolves(h, spec_run_assertions(h, id, t, fuel).0),
    decreases fuel, 2nat, id,
{
    if !(0 <= id < h.len()) {
    } else if h[id].ran.contains(t) {
        match sup_of(h, id) {
            Option::Some(sp) => {
                lemma_run_assertions_evolves(h, sp, t, fuel);
            }
            Option::None => {}
        }
    } else {
        let h1 = set_mark(h, id, t);
        lemma_set_mark_evolves(h, id, t);
        lemma_run_list_evolves(h1, h[id].asserts, 0, t, sup_of(h, id), fuel);
        let (h2, e) = spec_run_list(h1, h[id].asserts, 0, t, sup_of(h, id), fuel);
        lemma_evolves_trans(h, h1, h2);
        match e {
            Option::Some(_) => {
                let hu = unset_mark(h2, id, t);
                assert(heap_evolves(h, hu)) by {
                    assert forall|j: int, x: int|
                        0 <= j < h.len() && #[trigger] h[j].ran.contains(x) implies hu[j].ran.contains(
                        x,
                    ) by {
                        assert(h2[j].ran.contains(x));
                        if j == id {
                            assert(x != t);
                            lemma_remove_first_keeps(h2[j].ran, t, x, 0);
                        }
                    }
                    assert forall|j: int, k: Seq<u8>, tt: int|
                        0 <= j < h.len() && (#[trigger] find_cache(h[j].cache, k, tt)) is Some implies find_cache(
                        hu[j].cache,
                        k,
                        tt,
                    ) == find_cache(h[j].cache, k, tt) by {
                        assert(find_cache(h2[j].cache, k, tt) == find_cache(h[j].cache, k, tt));
                        assert(hu[j].cache == h2[j].cache);
                    }
                }
            }
            Option::None => {
                match sup_of(h, id) {
                    Option::Some(sp) => {
                        lemma_run_assertions_evolves(h2, sp, t, fuel);
                        lemma_evolves_trans(h, h2, spec_run_assertions(h2, sp, t, fuel).0);
                    }
                    Option::None => {}
                }
            }
        }
    }
}

proof fn lemma_get_raw_evolves(h: Seq<MNode>, id: int, key: Seq<u8>, t: int, fuel: nat)
    ensures
        heap_evolves(h, spec_get_raw(h, id, key, t, fuel).0),
    decreases fuel, 2nat, id,
{
    if !(0 <= id < h.len()) {
    } else if find_cache(h[id].cache, key, t) is Some {
    } else {
        let res = match (find_member(h[id].entries, key), sup_of(h, id)) {
            (Option::Some(mm), Option::None) => {
                lemma_eval_evolves(h, mm.invoke, Option::Some(t), Option::None, fuel);
            }
            (Option::Some(mm), Option::Some(sp)) => {
                lemma_eval_evolves(h, mm.invoke, Option::Some(t), Option::Some(sp), fuel);
                let (h1, r) = spec_eval(h, mm.invoke, Option::Some(t), Option::Some(sp), fuel);
                if mm.add && r is Ok {
                    lemma_get_raw_evolves(h1, sp, key, t, fuel);
                    let (h2, rp) = spec_get_raw(h1, sp, key, t, fuel);
                    lemma_evolves_trans(h, h1, h2);
                    if rp is Ok && rp->Ok_0 is Some {
                        lemma_add_evolves(h2, rp->Ok_0->Some_0, r->Ok_0);
                        lemma_evolves_trans(h, h2, spec_add(h2, rp->Ok_0->Some_0, r->Ok_0).0);
                    }
                }
            }
            (Option::None, Option::Some(sp)) => {
                lemma_get_raw_evolves(h, sp, key, t, fuel);
            }
            (Option::None, Option::None) => {}
        };
        let mid = spec_get_raw_mid(h, id, key, t, fuel);
        if mid.1 is Ok && find_cache(mid.0[id].cache, key, t) is None {
            lemma_set_cache_evolves(mid.0, id, MCache { key, this: t, value: mid.1->Ok_0 });
            lemma_evolves_trans(h, mid.0, set_cache(mid.0, id, MCache { key, this: t, value: mid.1->Ok_0 }));
        }
    }
}

/// The intermediate outcome of `spec_get_raw` before memoization.
pub open spec fn spec_get_raw_mid(h: Seq<MNode>, id: int, key: Seq<u8>, t: int, fuel: nat) -> (
    Seq<MNode>,
    Result<Option<MVal>, EvalError>,
)
    decreases fuel, 1nat, id,
{
    match (find_member(h[id].entries, key), sup_of(h, id)) {
        (Option::Some(mm), Option::None) => {
            let (h1, r) = spec_eval(h, mm.invoke, Option::Some(t), Option::None, fuel);
            match r {
                Result::Ok(v) => (h1, Result::Ok(Option::Some(v))),
                Result::Err(er) => (h1, Result::Err(er)),
            }
        },
        (Option::Some(mm), Option::Some(sp)) => if !mm.add {
            let (h1, r) = spec_eval(h, mm.invoke, Option::Some(t), Option::Some(sp), fuel);
            match r {
                Result::Ok(v) => (h1, Result::Ok(Option::Some(v))),
                Result::Err(er) => (h1, Result::Err(er)),
            }
        } else {
            let (h1, r) = spec_eval(h, mm.invoke, Option::Some(t), Option::Some(sp), fuel);
            match r {
                Result::Err(er) => (h1, Result::Err(er)),
                Result::Ok(our) => {
                    let (h2, rp) = spec_get_raw(h1, sp, key, t, fuel);
                    match rp {
                        Result::Err(er) => (h2, Result::Err(er)),
                        Result::Ok(Option::None) => (h2, Result::Ok(Option::Some(our))),
                        Result::Ok(Option::Some(pv)) => {
                            let (h3, rs) = spec_add(h2, pv, our);
                            match rs {
                                Result::Ok(v) => (h3, Result::Ok(Option::Some(v))),
                                Result::Err(er) => (h3, Result::Err(er)),
                            }
                        },
                    }
                },
            }
        },
        (Option::None, Option::Some(sp)) => spec_get_raw(h, sp, key, t, fuel),
        (Option::None, Option::None) => (h, Result::Ok(Option::None)),
    }
}

proof fn lemma_get_evolves(h: Seq<MNode>, id: int, key: Seq<u8>, fuel: nat)
    ensures
        heap_evolves(h, spec_get(h, id, key, fuel).0),
    decreases fuel, 3nat, id,
{
    if 0 <= id < h.len() {
        let t = target_of(h, id);
        lemma_run_assertions_evolves(h, id, t, fuel);
        let (h1, e) = spec_run_assertions(h, id, t, fuel);
        if e is None {
            lemma_get_raw_evolves(h1, id, key, t, fuel);
            lemma_evolves_trans(h, h1, spec_get_raw(h1, id, key, t, fuel).0);
        }
    }
}

/// Markers survive evolution, chain and all.
proof fn lemma_all_marked_evolves(a: Seq<MNode>, b: Seq<MNode>, id: int, t: int)
    requires
        all_marked(a, id, t),
        heap_evolves(a, b),
        0 <= id < a.len(),
    ensures
        all_marked(b, id, t),
    decreases id,
{
    assert(a[id].ran.contains(t));
    assert(b[id].sup == a[id].sup);
    assert(sup_of(b, id) == sup_of(a, id));
    match sup_of(a, id) {
        Option::Some(sp) => {
            lemma_all_marked_evolves(a, b, sp, t);
        }
        Option::None => {}
    }
}

/// A successful assertion run leaves every chain node marked.
proof fn lemma_run_assertions_marks(h: Seq<MNode>, id: int, t: int, fuel: nat)
    requires
        0 <= id < h.len(),
        spec_run_assertions(h, id, t, fuel).1 is None,
    ensures
        all_marked(spec_run_assertions(h, id, t, fuel).0, id, t),
    decreases id,
{
    let (hf, _) = spec_run_assertions(h, id, t, fuel);
    if h[id].ran.contains(t) {
        match sup_of(h, id) {
            Option::Some(sp) => {
                lemma_run_assertions_marks(h, sp, t, fuel);
                lemma_run_assertions_evolves(h, sp, t, fuel);
                assert(hf[id].ran.contains(t));
                assert(sup_of(hf, id) == sup_of(h, id));
            }
            Option::None => {}
        }
    } else {
        let h1 = set_mark(h, id, t);
        assert(h1[id].ran.contains(t)) by {
            assert(h1[id].ran[h[id].ran.len() as int] == t);
        }
        lemma_run_list_evolves(h1, h[id].asserts, 0, t, sup_of(h, id), fuel);
        let (h2, e) = spec_run_list(h1, h[id].asserts, 0, t, sup_of(h, id), fuel);
        assert(h2[id].ran.contains(t));
        match sup_of(h, id) {
            Option::Some(sp) => {
                lemma_run_assertions_marks(h2, sp, t, fuel);
                lemma_run_assertions_evolves(h2, sp, t, fuel);
                assert(hf[id].ran.contains(t));
                assert(sup_of(h2, id) == sup_of(h, id));
                assert(sup_of(hf, id) == sup_of(h, id));
            }
            Option::None => {
                assert(sup_of(h2, id) == sup_of(h, id));
            }
        }
    }
}

/// A successful resolution leaves its outcome memoized at the entry node.
proof fn lemma_get_raw_caches(h: Seq<MNode>, id: int, key: Seq<u8>, t: int, fuel: nat)
    requires
        0 <= id < h.len(),
        spec_get_raw(h, id, key, t, fuel).1 is Ok,
    ensures
        ({
            let (h2, r) = spec_get_raw(h, id, key, t, fuel);
            find_cache(h2[id].cache, key, t) == Option::Some(r->Ok_0)
        }),
{
    let (h2, r) = spec_get_raw(h, id, key, t, fuel);
    if find_cache(h[id].cache, key, t) is Some {
    } else {
        let mid = spec_get_raw_mid(h, id, key, t, fuel);
        match (find_member(h[id].entries, key), sup_of(h, id)) {
            (Option::Some(mm), Option::None) => {
                lemma_eval_evolves(h, mm.invoke, Option::Some(t), Option::None, fuel);
            }
            (Option::Some(mm), Option::Some(sp)) => {
                lemma_eval_evolves(h, mm.invoke, Option::Some(t), Option::Some(sp), fuel);
                let (h1, rr) = spec_eval(h, mm.invoke, Option::Some(t), Option::Some(sp), fuel);
                if mm.add && rr is Ok {
                    lemma_get_raw_evolves(h1, sp, key, t, fuel);
                    let (hx, rp) = spec_get_raw(h1, sp, key, t, fuel);
                    lemma_evolves_trans(h, h1, hx);
                    if rp is Ok && rp->Ok_0 is Some {
                        lemma_add_evolves(hx, rp->Ok_0->Some_0, rr->Ok_0);
                        lemma_evolves_trans(h, hx, spec_add(hx, rp->Ok_0->Some_0, rr->Ok_0).0);
                    }
                }
            }
            (Option::None, Option::Some(sp)) => {
                lemma_get_raw_evolves(h, sp, key, t, fuel);
            }
            (Option::None, Option::None) => {}
        }
        assert(h.len() <= mid.0.len());
        match find_cache(mid.0[id].cache, key, t) {
            Option::Some(_) => {}
            Option::None => {
                lemma_find_cache_after_push(mid.0[id].cache, key, t, mid.1->Ok_0, 0);
            }
        }
    }
}

/// Once an object's assertions all ran for its effective self, running them
/// again does nothing.
pub proof fn lemma_assertions_run_once(h: Seq<MNode>, id: int, t: int, fuel: nat)
    requires
        all_marked(h, id, t),
    ensures
        spec_run_assertions(h, id, t, fuel) == (h, Option::<EvalError>::None),
    decreases id,
{
    if 0 <= id < h.len() {
        match sup_of(h, id) {
            Option::Some(sp) => {
                lemma_assertions_run_once(h, sp, t, fuel);
            }
            Option::None => {}
        }
    }
}

/// A read whose assertions already ran and whose outcome is memoized is
/// answered from the cache and changes nothing, whatever the fuel.
pub proof fn lemma_cached_get(h: Seq<MNode>, id: int, key: Seq<u8>, fuel: nat)
    requires
        0 <= id < h.len(),
        all_marked(h, id, target_of(h, id)),
        find_cache(h[id].cache, key, target_of(h, id)) is Some,
    ensures
        spec_get(h, id, key, fuel) == (
            h,
            Result::<Option<MVal>, EvalError>::Ok(
                find_cache(h[id].cache, key, target_of(h, id))->Some_0,
            ),
        ),
{
    let t = target_of(h, id);
    lemma_assertions_run_once(h, id, t, fuel);
}

/// Idempotence of `get`: after a successful read, reading the same key
/// again — with any stack budget — returns the identical value and leaves
/// the arena untouched.
pub proof fn lemma_get_idempotent(h: Seq<MNode>, id: int, key: Seq<u8>, fuel: nat, fuel2: nat)
    requires
        0 <= id < h.len(),
        spec_get(h, id, key, fuel).1 is Ok,
    ensures
        spec_get(spec_get(h, id, key, fuel).0, id, key, fuel2) == (
            spec_get(h, id, key, fuel).0,
            spec_get(h, id, key, fuel).1,
        ),
{
    let (h2, r) = spec_get(h, id, key, fuel);
    let t = target_of(h, id);
    let (h1, e) = spec_run_assertions(h, id, t, fuel);
    lemma_run_assertions_evolves(h, id, t, fuel);
    lemma_run_assertions_marks(h, id, t, fuel);
    lemma_get_raw_evolves(h1, id, key, t, fuel);
    lemma_get_raw_caches(h1, id, key, t, fuel);
    lemma_all_marked_evolves(h1, h2, id, t);
    lemma_evolves_trans(h, h1, h2);
    assert(target_of(h2, id) == t);
    lemma_cached_get(h2, id, key, fuel2);
}


/// Appending nodes never changes an existing node's chain.
proof fn lemma_chain_push(h: Seq<MNode>, n: MNode, id: int)
    requires
        0 <= id < h.len(),
    ensures
        chain_of(h.push(n), id) == chain_of(h, id),
    decreases id,
{
    assert(h.push(n)[id] == h[id]);
    assert(sup_of(h.push(n), id) == sup_of(h, id));
    match sup_of(h, id) {
        Option::Some(sp) => {
            lemma_chain_push(h, n, sp);
        }
        Option::None => {}
    }
}

/// Every id on a chain lies inside the heap.
proof fn lemma_chain_bounds(h: Seq<MNode>, id: int)
    requires
        0 <= id < h.len(),
    ensures
        forall|j: int|
            0 <= j < chain_of(h, id).len() ==> 0 <= #[trigger] chain_of(h, id)[j] < h.len(),
        chain_of(h, id)[0] == id,
        chain_of(h, id).len() >= 1,
    decreases id,
{
    match sup_of(h, id) {
        Option::Some(sp) => {
            lemma_chain_bounds(h, sp);
        }
        Option::None => {}
    }
}

/// Extending grafts the parent at the bottom: the result's chain is a fresh
/// copy of the child's chain — same members and assertions node for node —
/// followed by the parent's own chain, whose deepest ancestor is therefore
/// the deepest ancestor of the whole.
pub proof fn lemma_extend_chain(h: Seq<MNode>, child: int, parent: int)
    requires
        0 <= child < h.len(),
        0 <= parent < h.len(),
    ensures
        ({
            let (h1, r) = spec_extend(h, child, parent);
            let cc = chain_of(h, child);
            let pc = chain_of(h, parent);
            let rc = chain_of(h1, r);
            &&& rc.len() == cc.len() + pc.len()
            &&& rc.skip(cc.len() as int) == pc
            &&& forall|j: int|
                0 <= j < cc.len() ==> 0 <= #[trigger] rc[j] < h1.len() && 0 <= cc[j] < h.len()
                    && h1[rc[j]].entries == h[cc[j]].entries && h1[rc[j]].asserts == h[cc[j]].asserts
        }),
    decreases child,
{
    let (h1, r) = spec_extend(h, child, parent);
    let cc = chain_of(h, child);
    let pc = chain_of(h, parent);
    let rc = chain_of(h1, r);
    lemma_chain_bounds(h, parent);
    match sup_of(h, child) {
        Option::None => {
            assert(cc =~= seq![child]);
            assert(sup_of(h1, r) == Option::Some(parent));
            lemma_chain_push(h, h1[r], parent);
            assert(chain_of(h1, parent) == pc);
            assert(rc == seq![r] + pc);
            assert(rc.skip(1) =~= pc);
            assert(h1[r].entries == h[child].entries);
            assert(h1[r].asserts == h[child].asserts);
        }
        Option::Some(sp) => {
            lemma_extend_chain(h, sp, parent);
            let (h2, rs) = spec_extend(h, sp, parent);
            lemma_spec_extend_frame(h, sp, parent);
            let sc = chain_of(h, sp);
            let rsc = chain_of(h2, rs);
            assert(cc == seq![child] + sc);
            assert(sup_of(h1, r) == Option::Some(rs)) by {
                assert(h1[r].sup == Option::Some(rs));
                assert(0 <= rs < r);
            }
            lemma_chain_push(h2, h1[r], rs);
            assert(chain_of(h1, rs) == rsc);
            assert(rc == seq![r] + rsc);
            assert(rc.len() == 1 + rsc.len());
            assert(cc.len() == 1 + sc.len());
            assert(rc.skip(cc.len() as int) =~= rsc.skip(sc.len() as int));
            assert(h1[r].entries == h[child].entries);
            assert(h1[r].asserts == h[child].asserts);
            assert forall|j: int|
                0 <= j < cc.len() implies 0 <= #[trigger] rc[j] < h1.len() && 0 <= cc[j] < h.len()
                && h1[rc[j]].entries == h[cc[j]].entries && h1[rc[j]].asserts
                == h[cc[j]].asserts by {
                if j == 0 {
                    assert(rc[0] == r);
                    assert(cc[0] == child);
                } else {
                    assert(rc[j] == rsc[j - 1]);
                    assert(cc[j] == sc[j - 1]);
                    assert(0 <= rsc[j - 1] < h2.len());
                    assert(h1[rsc[j - 1]] == h2[rsc[j - 1]]);
                }
            }
        }
    }
}


/// No value sits twice in a sequence.
pub open spec fn seq_nodup(s: Seq<int>) -> bool {
    forall|j: int, k: int| 0 <= j < k < s.len() ==> s[j] != s[k]
}

/// Under no duplication, removing the first occurrence removes the value.
proof fn lemma_remove_first_all(s: Seq<int>, t: int, i: int)
    requires
        seq_nodup(s),
        0 <= i,
    ensures
        !seq_remove_first(s, t, i).contains(t) || exists|m: int| 0 <= m < i && s[m] == t,
    decreases s.len() - i,
{
    if i >= s.len() {
        if s.contains(t) {
            let m = choose|m: int| 0 <= m < s.len() && s[m] == t;
            if m < i {
            }
        } else {
            assert forall|j: int|
                0 <= j < s.len() implies s[j] != t by {
                assert(!s.contains(t));
            }
            if seq_remove_first(s, t, i).contains(t) {
                let m = choose|m: int|
                    0 <= m < s.len() && seq_remove_first(s, t, i)[m] == t;
                assert(false);
            }
        }
    } else if s[i] == t {
        let r = s.remove(i);
        if r.contains(t) {
            let m = choose|m: int| 0 <= m < r.len() && r[m] == t;
            if m < i {
                assert(s[m] == t);
                assert(s[m] == s[i]);
            } else {
                assert(s[m + 1] == t);
                assert(s[m + 1] == s[i]);
            }
        }
    } else {
        lemma_remove_first_all(s, t, i + 1);
        if !(exists|m: int| 0 <= m < i + 1 && s[m] == t) {
        } else {
            let m = choose|m: int| 0 <= m < i + 1 && s[m] == t;
            assert(m == i || (0 <= m < i && s[m] == t));
        }
    }
}

proof fn lemma_extend_wf(h: Seq<MNode>, c: int, p: int)
    requires
        model_wf(h),
        0 <= p < h.len(),
    ensures
        model_wf(spec_extend(h, c, p).0),
    decreases c,
{
    lemma_spec_extend_frame(h, c, p);
    match sup_of(h, c) {
        Option::None => {
            let h1 = spec_extend(h, c, p).0;
            assert forall|i: int| 0 <= i < h1.len() implies node_model_wf(h1, i) by {
                if i < h.len() {
                    assert(node_model_wf(h, i));
                    assert(h1[i] == h[i]);
                } else {
                    assert(h1[i].sup == Option::Some(p));
                    assert(h1[i].ran.len() == 0);
                }
            }
        }
        Option::Some(sp) => {
            lemma_extend_wf(h, sp, p);
            lemma_spec_extend_frame(h, sp, p);
            let (h2, ns) = spec_extend(h, sp, p);
            let h1 = spec_extend(h, c, p).0;
            assert forall|i: int| 0 <= i < h1.len() implies node_model_wf(h1, i) by {
                if i < h2.len() {
                    assert(node_model_wf(h2, i));
                    assert(h1[i] == h2[i]);
                } else {
                    assert(h1[i].sup == Option::Some(ns));
                    assert(0 <= ns < i);
                    assert(h1[i].ran.len() == 0);
                }
            }
        }
    }
}

proof fn lemma_add_wf(h: Seq<MNode>, a: MVal, b: MVal)
    requires
        model_wf(h),
    ensures
        model_wf(spec_add(h, a, b).0),
{
    match (a, b) {
        (MVal::Obj(x), MVal::Obj(y)) => {
            if 0 <= x && x < h.len() && 0 <= y && y < h.len() {
                lemma_extend_wf(h, y, x);
            }
        }
        _ => {}
    }
}

proof fn lemma_eval_wf(h: Seq<MNode>, e: MBind, this: Option<int>, sup: Option<int>, fuel: nat)
    requires
        model_wf(h),
    ensures
        model_wf(spec_eval(h, e, this, sup, fuel).0),
    decreases fuel, 0nat, bind_height(e),
{
    match e {
        MBind::Literal(_) => {}
        MBind::SelfField(k) => {
            if this is Some && fuel > 0 {
                lemma_get_wf(h, this->Some_0, k, (fuel - 1) as nat);
            }
        }
        MBind::SuperField(k) => {
            if sup is Some && fuel > 0 {
                lemma_get_wf(h, sup->Some_0, k, (fuel - 1) as nat);
            }
        }
        MBind::Plus(x, y) => {
            lemma_eval_wf(h, *x, this, sup, fuel);
            let (h1, rx) = spec_eval(h, *x, this, sup, fuel);
            if rx is Ok {
                lemma_eval_wf(h1, *y, this, sup, fuel);
                let (h2, ry) = spec_eval(h1, *y, this, sup, fuel);
                if ry is Ok {
                    lemma_add_wf(h2, rx->Ok_0, ry->Ok_0);
                }
            }
        }
        MBind::Equals(x, y) => {
            lemma_eval_wf(h, *x, this, sup, fuel);
            let (h1, rx) = spec_eval(h, *x, this, sup, fuel);
            if rx is Ok {
                lemma_eval_wf(h1, *y, this, sup, fuel);
            }
        }
    }
}

proof fn lemma_run_list_wf(
    h: Seq<MNode>,
    asserts: Seq<MBind>,
    i: int,
    t: int,
    sup: Option<int>,
    fuel: nat,
)
    requires
        model_wf(h),
    ensures
        model_wf(spec_run_list(h, asserts, i, t, sup, fuel).0),
    decreases fuel, 1nat, asserts.len() - i,
{
    if i < 0 || i >= asserts.len() {
    } else {
        lemma_eval_wf(h, asserts[i], Option::Some(t), sup, fuel);
        let (h1, r) = spec_eval(h, asserts[i], Option::Some(t), sup, fuel);
        match r {
            Result::Ok(MVal::Bool(true)) => {
                lemma_run_list_wf(h1, asserts, i + 1, t, sup, fuel);
            }
            _ => {}
        }
    }
}

proof fn lemma_run_assertions_wf(h: Seq<MNode>, id: int, t: int, fuel: nat)
    requires
        model_wf(h),
    ensures
        model_wf(spec_run_assertions(h, id, t, fuel).0),
    decreases fuel, 2nat, id,
{
    if !(0 <= id < h.len()) {
    } else if h[id].ran.contains(t) {
        match sup_of(h, id) {
            Option::Some(sp) => {
                lemma_run_assertions_wf(h, sp, t, fuel);
            }
            Option::None => {}
        }
    } else {
        let h1 = set_mark(h, id, t);
        assert(model_wf(h1)) by {
            assert forall|i: int| 0 <= i < h1.len() implies node_model_wf(h1, i) by {
                assert(node_model_wf(h, i));
                if i == id {
                    let nr = h1[i].ran;
                    assert(nr =~= h[i].ran.push(t));
                    assert forall|j: int, k: int|
                        0 <= j < k < nr.len() implies nr[j] != nr[k] by {
                        if k == nr.len() - 1 {
                            assert(nr[j] == h[i].ran[j]);
                            assert(h[i].ran.contains(h[i].ran[j]));
                        }
                    }
                }
            }
        }
        lemma_run_list_wf(h1, h[id].asserts, 0, t, sup_of(h, id), fuel);
        let (h2, e) = spec_run_list(h1, h[id].asserts, 0, t, sup_of(h, id), fuel);
        match e {
            Option::Some(_) => {
                let hu = unset_mark(h2, id, t);
                assert(model_wf(hu)) by {
                    assert forall|i: int| 0 <= i < hu.len() implies node_model_wf(hu, i) by {
                        assert(node_model_wf(h2, i));
                        if i == id {
                            let oldr = h2[i].ran;
                            let nr = hu[i].ran;
                            lemma_remove_first_shape(oldr, t, 0);
                        }
                    }
                }
            }
            Option::None => {
                match sup_of(h, id) {
                    Option::Some(sp) => {
                        lemma_run_assertions_wf(h2, sp, t, fuel);
                    }
                    Option::None => {}
                }
            }
        }
    }
}

/// Removal either leaves the sequence alone or removes one position.
proof fn lemma_remove_first_shape(s: Seq<int>, t: int, i: int)
    requires
        0 <= i,
        forall|j: int, k: int| 0 <= j < k < s.len() ==> s[j] != s[k],
    ensures
        ({
            let r = seq_remove_first(s, t, i);
            forall|j: int, k: int| 0 <= j < k < r.len() ==> r[j] != r[k]
        }),
    decreases s.len() - i,
{
    if i >= s.len() {
        assert(seq_remove_first(s, t, i) == s);
    } else if s[i] == t {
        let r = s.remove(i);
        assert forall|j: int, k: int| 0 <= j < k < r.len() implies r[j] != r[k] by {
            let oj = if j < i { j } else { j + 1 };
            let ok = if k < i { k } else { k + 1 };
            assert(r[j] == s[oj]);
            assert(r[k] == s[ok]);
        }
        assert(seq_remove_first(s, t, i) == r);
    } else {
        lemma_remove_first_shape(s, t, i + 1);
        assert(seq_remove_first(s, t, i) == seq_remove_first(s, t, i + 1));
    }
}

proof fn lemma_get_raw_wf(h: Seq<MNode>, id: int, key: Seq<u8>, t: int, fuel: nat)
    requires
        model_wf(h),
    ensures
        model_wf(spec_get_raw(h, id, key, t, fuel).0),
    decreases fuel, 2nat, id,
{
    if !(0 <= id < h.len()) {
    } else if find_cache(h[id].cache, key, t) is Some {
    } else {
        match (find_member(h[id].entries, key), sup_of(h, id)) {
            (Option::Some(mm), Option::None) => {
                lemma_eval_wf(h, mm.invoke, Option::Some(t), Option::None, fuel);
            }
            (Option::Some(mm), Option::Some(sp)) => {
                lemma_eval_wf(h, mm.invoke, Option::Some(t), Option::Some(sp), fuel);
                let (h1, r) = spec_eval(h, mm.invoke, Option::Some(t), Option::Some(sp), fuel);
                if mm.add && r is Ok {
                    lemma_get_raw_wf(h1, sp, key, t, fuel);
                    let (h2, rp) = spec_get_raw(h1, sp, key, t, fuel);
                    if rp is Ok && rp->Ok_0 is Some {
                        lemma_add_wf(h2, rp->Ok_0->Some_0, r->Ok_0);
                    }
                }
            }
            (Option::None, Option::Some(sp)) => {
                lemma_get_raw_wf(h, sp, key, t, fuel);
            }
            (Option::None, Option::None) => {}
        }
        let mid = spec_get_raw_mid(h, id, key, t, fuel);
        if mid.1 is Ok && find_cache(mid.0[id].cache, key, t) is None {
            let hc = set_cache(mid.0, id, MCache { key, this: t, value: mid.1->Ok_0 });
            assert forall|i: int| 0 <= i < hc.len() implies node_model_wf(hc, i) by {
                assert(node_model_wf(mid.0, i));
            }
        }
    }
}

proof fn lemma_get_wf(h: Seq<MNode>, id: int, key: Seq<u8>, fuel: nat)
    requires
        model_wf(h),
    ensures
        model_wf(spec_get(h, id, key, fuel).0),
    decreases fuel, 3nat, id,
{
    if 0 <= id < h.len() {
        let t = target_of(h, id);
        lemma_run_assertions_wf(h, id, t, fuel);
        let (h1, e) = spec_run_assertions(h, id, t, fuel);
        if e is None {
            lemma_get_raw_wf(h1, id, key, t, fuel);
        }
    }
}

/// Chains are stable under evolution.
proof fn lemma_chain_evolves(a: Seq<MNode>, b: Seq<MNode>, id: int)
    requires
        heap_evolves(a, b),
        0 <= id < a.len(),
    ensures
        chain_of(b, id) == chain_of(a, id),
    decreases id,
{
    assert(b[id].sup == a[id].sup);
    assert(sup_of(b, id) == sup_of(a, id));
    match sup_of(a, id) {
        Option::Some(sp) => {
            lemma_chain_evolves(a, b, sp);
        }
        Option::None => {}
    }
}

/// A failed assertion run is retryable: some node of the chain is left
/// without its ran-marker, so a later read runs that node's assertions
/// again instead of skipping them.
pub proof fn lemma_failed_assertions_retryable(h: Seq<MNode>, id: int, t: int, fuel: nat)
    requires
        model_wf(h),
        0 <= id < h.len(),
        spec_run_assertions(h, id, t, fuel).1 is Some,
    ensures
        ({
            let h2 = spec_run_assertions(h, id, t, fuel).0;
            exists|n: int|
                chain_of(h, id).contains(n) && 0 <= n < h2.len() && !(#[trigger] h2[n].ran).contains(
                    t,
                )
        }),
    decreases id,
{
    let h2 = spec_run_assertions(h, id, t, fuel).0;
    lemma_chain_bounds(h, id);
    if h[id].ran.contains(t) {
        match sup_of(h, id) {
            Option::Some(sp) => {
                lemma_failed_assertions_retryable(h, sp, t, fuel);
                let n = choose|n: int|
                    chain_of(h, sp).contains(n) && 0 <= n < h2.len() && !(#[trigger] h2[n].ran).contains(
                        t,
                    );
                assert(chain_of(h, id) == seq![id] + chain_of(h, sp));
                let j = choose|j: int| 0 <= j < chain_of(h, sp).len() && chain_of(h, sp)[j] == n;
                assert(chain_of(h, id)[j + 1] == n);
                assert(chain_of(h, id).contains(n));
            }
            Option::None => {
                assert(false);
            }
        }
    } else {
        let h1 = set_mark(h, id, t);
        let (hm, e) = spec_run_list(h1, h[id].asserts, 0, t, sup_of(h, id), fuel);
        match e {
            Option::Some(_) => {
                assert(model_wf(h1)) by {
                    assert forall|i: int| 0 <= i < h1.len() implies node_model_wf(h1, i) by {
                        assert(node_model_wf(h, i));
                        if i == id {
                            let nr = h1[i].ran;
                            assert(nr =~= h[i].ran.push(t));
                            assert forall|j: int, k: int|
                                0 <= j < k < nr.len() implies nr[j] != nr[k] by {
                                if k == nr.len() - 1 {
                                    assert(nr[j] == h[i].ran[j]);
                                    assert(h[i].ran.contains(h[i].ran[j]));
                                }
                            }
                        }
                    }
                }
                lemma_run_list_wf(h1, h[id].asserts, 0, t, sup_of(h, id), fuel);
                lemma_set_mark_evolves(h, id, t);
                lemma_run_list_evolves(h1, h[id].asserts, 0, t, sup_of(h, id), fuel);
                assert(h1.len() == h.len());
                assert(0 <= id < hm.len());
                assert(node_model_wf(hm, id));
                lemma_remove_first_all(hm[id].ran, t, 0);
                assert(h2 == unset_mark(hm, id, t));
                assert(!h2[id].ran.contains(t));
                assert(chain_of(h, id)[0] == id);
                assert(chain_of(h, id).contains(id));
            }
            Option::None => {
                match sup_of(h, id) {
                    Option::Some(sp) => {
                        assert(model_wf(h1)) by {
                            assert forall|i: int| 0 <= i < h1.len() implies node_model_wf(
                                h1,
                                i,
                            ) by {
                                assert(node_model_wf(h, i));
                                if i == id {
                                    let nr = h1[i].ran;
                                    assert(nr =~= h[i].ran.push(t));
                                    assert forall|j: int, k: int|
                                        0 <= j < k < nr.len() implies nr[j] != nr[k] by {
                                        if k == nr.len() - 1 {
                                            assert(nr[j] == h[i].ran[j]);
                                            assert(h[i].ran.contains(h[i].ran[j]));
                                        }
                                    }
                                }
                            }
                        }
                        lemma_run_list_wf(h1, h[id].asserts, 0, t, sup_of(h, id), fuel);
                        lemma_set_mark_evolves(h, id, t);
                        lemma_run_list_evolves(h1, h[id].asserts, 0, t, sup_of(h, id), fuel);
                        lemma_evolves_trans(h, h1, hm);
                        assert(sup_of(hm, id) == sup_of(h, id));
                        lemma_failed_assertions_retryable(hm, sp, t, fuel);
                        let n = choose|n: int|
                            chain_of(hm, sp).contains(n) && 0 <= n < h2.len() && !(#[trigger] h2[n].ran).contains(
                                t,
                            );
                        lemma_chain_evolves(h, hm, sp);
                        assert(chain_of(hm, sp) == chain_of(h, sp));
                        assert(chain_of(h, id) == seq![id] + chain_of(h, sp));
                        let j = choose|j: int|
                            0 <= j < chain_of(h, sp).len() && chain_of(h, sp)[j] == n;
                        assert(chain_of(h, id)[j + 1] == n);
                        assert(chain_of(h, id).contains(n));
                    }
                    Option::None => {
                        assert(false);
                    }
                }
            }
        }
    }
}


// ---------------------------------------------------------------------------
// Sortedness of the field listing, and debug rendering.
// ---------------------------------------------------------------------------

/// Weak lexicographic sortedness of a name listing.
pub open spec fn names_sorted(s: Seq<Seq<u8>>) -> bool {
    forall|j: int, k: int| 0 <= j < k < s.len() ==> lex_lt(s[j], s[k]) || s[j] == s[k]
}

/// Every element of an insertion is the inserted name or an old one.
proof fn lemma_insert_name_elems(s: Seq<Seq<u8>>, x: Seq<u8>)
    ensures
        spec_insert_name(s, x).len() == s.len() + 1,
        forall|m: int|
            0 <= m < spec_insert_name(s, x).len() ==> #[trigger] spec_insert_name(s, x)[m] == x
                || s.contains(spec_insert_name(s, x)[m]),
    decreases s.len(),
{
    if s.len() == 0 {
    } else if lex_lt(x, s[0]) {
        assert forall|m: int|
            0 <= m < spec_insert_name(s, x).len() implies #[trigger] spec_insert_name(s, x)[m] == x
            || s.contains(spec_insert_name(s, x)[m]) by {
            if m > 0 {
                assert(spec_insert_name(s, x)[m] == s[m - 1]);
            }
        }
    } else {
        lemma_insert_name_elems(s.skip(1), x);
        let r = spec_insert_name(s, x);
        assert forall|m: int|
            0 <= m < r.len() implies #[trigger] r[m] == x || s.contains(r[m]) by {
            if m > 0 {
                assert(r[m] == spec_insert_name(s.skip(1), x)[m - 1]);
                if r[m] != x {
                    let j = choose|j: int| 0 <= j < s.skip(1).len() && s.skip(1)[j] == r[m];
                    assert(s[j + 1] == r[m]);
                }
            }
        }
    }
}

/// Inserting a name keeps the listing sorted.
proof fn lemma_insert_name_sorted(s: Seq<Seq<u8>>, x: Seq<u8>)
    requires
        names_sorted(s),
    ensures
        names_sorted(spec_insert_name(s, x)),
    decreases s.len(),
{
    if s.len() == 0 {
    } else if lex_lt(x, s[0]) {
        let r = seq![x] + s;
        assert forall|j: int, k: int|
            0 <= j < k < r.len() implies lex_lt(r[j], r[k]) || r[j] == r[k] by {
            if j == 0 {
                assert(r[k] == s[k - 1]);
                if k > 1 {
                    if lex_lt(s[0], s[k - 1]) {
                        lemma_lex_trans(x, s[0], s[k - 1]);
                    }
                }
            } else {
                assert(r[j] == s[j - 1]);
                assert(r[k] == s[k - 1]);
            }
        }
    } else {
        assert(names_sorted(s.skip(1)));
        lemma_insert_name_sorted(s.skip(1), x);
        lemma_insert_name_elems(s.skip(1), x);
        let tail = spec_insert_name(s.skip(1), x);
        let r = seq![s[0]] + tail;
        lemma_lex_total(x, s[0]);
        assert forall|j: int, k: int|
            0 <= j < k < r.len() implies lex_lt(r[j], r[k]) || r[j] == r[k] by {
            if j == 0 {
                assert(r[k] == tail[k - 1]);
                if tail[k - 1] == x {
                } else {
                    let m = choose|m: int| 0 <= m < s.skip(1).len() && s.skip(1)[m] == tail[k - 1];
                    assert(s[m + 1] == tail[k - 1]);
                }
            } else {
                assert(r[j] == tail[j - 1]);
                assert(r[k] == tail[k - 1]);
            }
        }
    }
}

/// What `fields` hands out is lexicographically sorted.
pub proof fn lemma_fields_sorted(h: Seq<MNode>, id: int, include_hidden: bool)
    ensures
        names_sorted(spec_fields_ex(h, id, include_hidden)),
{
    let v = spec_fields_visibility(h, id);
    lemma_sorted_names_sorted(v, include_hidden, v.len() as int);
}

proof fn lemma_sorted_names_sorted(v: Seq<(Seq<u8>, bool)>, include_hidden: bool, n: int)
    ensures
        names_sorted(spec_sorted_names(v, include_hidden, n)),
    decreases n,
{
    if n <= 0 {
    } else {
        lemma_sorted_names_sorted(v, include_hidden, n - 1);
        if include_hidden || v[n - 1].1 {
            lemma_insert_name_sorted(spec_sorted_names(v, include_hidden, n - 1), v[n - 1].0);
        }
    }
}

/// The debug text of one node's own member names, in store order.
pub open spec fn spec_node_text(entries: Seq<(Seq<u8>, MMember)>, n: int) -> Seq<u8>
    decreases n,
{
    if n <= 0 {
        Seq::empty()
    } else {
        spec_node_text(entries, n - 1) + seq![32u8] + entries[n - 1].0
    }
}

/// The debug text of a chain: ancestors first, joined by ` + `, each node
/// shown as its own member names between braces.
pub open spec fn spec_debug_text(h: Seq<MNode>, id: int) -> Seq<u8>
    decreases id,
{
    if !(0 <= id < h.len()) {
        Seq::empty()
    } else {
        let own = seq![123u8] + spec_node_text(h[id].entries, h[id].entries.len() as int) + seq![
            32u8,
            125u8,
        ];
        match sup_of(h, id) {
            Option::Some(sp) => spec_debug_text(h, sp) + seq![32u8, 43u8, 32u8] + own,
            Option::None => own,
        }
    }
}

impl ObjValue {
    /// Render the chain for diagnostics: ancestors first, joined by ` + `,
    /// each node showing its own member names.  No field is forced and no
    /// cache is touched.
    pub fn debug_render(&self, heap: &ObjArena) -> (r: Vec<u8>)
        requires
            heap.wf(),
            (self.id as int) < heap.model().len(),
        ensures
            r@ == spec_debug_text(heap.model(), self.id as int),
        decreases self.id,
    {
        proof {
            assert(node_model_wf(heap.model(), self.id as int));
        }
        let sup_h = heap.nodes[self.id].super_obj;
        proof {
            match sup_h {
                Option::Some(sh) => {
                    assert(sup_of(heap.model(), self.id as int) == Option::Some(sh.id as int));
                }
                Option::None => {
                    assert(sup_of(heap.model(), self.id as int) is None);
                }
            }
        }
        let mut out: Vec<u8> = match sup_h {
            Option::Some(sh) => {
                let mut o = sh.debug_render(heap);
                o.push(32u8);
                o.push(43u8);
                o.push(32u8);
                o
            }
            Option::None => Vec::new(),
        };
        let ghost prefix = out@;
        out.push(123u8);
        let ghost em = heap.model()[self.id as int].entries;
        let eidx = heap.nodes[self.id].this_entries;
        proof {
            assert(em == entries_model(heap.entry_sets@[eidx as int]@));
            assert(out@ =~= prefix + seq![123u8]);
            assert(spec_node_text(em, 0) =~= Seq::<u8>::empty());
            assert(out@ =~= prefix + seq![123u8] + spec_node_text(em, 0));
        }
        let n = heap.entry_sets[eidx].len();
        let mut i: usize = 0;
        while i < n
            invariant
                heap.wf(),
                (self.id as int) < heap.model().len(),
                eidx == heap.nodes@[self.id as int].this_entries,
                i <= n,
                n == heap.entry_sets@[eidx as int]@.len(),
                em == entries_model(heap.entry_sets@[eidx as int]@),
                out@ == prefix + seq![123u8] + spec_node_text(em, i as int),
            decreases n - i,
        {
            proof {
                assert(em[i as int] == (
                    heap.entry_sets@[eidx as int]@[i as int].0@,
                    member_model(heap.entry_sets@[eidx as int]@[i as int].1),
                ));
            }
            out.push(32u8);
            let name = &heap.entry_sets[eidx][i].0;
            let bytes = name.as_bytes();
            let m = bytes.len();
            let mut j: usize = 0;
            while j < m
                invariant
                    i < n,
                    j <= m,
                    m == bytes@.len(),
                    bytes@ == em[i as int].0,
                    out@ == prefix + seq![123u8] + spec_node_text(em, i as int) + seq![32u8]
                        + bytes@.take(j as int),
                decreases m - j,
            {
                out.push(bytes[j]);
                j = j + 1;
                proof {
                    assert(out@ =~= prefix + seq![123u8] + spec_node_text(em, i as int) + seq![
                        32u8,
                    ] + bytes@.take(j as int));
                }
            }
            i = i + 1;
            proof {
                assert(bytes@.take(m as int) =~= bytes@);
                assert(spec_node_text(em, i as int) =~= spec_node_text(em, i as int - 1) + seq![
                    32u8,
                ] + em[i as int - 1].0);
                assert(out@ =~= prefix + seq![123u8] + spec_node_text(em, i as int));
            }
        }
        out.push(32u8);
        out.push(125u8);
        proof {
            assert(out@ =~= prefix + (seq![123u8] + spec_node_text(em, n as int) + seq![
                32u8,
                125u8,
            ]));
            if sup_h is None {
                assert(prefix =~= Seq::<u8>::empty());
                assert(out@ =~= seq![123u8] + spec_node_text(em, n as int) + seq![32u8, 125u8]);
            }
        }
        out
    }
}


} // verus!

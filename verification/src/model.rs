//! The mathematical model of the sequence engine: ghost images of elements,
//! buffered operations and whole-engine state, and the spec-level transition
//! functions that the engine's contracts are stated over.

use vstd::prelude::*;

use crate::rga::{Node, Operation, OperationType};
use crate::s4vector::{s4_lt, S4Vector};

verus! {

/// Ghost image of one element: its payload characters, tombstone flag and
/// neighbor links. The identifier is the key under which it sits in the
/// table, so it is not repeated here.
#[verifier::ext_equal]
pub ghost struct ModelNode {
    pub value: Seq<char>,
    pub tombstone: bool,
    pub left: Option<S4Vector>,
    pub right: Option<S4Vector>,
}

/// Ghost image of one pending operation in the buffer.
#[verifier::ext_equal]
pub ghost struct OpView {
    pub kind: OperationType,
    pub s4vector: S4Vector,
    pub value: Option<Seq<char>>,
    pub left: Option<S4Vector>,
    pub right: Option<S4Vector>,
}

/// Ghost image of a whole engine: the head link, the identifier-to-element
/// table, the pending-operation buffer, and the replica-scoped identity and
/// counter.
#[verifier::ext_equal]
pub ghost struct RgaView {
    pub head: Option<S4Vector>,
    pub table: Map<S4Vector, ModelNode>,
    pub buffer: Seq<OpView>,
    pub session: u64,
    pub site: u64,
    pub seq: u64,
}

/// The ghost image of an element.
pub open spec fn model_of(n: Node) -> ModelNode {
    ModelNode { value: n.value@, tombstone: n.tombstone, left: n.left, right: n.right }
}

/// The ghost image of a pending operation.
pub(crate) open spec fn op_view(op: Operation) -> OpView {
    OpView {
        kind: op.operation,
        s4vector: op.s4vector,
        value: match op.value {
            Some(v) => Some(v@),
            None => None,
        },
        left: op.left,
        right: op.right,
    }
}

/// The ghost image of the whole pending-operation buffer.
pub(crate) open spec fn ops_view(s: Seq<Operation>) -> Seq<OpView> {
    s.map_values(|op: Operation| op_view(op))
}

/// No two elements of the arena carry the same identifier.
pub open spec fn unique_ids(s: Seq<Node>) -> bool {
    forall|i: int, j: int|
        0 <= i < j < s.len() ==> (#[trigger] s[i]).s4vector != (#[trigger] s[j]).s4vector
}

/// The identifier-to-element table that an arena denotes.
pub open spec fn map_of(s: Seq<Node>) -> Map<S4Vector, ModelNode>
    decreases s.len(),
{
    if s.len() == 0 {
        Map::empty()
    } else {
        map_of(s.drop_last()).insert(s.last().s4vector, model_of(s.last()))
    }
}

/// A key is in the table exactly when some arena slot carries it.
pub proof fn lemma_map_of_contains(s: Seq<Node>, k: S4Vector)
    ensures
        map_of(s).contains_key(k) <==> exists|i: int|
            0 <= i < s.len() && (#[trigger] s[i]).s4vector == k,
    decreases s.len(),
{
    if s.len() > 0 {
        lemma_map_of_contains(s.drop_last(), k);
        if s.last().s4vector == k {
            assert(s[s.len() - 1].s4vector == k);
        } else if map_of(s).contains_key(k) {
            let i = choose|i: int| 0 <= i < s.drop_last().len() && (#[trigger] s.drop_last()[i]).s4vector == k;
            assert(s[i].s4vector == k);
        } else {
            assert forall|i: int| 0 <= i < s.len() && (#[trigger] s[i]).s4vector == k implies false by {
                if i < s.len() - 1 {
                    assert(s.drop_last()[i].s4vector == k);
                }
            }
        }
    }
}

/// The table is finite.
pub proof fn lemma_map_of_finite(s: Seq<Node>)
    ensures
        map_of(s).dom().finite(),
    decreases s.len(),
{
    if s.len() > 0 {
        lemma_map_of_finite(s.drop_last());
    }
}

/// Under unique identifiers, each arena slot is the table entry of its key.
pub proof fn lemma_map_of_get(s: Seq<Node>, i: int)
    requires
        unique_ids(s),
        0 <= i < s.len(),
    ensures
        map_of(s).contains_key(s[i].s4vector),
        map_of(s)[s[i].s4vector] == model_of(s[i]),
    decreases s.len(),
{
    if i == s.len() - 1 {
        lemma_map_of_contains(s, s[i].s4vector);
    } else {
        assert(unique_ids(s.drop_last()));
        lemma_map_of_get(s.drop_last(), i);
        assert(s.drop_last()[i] == s[i]);
        assert(s.last().s4vector != s[i].s4vector);
    }
}

/// Under unique identifiers, the table has exactly one entry per slot.
pub proof fn lemma_map_of_len(s: Seq<Node>)
    requires
        unique_ids(s),
    ensures
        map_of(s).dom().finite(),
        map_of(s).dom().len() == s.len(),
    decreases s.len(),
{
    lemma_map_of_finite(s);
    if s.len() > 0 {
        assert(unique_ids(s.drop_last()));
        lemma_map_of_len(s.drop_last());
        lemma_map_of_contains(s.drop_last(), s.last().s4vector);
        assert(!map_of(s.drop_last()).contains_key(s.last().s4vector)) by {
            if map_of(s.drop_last()).contains_key(s.last().s4vector) {
                let i = choose|i: int|
                    0 <= i < s.drop_last().len() && (#[trigger] s.drop_last()[i]).s4vector
                        == s.last().s4vector;
                assert(s[i].s4vector == s[s.len() - 1].s4vector);
            }
        }
        vstd::set::axiom_set_insert_len(map_of(s.drop_last()).dom(), s.last().s4vector);
        assert(map_of(s).dom() =~= map_of(s.drop_last()).dom().insert(s.last().s4vector));
    }
}

/// Replacing one slot with an element of the same identifier updates exactly
/// that table entry.
pub proof fn lemma_map_of_update(s: Seq<Node>, i: int, n: Node)
    requires
        unique_ids(s),
        0 <= i < s.len(),
        n.s4vector == s[i].s4vector,
    ensures
        unique_ids(s.update(i, n)),
        map_of(s.update(i, n)) =~= map_of(s).insert(n.s4vector, model_of(n)),
    decreases s.len(),
{
    let s2 = s.update(i, n);
    assert(unique_ids(s2)) by {
        assert forall|p: int, q: int| 0 <= p < q < s2.len() implies (#[trigger] s2[p]).s4vector != (
        #[trigger] s2[q]).s4vector by {
            assert(s2[p].s4vector == s[p].s4vector);
            assert(s2[q].s4vector == s[q].s4vector);
        }
    }
    if i == s.len() - 1 {
        assert(s2.drop_last() =~= s.drop_last());
        assert(s2.last() == n);
    } else {
        assert(unique_ids(s.drop_last()));
        assert(s2.drop_last() =~= s.drop_last().update(i, n));
        lemma_map_of_update(s.drop_last(), i, n);
        assert(s2.last() == s.last());
        assert(s.last().s4vector != n.s4vector);
    }
}

/// Appending a slot with a fresh identifier adds exactly one table entry.
pub proof fn lemma_map_of_push(s: Seq<Node>, n: Node)
    requires
        unique_ids(s),
        !map_of(s).contains_key(n.s4vector),
    ensures
        unique_ids(s.push(n)),
        map_of(s.push(n)) == map_of(s).insert(n.s4vector, model_of(n)),
{
    lemma_map_of_contains(s, n.s4vector);
    assert(s.push(n).drop_last() =~= s);
    assert(s.push(n).last() == n);
    assert(unique_ids(s.push(n))) by {
        assert forall|p: int, q: int| 0 <= p < q < s.push(n).len() implies (#[trigger] s.push(
            n,
        )[p]).s4vector != (#[trigger] s.push(n)[q]).s4vector by {
            if q < s.len() {
                assert(s.push(n)[p] == s[p]);
                assert(s.push(n)[q] == s[q]);
            } else {
                assert(s.push(n)[q] == n);
                assert(s.push(n)[p] == s[p]);
                assert(s[p].s4vector != n.s4vector);
            }
        }
    }
}

/// All neighbor links of all elements point back into the table.
pub open spec fn links_closed(t: Map<S4Vector, ModelNode>) -> bool {
    forall|k: S4Vector| #[trigger]
        t.contains_key(k) ==> {
            &&& (t[k].right matches Some(r) ==> t.contains_key(r))
            &&& (t[k].left matches Some(l) ==> t.contains_key(l))
        }
}

/// The dependency of a pending operation: the element that must be present
/// before the operation can be applied. For an insert that is the left
/// anchor when one was given, else the right anchor; for an update or a
/// delete it is the target itself.
pub open spec fn op_dep(op: OpView) -> Option<S4Vector> {
    match op.kind {
        OperationType::Insert => if op.left is Some {
            op.left
        } else {
            op.right
        },
        OperationType::Update => Some(op.s4vector),
        OperationType::Delete => Some(op.s4vector),
    }
}

/// Every buffered operation names a dependency, and buffered inserts carry a
/// payload.
pub open spec fn buffer_wf(b: Seq<OpView>) -> bool {
    forall|i: int|
        0 <= i < b.len() ==> {
            &&& op_dep(#[trigger] b[i]) is Some
            &&& (b[i].kind is Insert ==> b[i].value is Some)
        }
}

/// No buffered operation has its dependency satisfied: the buffer has been
/// swept to a fixpoint.
pub open spec fn quiescent(v: RgaView) -> bool {
    forall|i: int|
        0 <= i < v.buffer.len() ==> (op_dep(#[trigger] v.buffer[i]) matches Some(d)
            ==> !v.table.contains_key(d))
}

/// Structural well-formedness of an engine state.
pub open spec fn view_wf(v: RgaView) -> bool {
    &&& links_closed(v.table)
    &&& (v.head matches Some(h) ==> v.table.contains_key(h))
    &&& (v.head is None ==> v.table =~= Map::<S4Vector, ModelNode>::empty())
    &&& v.table.dom().finite()
    &&& buffer_wf(v.buffer)
}

/// Where the placement walk for a new element stops: starting at an anchor,
/// it skips rightward past every existing neighbor whose identifier comes
/// after the new one in the identifier order, so that concurrent siblings
/// end up ordered by identifier, not by arrival. The fuel bounds the walk
/// defensively; one unit per step over the table's size is always enough on
/// an acyclic chain.
pub open spec fn walk_stop(
    t: Map<S4Vector, ModelNode>,
    cur: S4Vector,
    id: S4Vector,
    fuel: nat,
) -> S4Vector
    decreases fuel,
{
    if !t.contains_key(cur) {
        cur
    } else {
        match t[cur].right {
            None => cur,
            Some(next) => if s4_lt(id, next) && fuel > 0 {
                walk_stop(t, next, id, (fuel - 1) as nat)
            } else {
                cur
            },
        }
    }
}

/// On a table with closed links, the walk never leaves the table.
pub proof fn lemma_walk_stop_in_table(
    t: Map<S4Vector, ModelNode>,
    cur: S4Vector,
    id: S4Vector,
    fuel: nat,
)
    requires
        links_closed(t),
        t.contains_key(cur),
    ensures
        t.contains_key(walk_stop(t, cur, id, fuel)),
    decreases fuel,
{
    match t[cur].right {
        None => {},
        Some(next) => {
            if s4_lt(id, next) && fuel > 0 {
                lemma_walk_stop_in_table(t, next, id, (fuel - 1) as nat);
            }
        },
    }
}

/// The state after splicing a new element into the chain: walk from the
/// left anchor to the stopping point, link the new element after it (and
/// before its old right neighbor, whose back link is repaired), or replace
/// the head when no left anchor was given.
pub open spec fn splice_view(
    v: RgaView,
    id: S4Vector,
    value: Seq<char>,
    left: Option<S4Vector>,
    right: Option<S4Vector>,
) -> RgaView {
    match left {
        Some(l) => {
            let w = walk_stop(v.table, l, id, v.table.dom().len());
            let head2 = if v.head is None {
                Some(id)
            } else {
                v.head
            };
            if v.table.contains_key(w) {
                let wn = v.table[w];
                let node = ModelNode { value, tombstone: false, left: Some(w), right: wn.right };
                let t1 = v.table.insert(
                    w,
                    ModelNode {
                        value: wn.value,
                        tombstone: wn.tombstone,
                        left: wn.left,
                        right: Some(id),
                    },
                );
                let t2 = match wn.right {
                    Some(nx) => if t1.contains_key(nx) {
                        t1.insert(
                            nx,
                            ModelNode {
                                value: t1[nx].value,
                                tombstone: t1[nx].tombstone,
                                left: Some(id),
                                right: t1[nx].right,
                            },
                        )
                    } else {
                        t1
                    },
                    None => t1,
                };
                RgaView {
                    head: head2,
                    table: t2.insert(id, node),
                    buffer: v.buffer,
                    session: v.session,
                    site: v.site,
                    seq: v.seq,
                }
            } else {
                let node = ModelNode { value, tombstone: false, left, right };
                RgaView {
                    head: head2,
                    table: v.table.insert(id, node),
                    buffer: v.buffer,
                    session: v.session,
                    site: v.site,
                    seq: v.seq,
                }
            }
        },
        None => {
            let node = ModelNode { value, tombstone: false, left: None, right };
            let t1 = v.table.insert(id, node);
            let t2 = match right {
                Some(r) => if t1.contains_key(r) {
                    t1.insert(
                        r,
                        ModelNode {
                            value: t1[r].value,
                            tombstone: t1[r].tombstone,
                            left: Some(id),
                            right: t1[r].right,
                        },
                    )
                } else {
                    t1
                },
                None => t1,
            };
            RgaView {
                head: Some(id),
                table: t2,
                buffer: v.buffer,
                session: v.session,
                site: v.site,
                seq: v.seq,
            }
        },
    }
}

/// The dependency an insert must wait for: the left anchor when one was
/// given, else the right anchor.
pub open spec fn insert_dep(left: Option<S4Vector>, right: Option<S4Vector>) -> Option<S4Vector> {
    if left is Some {
        left
    } else {
        right
    }
}

/// Applying an insert: a no-op when the identifier is already known
/// (idempotent remote delivery), else a splice.
pub open spec fn insert_step(
    v: RgaView,
    id: S4Vector,
    value: Seq<char>,
    left: Option<S4Vector>,
    right: Option<S4Vector>,
) -> RgaView {
    if v.table.contains_key(id) {
        v
    } else {
        splice_view(v, id, value, left, right)
    }
}

/// Applying a delete: tombstones the target when present, else does
/// nothing. Tombstoning is monotone — it never reverts, and deleting an
/// already tombstoned element changes nothing.
pub open spec fn delete_step(v: RgaView, id: S4Vector) -> RgaView {
    if v.table.contains_key(id) {
        let n = v.table[id];
        RgaView {
            head: v.head,
            table: v.table.insert(
                id,
                ModelNode { value: n.value, tombstone: true, left: n.left, right: n.right },
            ),
            buffer: v.buffer,
            session: v.session,
            site: v.site,
            seq: v.seq,
        }
    } else {
        v
    }
}

/// Applying an update: replaces the payload when the target is present and
/// not tombstoned; a tombstoned element's payload is frozen.
pub open spec fn update_step(v: RgaView, id: S4Vector, value: Seq<char>) -> RgaView {
    if v.table.contains_key(id) && !v.table[id].tombstone {
        let n = v.table[id];
        RgaView {
            head: v.head,
            table: v.table.insert(
                id,
                ModelNode { value, tombstone: n.tombstone, left: n.left, right: n.right },
            ),
            buffer: v.buffer,
            session: v.session,
            site: v.site,
            seq: v.seq,
        }
    } else {
        v
    }
}

/// What remains true of a buffered operation once the sweep has applied it.
pub open spec fn applied_mark(op: OpView, v: RgaView) -> bool {
    match op.kind {
        OperationType::Insert => op.value is Some ==> v.table.contains_key(op.s4vector),
        OperationType::Delete => v.table.contains_key(op.s4vector) && v.table[op.s4vector].tombstone,
        OperationType::Update => v.table.contains_key(op.s4vector),
    }
}

/// The table only ever grows, and tombstones never revert.
pub open spec fn table_extends(
    pre: Map<S4Vector, ModelNode>,
    post: Map<S4Vector, ModelNode>,
) -> bool {
    forall|k: S4Vector| #[trigger]
        pre.contains_key(k) ==> post.contains_key(k) && (pre[k].tombstone ==> post[k].tombstone)
}

/// What the buffer sweep guarantees, relating the state just before the
/// sweep to the state at its fixpoint:
/// - the replica identity and counter are untouched;
/// - the table only grows and tombstones are kept;
/// - afterwards no remaining buffered operation has its dependency met;
/// - every remaining buffered operation was already buffered before;
/// - every operation buffered before either remains buffered or has left
///   its mark on the table;
/// - every table entry stems from the table before or from a buffered
///   insert;
/// - a sweep of an already quiescent state changes nothing.
pub open spec fn sweep_post(pre: RgaView, post: RgaView) -> bool {
    &&& post.session == pre.session
    &&& post.site == pre.site
    &&& post.seq == pre.seq
    &&& post.head is Some ==> pre.head is Some || pre.buffer.len() > 0
    &&& table_extends(pre.table, post.table)
    &&& quiescent(post)
    &&& forall|i: int| 0 <= i < post.buffer.len() ==> pre.buffer.contains(#[trigger] post.buffer[i])
    &&& forall|i: int|
        0 <= i < pre.buffer.len() ==> post.buffer.contains(#[trigger] pre.buffer[i])
            || applied_mark(pre.buffer[i], post)
    &&& forall|k: S4Vector| #[trigger]
        post.table.contains_key(k) ==> pre.table.contains_key(k) || exists|i: int|
            0 <= i < pre.buffer.len() && (#[trigger] pre.buffer[i]).kind is Insert
                && pre.buffer[i].s4vector == k
    &&& forall|q: S4Vector| #[trigger]
        pre.table.contains_key(q) ==> post.table[q].tombstone == pre.table[q].tombstone
            || exists|i: int|
            0 <= i < pre.buffer.len() && (#[trigger] pre.buffer[i]).kind is Delete
                && pre.buffer[i].s4vector == q
    &&& forall|q: S4Vector| #[trigger]
        pre.table.contains_key(q) ==> post.table[q].value == pre.table[q].value || exists|i: int|
            0 <= i < pre.buffer.len() && (#[trigger] pre.buffer[i]).kind is Update
                && pre.buffer[i].s4vector == q
    &&& (quiescent(pre) ==> post == pre)
}

/// A mark left by an applied operation survives any later growth of the
/// table.
pub proof fn lemma_mark_monotone(op: OpView, a: RgaView, b: RgaView)
    requires
        table_extends(a.table, b.table),
        applied_mark(op, a),
    ensures
        applied_mark(op, b),
{
}

/// `table_extends` is transitive.
pub proof fn lemma_extends_transitive(
    a: Map<S4Vector, ModelNode>,
    b: Map<S4Vector, ModelNode>,
    c: Map<S4Vector, ModelNode>,
)
    requires
        table_extends(a, b),
        table_extends(b, c),
    ensures
        table_extends(a, c),
{
}

/// Every single-operation step extends the table: keys are never removed
/// and tombstones never revert.
pub proof fn lemma_insert_step_extends(
    v: RgaView,
    id: S4Vector,
    value: Seq<char>,
    left: Option<S4Vector>,
    right: Option<S4Vector>,
)
    ensures
        table_extends(v.table, insert_step(v, id, value, left, right).table),
        insert_step(v, id, value, left, right).table.contains_key(id),
        insert_step(v, id, value, left, right).buffer == v.buffer,
        insert_step(v, id, value, left, right).session == v.session,
        insert_step(v, id, value, left, right).site == v.site,
        insert_step(v, id, value, left, right).seq == v.seq,
        forall|k: S4Vector| #[trigger]
            insert_step(v, id, value, left, right).table.contains_key(k) ==> v.table.contains_key(
                k,
            ) || k == id,
        forall|k: S4Vector| #[trigger]
            v.table.contains_key(k) ==> insert_step(v, id, value, left, right).table[k].value
                == v.table[k].value && insert_step(v, id, value, left, right).table[k].tombstone
                == v.table[k].tombstone,
{
    assert forall|k: S4Vector| #[trigger]
        v.table.contains_key(k) implies insert_step(v, id, value, left, right).table[k].value
        == v.table[k].value && insert_step(v, id, value, left, right).table[k].tombstone
        == v.table[k].tombstone by {
        if !v.table.contains_key(id) {
            assert(k != id);
        }
    }
}

/// A delete step extends the table, leaves the target tombstoned when it
/// was present, and adds no key.
pub proof fn lemma_delete_step_extends(v: RgaView, id: S4Vector)
    ensures
        table_extends(v.table, delete_step(v, id).table),
        delete_step(v, id).table.dom() =~= v.table.dom(),
        delete_step(v, id).buffer == v.buffer,
        delete_step(v, id).head == v.head,
        delete_step(v, id).session == v.session,
        delete_step(v, id).site == v.site,
        delete_step(v, id).seq == v.seq,
        v.table.contains_key(id) ==> delete_step(v, id).table[id].tombstone,
        forall|k: S4Vector| #[trigger]
            v.table.contains_key(k) ==> delete_step(v, id).table[k].value == v.table[k].value,
        forall|k: S4Vector| #[trigger]
            v.table.contains_key(k) && k != id ==> delete_step(v, id).table[k] == v.table[k],
{
}

/// An update step extends the table and adds no key.
pub proof fn lemma_update_step_extends(v: RgaView, id: S4Vector, value: Seq<char>)
    ensures
        table_extends(v.table, update_step(v, id, value).table),
        update_step(v, id, value).table.dom() =~= v.table.dom(),
        update_step(v, id, value).buffer == v.buffer,
        update_step(v, id, value).head == v.head,
        update_step(v, id, value).session == v.session,
        update_step(v, id, value).site == v.site,
        update_step(v, id, value).seq == v.seq,
        forall|k: S4Vector| #[trigger]
            v.table.contains_key(k) ==> update_step(v, id, value).table[k].tombstone
                == v.table[k].tombstone,
        forall|k: S4Vector| #[trigger]
            v.table.contains_key(k) && k != id ==> update_step(v, id, value).table[k]
                == v.table[k],
{
}

/// Whether a pending operation's dependency is present, so that the sweep
/// may apply it.
pub open spec fn op_ready(v: RgaView, op: OpView) -> bool {
    match op_dep(op) {
        Some(d) => v.table.contains_key(d),
        None => true,
    }
}

/// Applying one pending operation through its matching step. An insert or
/// update that carries no payload is dropped without effect.
pub open spec fn apply_op(v: RgaView, op: OpView) -> RgaView {
    match op.kind {
        OperationType::Insert => match op.value {
            Some(val) => insert_step(v, op.s4vector, val, op.left, op.right),
            None => v,
        },
        OperationType::Update => match op.value {
            Some(val) => update_step(v, op.s4vector, val),
            None => v,
        },
        OperationType::Delete => delete_step(v, op.s4vector),
    }
}

/// The same state with an emptied buffer.
pub open spec fn cleared(v: RgaView) -> RgaView {
    RgaView {
        head: v.head,
        table: v.table,
        buffer: Seq::empty(),
        session: v.session,
        site: v.site,
        seq: v.seq,
    }
}

/// One in-order retain-pass of the sweep: examines `pending` front to
/// back, applies every operation whose dependency is present at that
/// moment, and appends the rest — in their original relative order — to
/// the state's buffer.
pub open spec fn sweep_pass_view(v: RgaView, pending: Seq<OpView>) -> RgaView
    decreases pending.len(),
{
    if pending.len() == 0 {
        v
    } else {
        let op = pending[0];
        let rest = pending.skip(1);
        if op_ready(v, op) {
            sweep_pass_view(apply_op(v, op), rest)
        } else {
            sweep_pass_view(
                RgaView {
                    head: v.head,
                    table: v.table,
                    buffer: v.buffer.push(op),
                    session: v.session,
                    site: v.site,
                    seq: v.seq,
                },
                rest,
            )
        }
    }
}

/// A pass keeps at most what it was given.
pub proof fn lemma_sweep_pass_len(v: RgaView, pending: Seq<OpView>)
    ensures
        sweep_pass_view(v, pending).buffer.len() <= v.buffer.len() + pending.len(),
    decreases pending.len(),
{
    if pending.len() > 0 {
        let op = pending[0];
        if op_ready(v, op) {
            assert(apply_op(v, op).buffer == v.buffer);
            lemma_sweep_pass_len(apply_op(v, op), pending.skip(1));
        } else {
            lemma_sweep_pass_len(
                RgaView {
                    head: v.head,
                    table: v.table,
                    buffer: v.buffer.push(op),
                    session: v.session,
                    site: v.site,
                    seq: v.seq,
                },
                pending.skip(1),
            );
        }
    }
}

/// The buffer sweep, exactly: in-order retain-passes over the buffer,
/// repeated until a pass resolves nothing — the fixpoint at which no
/// remaining entry has its dependency met. Applying one entry can make a
/// later or earlier entry eligible, so chains of causally dependent
/// entries unblock transitively.
pub open spec fn sweep_view(v: RgaView) -> RgaView
    decreases v.buffer.len(),
    via sweep_view_decreases
{
    let after = sweep_pass_view(cleared(v), v.buffer);
    if after.buffer.len() == v.buffer.len() {
        after
    } else {
        sweep_view(after)
    }
}

#[via_fn]
proof fn sweep_view_decreases(v: RgaView) {
    lemma_sweep_pass_len(cleared(v), v.buffer);
}

/// The values a read of the engine returns: walk the chain from the head,
/// collecting the payload of every element that is not tombstoned. The walk
/// stops at a missing link (a broken chain, defensively) and is bounded by
/// one step per table entry.
pub open spec fn walk_read(
    t: Map<S4Vector, ModelNode>,
    cur: Option<S4Vector>,
    fuel: nat,
) -> Seq<Seq<char>>
    decreases fuel,
{
    match cur {
        None => Seq::empty(),
        Some(c) => {
            if !t.contains_key(c) || fuel == 0 {
                Seq::empty()
            } else {
                let rest = walk_read(t, t[c].right, (fuel - 1) as nat);
                if t[c].tombstone {
                    rest
                } else {
                    seq![t[c].value] + rest
                }
            }
        },
    }
}

/// The sequence of payloads a read of the given state returns.
pub open spec fn read_view(v: RgaView) -> Seq<Seq<char>> {
    walk_read(v.table, v.head, v.table.dom().len())
}

/// Law (tombstone idempotence): deleting an already tombstoned element
/// changes nothing — the state, and with it the visible sequence, stays
/// exactly as it was.
pub proof fn lemma_delete_tombstoned_is_noop(v: RgaView, id: S4Vector)
    requires
        v.table.contains_key(id),
        v.table[id].tombstone,
    ensures
        delete_step(v, id) == v,
        read_view(delete_step(v, id)) == read_view(v),
{
    let n = v.table[id];
    assert(ModelNode { value: n.value, tombstone: true, left: n.left, right: n.right } == n);
    assert(v.table.insert(id, n) =~= v.table);
    assert(delete_step(v, id) =~= v);
}

/// Law (update after delete is a no-op): updating a tombstoned element's
/// payload changes nothing — the payload is frozen, and the visible
/// sequence stays exactly as it was.
pub proof fn lemma_update_tombstoned_is_noop(v: RgaView, id: S4Vector, value: Seq<char>)
    requires
        v.table.contains_key(id),
        v.table[id].tombstone,
    ensures
        update_step(v, id, value) == v,
        read_view(update_step(v, id, value)) == read_view(v),
{
}

/// The chain of elements that follows an anchor: `run[0]` is the anchor's
/// right neighbor, each element's right link leads to the next, and the
/// last element ends the chain. The elements are pairwise distinct and do
/// not include the anchor, so the chain is finite and acyclic. Only right
/// links are constrained: the chain is what a walk or a read traverses.
pub open spec fn is_chain(t: Map<S4Vector, ModelNode>, a: S4Vector, run: Seq<S4Vector>) -> bool {
    &&& t.contains_key(a)
    &&& (forall|i: int| 0 <= i < run.len() ==> t.contains_key(#[trigger] run[i]))
    &&& t[a].right == (if run.len() == 0 {
        None::<S4Vector>
    } else {
        Some(run[0])
    })
    &&& (forall|i: int|
        0 <= i < run.len() ==> (#[trigger] t[run[i]]).right == (if i == run.len() - 1 {
            None::<S4Vector>
        } else {
            Some(run[i + 1])
        }))
    &&& (forall|i: int, j: int|
        0 <= i < j < run.len() ==> (#[trigger] run[i]) != (#[trigger] run[j]))
    &&& (forall|i: int| 0 <= i < run.len() ==> (#[trigger] run[i]) != a)
}

/// Where among a chain a new identifier lands: the number of leading chain
/// elements whose identifiers come after it in the identifier order.
pub open spec fn chain_pos(run: Seq<S4Vector>, x: S4Vector) -> int
    decreases run.len(),
{
    if run.len() == 0 {
        0
    } else if s4_lt(x, run[0]) {
        1 + chain_pos(run.skip(1), x)
    } else {
        0
    }
}

/// The predecessor of an element inserted at chain position `j`.
pub open spec fn chain_pred(a: S4Vector, run: Seq<S4Vector>, j: int) -> S4Vector {
    if j == 0 {
        a
    } else {
        run[j - 1]
    }
}

/// The chain element that follows an element inserted at position `j`.
pub open spec fn chain_succ(run: Seq<S4Vector>, j: int) -> Option<S4Vector> {
    if j < run.len() {
        Some(run[j])
    } else {
        None
    }
}

/// `chain_pos` characterized without recursion: everything before it comes
/// after the new identifier, and the element at it (if any) does not.
pub proof fn lemma_chain_pos_bounds(run: Seq<S4Vector>, x: S4Vector)
    ensures
        0 <= chain_pos(run, x) <= run.len(),
        forall|i: int| 0 <= i < chain_pos(run, x) ==> s4_lt(x, #[trigger] run[i]),
        chain_pos(run, x) < run.len() ==> !s4_lt(x, run[chain_pos(run, x)]),
    decreases run.len(),
{
    broadcast use vstd::seq_lib::group_seq_properties;

    if run.len() > 0 && s4_lt(x, run[0]) {
        lemma_chain_pos_bounds(run.skip(1), x);
        assert forall|i: int| 0 <= i < chain_pos(run, x) implies s4_lt(x, #[trigger] run[i]) by {
            if i > 0 {
                assert(run.skip(1)[i - 1] == run[i]);
            }
        }
        if chain_pos(run, x) < run.len() {
            assert(run.skip(1)[chain_pos(run.skip(1), x)] == run[chain_pos(run, x)]);
        }
    }
}

/// The characterization determines the position.
pub proof fn lemma_chain_pos_unique(run: Seq<S4Vector>, x: S4Vector, j: int)
    requires
        0 <= j <= run.len(),
        forall|i: int| 0 <= i < j ==> s4_lt(x, #[trigger] run[i]),
        j < run.len() ==> !s4_lt(x, run[j]),
    ensures
        chain_pos(run, x) == j,
    decreases run.len(),
{
    broadcast use vstd::seq_lib::group_seq_properties;

    if run.len() > 0 && j > 0 {
        assert(s4_lt(x, run[0]));
        assert forall|i: int| 0 <= i < j - 1 implies s4_lt(x, #[trigger] run.skip(1)[i]) by {
            assert(run.skip(1)[i] == run[i + 1]);
        }
        if j - 1 < run.skip(1).len() {
            assert(run.skip(1)[j - 1] == run[j]);
        }
        lemma_chain_pos_unique(run.skip(1), x, j - 1);
    }
}

/// The sub-chain after the first chain element is again a chain.
proof fn lemma_chain_tail(t: Map<S4Vector, ModelNode>, a: S4Vector, run: Seq<S4Vector>)
    requires
        is_chain(t, a, run),
        run.len() > 0,
    ensures
        is_chain(t, run[0], run.skip(1)),
{
    broadcast use vstd::seq_lib::group_seq_properties;

    let rest = run.skip(1);
    assert forall|i: int| 0 <= i < rest.len() implies t.contains_key(#[trigger] rest[i]) by {
        assert(rest[i] == run[i + 1]);
    }
    assert forall|i: int| 0 <= i < rest.len() implies (#[trigger] t[rest[i]]).right == (if i
        == rest.len() - 1 {
        None::<S4Vector>
    } else {
        Some(rest[i + 1])
    }) by {
        assert(rest[i] == run[i + 1]);
        if i < rest.len() - 1 {
            assert(rest[i + 1] == run[i + 2]);
        }
    }
    assert forall|i: int, j: int| 0 <= i < j < rest.len() implies (#[trigger] rest[i]) != (
    #[trigger] rest[j]) by {
        assert(rest[i] == run[i + 1] && rest[j] == run[j + 1]);
    }
    assert forall|i: int| 0 <= i < rest.len() implies (#[trigger] rest[i]) != run[0] by {
        assert(rest[i] == run[i + 1]);
    }
}

/// On a chain, the placement walk stops exactly at the predecessor of the
/// new identifier's chain position, whatever the fuel, as long as the fuel
/// covers the chain.
pub proof fn lemma_walk_on_chain(
    t: Map<S4Vector, ModelNode>,
    a: S4Vector,
    run: Seq<S4Vector>,
    x: S4Vector,
    fuel: nat,
)
    requires
        is_chain(t, a, run),
        fuel >= run.len(),
    ensures
        walk_stop(t, a, x, fuel) == chain_pred(a, run, chain_pos(run, x)),
    decreases run.len(),
{
    broadcast use vstd::seq_lib::group_seq_properties;

    lemma_chain_pos_bounds(run, x);
    if run.len() > 0 && s4_lt(x, run[0]) {
        lemma_chain_tail(t, a, run);
        lemma_walk_on_chain(t, run[0], run.skip(1), x, (fuel - 1) as nat);
        lemma_chain_pos_bounds(run.skip(1), x);
        assert(walk_stop(t, a, x, fuel) == walk_stop(t, run[0], x, (fuel - 1) as nat));
        if chain_pos(run.skip(1), x) > 0 {
            assert(run.skip(1)[chain_pos(run.skip(1), x) - 1] == run[chain_pos(run, x) - 1]);
        }
    }
}

/// A chain fits in the table: one table entry per chain element.
proof fn lemma_chain_len_le_dom(t: Map<S4Vector, ModelNode>, a: S4Vector, run: Seq<S4Vector>)
    requires
        is_chain(t, a, run),
        t.dom().finite(),
    ensures
        run.len() <= t.dom().len(),
{
    assert(run.no_duplicates());
    run.unique_seq_to_set();
    assert(run.to_set().subset_of(t.dom())) by {
        assert forall|e: S4Vector| run.to_set().contains(e) implies t.dom().contains(e) by {
            let i = choose|i: int| 0 <= i < run.len() && run[i] == e;
            assert(t.contains_key(run[i]));
        }
    }
    vstd::set_lib::lemma_len_subset(run.to_set(), t.dom());
}

/// The table after linking a fresh element `x` behind predecessor `w` and
/// before successor `nxt` (when given): the predecessor's right link and
/// the successor's back link are repaired, and the new entry is added.
pub open spec fn linked_table(
    t: Map<S4Vector, ModelNode>,
    w: S4Vector,
    x: S4Vector,
    vx: Seq<char>,
    nxt: Option<S4Vector>,
) -> Map<S4Vector, ModelNode> {
    let t1 = t.insert(
        w,
        ModelNode { value: t[w].value, tombstone: t[w].tombstone, left: t[w].left, right: Some(x) },
    );
    let t2 = match nxt {
        Some(n) => t1.insert(
            n,
            ModelNode {
                value: t1[n].value,
                tombstone: t1[n].tombstone,
                left: Some(x),
                right: t1[n].right,
            },
        ),
        None => t1,
    };
    t2.insert(x, ModelNode { value: vx, tombstone: false, left: Some(w), right: nxt })
}

/// The exact effect of inserting a fresh element at an anchor heading a
/// chain: the walk stops at the predecessor of the element's chain
/// position — the position determined solely by the identifier order among
/// the chain, never by arrival order — the element is linked there, and
/// the chain grows by exactly that element at that position.
pub proof fn lemma_insert_on_chain(
    v: RgaView,
    a: S4Vector,
    run: Seq<S4Vector>,
    x: S4Vector,
    vx: Seq<char>,
)
    requires
        v.table.dom().finite(),
        v.head is Some,
        is_chain(v.table, a, run),
        !v.table.contains_key(x),
    ensures
        insert_step(v, x, vx, Some(a), None) == (RgaView {
            head: v.head,
            table: linked_table(
                v.table,
                chain_pred(a, run, chain_pos(run, x)),
                x,
                vx,
                chain_succ(run, chain_pos(run, x)),
            ),
            buffer: v.buffer,
            session: v.session,
            site: v.site,
            seq: v.seq,
        }),
        is_chain(insert_step(v, x, vx, Some(a), None).table, a, run.insert(chain_pos(run, x), x)),
        insert_step(v, x, vx, Some(a), None).table.dom() =~= v.table.dom().insert(x),
{
    broadcast use vstd::seq_lib::group_seq_properties;

    let t = v.table;
    let j = chain_pos(run, x);
    lemma_chain_pos_bounds(run, x);
    let w = chain_pred(a, run, j);
    let nxt = chain_succ(run, j);
    lemma_chain_len_le_dom(t, a, run);
    lemma_walk_on_chain(t, a, run, x, t.dom().len());
    assert(t.contains_key(w));
    assert(t[w].right == nxt);
    let tf = linked_table(t, w, x, vx, nxt);
    assert(insert_step(v, x, vx, Some(a), None) =~= (RgaView {
        head: v.head,
        table: tf,
        buffer: v.buffer,
        session: v.session,
        site: v.site,
        seq: v.seq,
    }));
    assert(tf.dom() =~= t.dom().insert(x));
    // right links: only the predecessor's changed, and the new element's
    assert(tf[w].right == Some(x));
    assert(tf[x].right == nxt);
    assert(forall|q: S4Vector| t.contains_key(q) && q != w ==> (#[trigger] tf[q]).right == t[q].right);
    // the grown chain
    run.insert_ensures(j, x);
    let run2 = run.insert(j, x);
    assert(is_chain(tf, a, run2)) by {
        assert forall|i: int| 0 <= i < run2.len() implies tf.contains_key(#[trigger] run2[i]) by {
            if i < j {
                assert(run2[i] == run[i]);
            } else if i == j {
                assert(run2[i] == x);
            } else {
                assert(run2[i] == run[i - 1]);
            }
        }
        assert(tf[a].right == (if run2.len() == 0 {
            None::<S4Vector>
        } else {
            Some(run2[0])
        })) by {
            if j == 0 {
                assert(w == a && run2[0] == x);
            } else {
                assert(a != w && run2[0] == run[0]);
            }
        }
        assert forall|i: int| 0 <= i < run2.len() implies (#[trigger] tf[run2[i]]).right == (if i
            == run2.len() - 1 {
            None::<S4Vector>
        } else {
            Some(run2[i + 1])
        }) by {
            if i < j - 1 {
                assert(run2[i] == run[i] && run2[i + 1] == run[i + 1]);
                assert(run[i] != w);
            } else if i == j - 1 {
                assert(run2[i] == run[j - 1] && run2[i + 1] == x);
                assert(run[j - 1] == w);
            } else if i == j {
                assert(run2[i] == x);
                if i < run2.len() - 1 {
                    assert(run2[i + 1] == run[i]);
                }
            } else {
                assert(run2[i] == run[i - 1]);
                assert(run[i - 1] != w) by {
                    if j > 0 {
                        assert(run[j - 1] == w);
                    }
                }
                if i < run2.len() - 1 {
                    assert(run2[i + 1] == run[i]);
                }
            }
        }
        assert forall|i: int, p: int| 0 <= i < p < run2.len() implies (#[trigger] run2[i]) != (
        #[trigger] run2[p]) by {
            if i < j {
                assert(run2[i] == run[i]);
            } else if i == j {
                assert(run2[i] == x);
            } else {
                assert(run2[i] == run[i - 1]);
            }
            if p < j {
                assert(run2[p] == run[p]);
            } else if p == j {
                assert(run2[p] == x);
            } else {
                assert(run2[p] == run[p - 1]);
            }
        }
        assert forall|i: int| 0 <= i < run2.len() implies (#[trigger] run2[i]) != a by {
            if i < j {
                assert(run2[i] == run[i]);
            } else if i == j {
                assert(run2[i] == x);
            } else {
                assert(run2[i] == run[i - 1]);
            }
        }
    }
}

/// The two application orders of a pair of fresh inserts at one chain
/// anchor reach the same state. `hi` names the larger identifier.
#[verifier::spinoff_prover]
#[verifier::rlimit(100)]
proof fn lemma_ordered_pair_chain(
    v: RgaView,
    a: S4Vector,
    run: Seq<S4Vector>,
    hi: S4Vector,
    vh: Seq<char>,
    lo: S4Vector,
    vl: Seq<char>,
)
    requires
        v.table.dom().finite(),
        v.head is Some,
        is_chain(v.table, a, run),
        !v.table.contains_key(hi),
        !v.table.contains_key(lo),
        hi != lo,
        s4_lt(lo, hi),
    ensures
        insert_step(insert_step(v, hi, vh, Some(a), None), lo, vl, Some(a), None) == insert_step(
            insert_step(v, lo, vl, Some(a), None),
            hi,
            vh,
            Some(a),
            None,
        ),
{
    broadcast use vstd::seq_lib::group_seq_properties;

    lemma_chain_pos_bounds(run, hi);
    lemma_chain_pos_bounds(run, lo);
    let jh = chain_pos(run, hi);
    let jl = chain_pos(run, lo);
    assert(jh <= jl) by {
        if jh > jl {
            crate::s4vector::lemma_order_transitive(lo, hi, run[jl]);
        }
    }
    crate::s4vector::lemma_order_total(hi, lo);

    // first order: hi, then lo, which lands one position later
    lemma_insert_on_chain(v, a, run, hi, vh);
    let v_hi = insert_step(v, hi, vh, Some(a), None);
    let run_hi = run.insert(jh, hi);
    run.insert_ensures(jh, hi);
    assert(!v_hi.table.contains_key(lo));
    assert(v_hi.table.dom().finite()) by {
        vstd::set::axiom_set_insert_finite(v.table.dom(), hi);
    }
    assert(chain_pos(run_hi, lo) == jl + 1) by {
        assert forall|i: int| 0 <= i < jl + 1 implies s4_lt(lo, #[trigger] run_hi[i]) by {
            if i < jh {
                assert(run_hi[i] == run[i]);
            } else if i == jh {
                assert(run_hi[i] == hi);
            } else {
                assert(run_hi[i] == run[i - 1]);
            }
        }
        if jl + 1 < run_hi.len() {
            assert(run_hi[jl + 1] == run[jl]);
        }
        lemma_chain_pos_unique(run_hi, lo, jl + 1);
    }
    lemma_insert_on_chain(v_hi, a, run_hi, lo, vl);

    // second order: lo, then hi, which keeps its position
    lemma_insert_on_chain(v, a, run, lo, vl);
    let v_lo = insert_step(v, lo, vl, Some(a), None);
    let run_lo = run.insert(jl, lo);
    run.insert_ensures(jl, lo);
    assert(!v_lo.table.contains_key(hi));
    assert(v_lo.table.dom().finite()) by {
        vstd::set::axiom_set_insert_finite(v.table.dom(), lo);
    }
    assert(chain_pos(run_lo, hi) == jh) by {
        assert forall|i: int| 0 <= i < jh implies s4_lt(hi, #[trigger] run_lo[i]) by {
            assert(run_lo[i] == run[i]);
        }
        assert(jh < run_lo.len());
        if jh < jl {
            assert(run_lo[jh] == run[jh]);
        } else {
            assert(run_lo[jh] == lo);
        }
        lemma_chain_pos_unique(run_lo, hi, jh);
    }
    lemma_insert_on_chain(v_lo, a, run_lo, hi, vh);

    // the positions around both elements agree between the orders
    assert(chain_pred(a, run_hi, jl + 1) == (if jl == jh {
        hi
    } else {
        run[jl - 1]
    }));
    assert(chain_succ(run_hi, jl + 1) == chain_succ(run, jl));
    assert(chain_pred(a, run_lo, jh) == chain_pred(a, run, jh));
    assert(chain_succ(run_lo, jh) == (if jh < jl {
        chain_succ(run, jh)
    } else {
        Some(lo)
    }));

    let t_a = linked_table(
        v_hi.table,
        chain_pred(a, run_hi, jl + 1),
        lo,
        vl,
        chain_succ(run_hi, jl + 1),
    );
    let t_b = linked_table(
        v_lo.table,
        chain_pred(a, run_lo, jh),
        hi,
        vh,
        chain_succ(run_lo, jh),
    );
    assert(t_a.dom() =~= t_b.dom());
    assert forall|q: S4Vector| #[trigger] t_a.contains_key(q) implies t_a[q] == t_b[q] by {
        if q == hi {
        } else if q == lo {
        } else if q == a {
        } else if jh > 0 && q == run[jh - 1] {
        } else if jh < run.len() && q == run[jh] {
        } else if jl > 0 && q == run[jl - 1] {
        } else if jl < run.len() && q == run[jl] {
        }
    }
    assert(t_a =~= t_b);
    assert(insert_step(v_hi, lo, vl, Some(a), None) =~= insert_step(v_lo, hi, vh, Some(a), None));
}

/// Law (convergence under reordering, pairwise): two concurrent inserts
/// anchored at the same chain element produce exactly the same state
/// whichever is applied first — among concurrent siblings the final order
/// is the identifier order, never the arrival order. `run` is the chain of
/// elements that follows the anchor.
pub proof fn lemma_concurrent_inserts_commute(
    v: RgaView,
    a: S4Vector,
    run: Seq<S4Vector>,
    x: S4Vector,
    vx: Seq<char>,
    y: S4Vector,
    vy: Seq<char>,
)
    requires
        v.table.dom().finite(),
        v.head is Some,
        is_chain(v.table, a, run),
        !v.table.contains_key(x),
        !v.table.contains_key(y),
        x != y,
    ensures
        insert_step(insert_step(v, x, vx, Some(a), None), y, vy, Some(a), None) == insert_step(
            insert_step(v, y, vy, Some(a), None),
            x,
            vx,
            Some(a),
            None,
        ),
{
    crate::s4vector::lemma_order_total(x, y);
    if s4_lt(y, x) {
        lemma_ordered_pair_chain(v, a, run, x, vx, y, vy);
    } else {
        lemma_ordered_pair_chain(v, a, run, y, vy, x, vx);
    }
}

/// Three inserts at the same anchor, applied in the given order.
pub open spec fn insert_three(
    v: RgaView,
    a: S4Vector,
    p: S4Vector,
    vp: Seq<char>,
    q: S4Vector,
    vq: Seq<char>,
    r: S4Vector,
    vr: Seq<char>,
) -> RgaView {
    insert_step(
        insert_step(insert_step(v, p, vp, Some(a), None), q, vq, Some(a), None),
        r,
        vr,
        Some(a),
        None,
    )
}

/// Law (convergence under reordering): three concurrent inserts anchored
/// at the same chain element reach the same state in every one of the six
/// delivery orders — so every replica reads the same final sequence
/// however the operations arrive. `run` is the chain of elements that
/// follows the anchor.
pub proof fn lemma_three_concurrent_inserts_converge(
    v: RgaView,
    a: S4Vector,
    run: Seq<S4Vector>,
    x: S4Vector,
    vx: Seq<char>,
    y: S4Vector,
    vy: Seq<char>,
    z: S4Vector,
    vz: Seq<char>,
)
    requires
        v.table.dom().finite(),
        v.head is Some,
        is_chain(v.table, a, run),
        !v.table.contains_key(x),
        !v.table.contains_key(y),
        !v.table.contains_key(z),
        x != y && y != z && x != z,
    ensures
        insert_three(v, a, x, vx, y, vy, z, vz) == insert_three(v, a, x, vx, z, vz, y, vy),
        insert_three(v, a, x, vx, y, vy, z, vz) == insert_three(v, a, y, vy, x, vx, z, vz),
        insert_three(v, a, x, vx, y, vy, z, vz) == insert_three(v, a, y, vy, z, vz, x, vx),
        insert_three(v, a, x, vx, y, vy, z, vz) == insert_three(v, a, z, vz, x, vx, y, vy),
        insert_three(v, a, x, vx, y, vy, z, vz) == insert_three(v, a, z, vz, y, vy, x, vx),
{
    lemma_insert_on_chain(v, a, run, x, vx);
    lemma_insert_on_chain(v, a, run, y, vy);
    lemma_insert_on_chain(v, a, run, z, vz);
    let v_x = insert_step(v, x, vx, Some(a), None);
    let v_y = insert_step(v, y, vy, Some(a), None);
    let v_z = insert_step(v, z, vz, Some(a), None);
    vstd::set::axiom_set_insert_finite(v.table.dom(), x);
    vstd::set::axiom_set_insert_finite(v.table.dom(), y);
    vstd::set::axiom_set_insert_finite(v.table.dom(), z);
    // swapping the first two inserts
    lemma_concurrent_inserts_commute(v, a, run, x, vx, y, vy);
    lemma_concurrent_inserts_commute(v, a, run, x, vx, z, vz);
    // swapping the last two inserts, in each once-inserted state
    lemma_concurrent_inserts_commute(v_x, a, run.insert(chain_pos(run, x), x), y, vy, z, vz);
    lemma_concurrent_inserts_commute(v_y, a, run.insert(chain_pos(run, y), y), x, vx, z, vz);
    lemma_concurrent_inserts_commute(v_z, a, run.insert(chain_pos(run, z), z), x, vx, y, vy);
}

/// Law (dependency buffering): when a sweep runs in a state whose table
/// holds the dependency of a buffered insert, that insert's element is in
/// the table afterwards — the arrival of the missing anchor pulls the
/// parked operation in, and the anchor stays present.
pub proof fn lemma_buffered_insert_applied(pre: RgaView, post: RgaView, op: OpView, d: S4Vector)
    requires
        sweep_post(pre, post),
        pre.buffer.contains(op),
        op.kind is Insert,
        op.value is Some,
        op_dep(op) == Some(d),
        pre.table.contains_key(d),
    ensures
        post.table.contains_key(op.s4vector),
        post.table.contains_key(d),
{
    let i = choose|i: int| 0 <= i < pre.buffer.len() && pre.buffer[i] == op;
    assert(post.buffer.contains(pre.buffer[i]) || applied_mark(pre.buffer[i], post));
    if post.buffer.contains(op) {
        let j = choose|j: int| 0 <= j < post.buffer.len() && post.buffer[j] == op;
        assert(!post.table.contains_key(d));
        assert(false);
    }
}

} // verus!

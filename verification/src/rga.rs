//! The replicated sequence engine: a table of elements keyed by identifier,
//! a logical chain through neighbor links, local and remote mutation
//! operations, and a pending-operation buffer for operations whose
//! dependencies have not arrived yet.
//!
//! The table is the single source of truth: elements are owned by an arena
//! and addressed by identifier; the `left`/`right` fields are lookup keys,
//! never pointers. Elements are never removed — deletion only tombstones —
//! so that replicas which have not yet seen an element's neighbors still
//! converge.

use vstd::prelude::*;

use crate::model::{
    applied_mark, apply_op, buffer_wf, cleared, delete_step, insert_dep, insert_step,
    lemma_delete_step_extends,
    lemma_extends_transitive, lemma_insert_step_extends, lemma_map_of_contains, lemma_map_of_get,
    lemma_map_of_len, lemma_map_of_push, lemma_map_of_update, lemma_mark_monotone,
    lemma_update_step_extends, lemma_walk_stop_in_table, links_closed, map_of, model_of, op_dep,
    op_ready, op_view, ops_view, quiescent, read_view, splice_view, sweep_pass_view, sweep_post,
    sweep_view, table_extends, unique_ids, update_step, view_wf, walk_read, walk_stop, ModelNode,
    OpView, RgaView,
};
use crate::s4vector::{generated, S4Vector};

verus! {

/// One element of the replicated sequence: a payload, its identifier, a
/// tombstone flag, and the identifiers of its logical neighbors.
#[derive(Debug, Clone, PartialEq, Eq, Hash)]
pub struct Node {
    /// The payload carried by this element.
    pub value: String,
    /// The globally unique identifier of this element.
    pub s4vector: S4Vector,
    /// Whether this element has been logically deleted.
    pub tombstone: bool,
    /// The identifier of the logical left neighbor, if any.
    pub left: Option<S4Vector>,
    /// The identifier of the logical right neighbor, if any.
    pub right: Option<S4Vector>,
}

/// The kind of a mutation operation.
#[derive(Debug, Clone, Copy, PartialEq, Eq, Structural)]
pub enum OperationType {
    Insert,
    Update,
    Delete,
}

/// A pending operation, parked in the buffer until the element it depends
/// on has arrived.
#[derive(Debug)]
pub(crate) struct Operation {
    pub(crate) operation: OperationType,
    pub(crate) s4vector: S4Vector,
    pub(crate) value: Option<String>,
    pub(crate) left: Option<S4Vector>,
    pub(crate) right: Option<S4Vector>,
}

/// The recoverable failure of a local operation: it referenced an anchor
/// identifier that is not present yet. The operation is buffered, not lost,
/// and is retried after every subsequent successful mutation.
#[derive(Debug, Clone, Copy, PartialEq, Eq, Structural)]
pub enum OperationError {
    DependancyError,
}

/// The record of a successfully applied local operation, to be handed to an
/// external transport and applied on other replicas through the `remote_*`
/// entry points.
pub struct BroadcastOperation {
    /// The kind of the applied operation.
    pub operation: OperationType,
    /// The identifier of the affected element.
    pub s4vector: S4Vector,
    /// The element's payload after the operation, if the operation carries
    /// one.
    pub value: Option<String>,
    /// The affected element's left neighbor after the operation.
    pub left: Option<S4Vector>,
    /// The affected element's right neighbor after the operation.
    pub right: Option<S4Vector>,
}

impl Node {
    /// Creates a fresh, not yet tombstoned element.
    pub fn new(value: String, s4: S4Vector, left: Option<S4Vector>, right: Option<S4Vector>) -> (r:
        Node)
        ensures
            r == (Node { value, s4vector: s4, tombstone: false, left, right }),
    {
        Node { value, s4vector: s4, tombstone: false, left, right }
    }
}

/// The replicated sequence engine of one replica.
#[derive(Debug)]
pub struct RGA {
    /// The identifier of the first logical element, if one has been placed.
    head: Option<S4Vector>,
    /// The arena owning every element ever created, keyed by identifier.
    nodes: Vec<Node>,
    /// Operations whose dependencies have not arrived yet.
    buffer: Vec<Operation>,
    /// The collaboration session this replica takes part in.
    session_id: u64,
    /// The identity of this replica.
    site_id: u64,
    /// The per-replica counter from which identifier sequence numbers come.
    local_sequence: u64,
}

impl View for RGA {
    type V = RgaView;

    closed spec fn view(&self) -> RgaView {
        RgaView {
            head: self.head,
            table: map_of(self.nodes@),
            buffer: ops_view(self.buffer@),
            session: self.session_id,
            site: self.site_id,
            seq: self.local_sequence,
        }
    }
}

impl RGA {
    /// The arena's identifiers are pairwise distinct (a fact about the
    /// private representation).
    pub closed spec fn ids_unique(self) -> bool {
        unique_ids(self.nodes@)
    }

    /// Structural well-formedness: identifiers are unique in the arena, and
    /// the view is well formed — all links point into the table, the head
    /// is a table key (or the table is empty), the table is finite, and
    /// every buffered operation names a dependency.
    pub open spec fn inv(self) -> bool {
        &&& self.ids_unique()
        &&& view_wf(self@)
    }

    /// Full well-formedness between public operations: structurally well
    /// formed, and the buffer is swept — no buffered operation has its
    /// dependency met. Every public operation preserves this.
    pub open spec fn wf(self) -> bool {
        &&& self.inv()
        &&& quiescent(self@)
    }

    /// Creates an empty engine scoped to the given session and site.
    pub fn new(session_id: u64, site_id: u64) -> (r: RGA)
        ensures
            r.wf(),
            r@ == (RgaView {
                head: None,
                table: Map::<S4Vector, ModelNode>::empty(),
                buffer: Seq::<OpView>::empty(),
                session: session_id,
                site: site_id,
                seq: 0,
            }),
    {
        let r = RGA {
            head: None,
            nodes: Vec::new(),
            buffer: Vec::new(),
            session_id,
            site_id,
            local_sequence: 0,
        };
        proof {
            assert(r@.table =~= Map::<S4Vector, ModelNode>::empty());
            assert(r@.buffer =~= Seq::<OpView>::empty());
        }
        r
    }

    /// The arena index of the element carrying the given identifier.
    fn find(&self, id: &S4Vector) -> (r: Option<usize>)
        ensures
            match r {
                Some(i) => {
                    &&& i < self.nodes@.len()
                    &&& self.nodes@[i as int].s4vector == *id
                    &&& self@.table.contains_key(*id)
                    &&& unique_ids(self.nodes@) ==> self@.table[*id] == model_of(
                        self.nodes@[i as int],
                    )
                },
                None => !self@.table.contains_key(*id),
            },
    {
        let ghost s = self.nodes@;
        let mut i: usize = 0;
        while i < self.nodes.len()
            invariant
                i <= s.len(),
                s == self.nodes@,
                forall|j: int| 0 <= j < i ==> (#[trigger] s[j]).s4vector != *id,
            decreases s.len() - i,
        {
            if self.nodes[i].s4vector == *id {
                proof {
                    lemma_map_of_contains(s, *id);
                    if unique_ids(s) {
                        lemma_map_of_get(s, i as int);
                    }
                }
                return Some(i);
            }
            i = i + 1;
        }
        proof {
            lemma_map_of_contains(s, *id);
        }
        None
    }

    /// Whether an element with the given identifier is present in the
    /// table (tombstoned or not).
    pub fn contains(&self, s4vector: &S4Vector) -> (r: bool)
        ensures
            r == self@.table.contains_key(*s4vector),
    {
        self.find(s4vector).is_some()
    }

    /// The element carrying the given identifier, if present.
    pub fn get(&self, s4vector: &S4Vector) -> (r: Option<&Node>)
        requires
            self.inv(),
        ensures
            match r {
                Some(n) => self@.table.contains_key(*s4vector) && model_of(*n)
                    == self@.table[*s4vector] && n.s4vector == *s4vector,
                None => !self@.table.contains_key(*s4vector),
            },
    {
        match self.find(s4vector) {
            Some(i) => Some(&self.nodes[i]),
            None => None,
        }
    }

    /// How many elements the table holds, tombstoned ones included.
    pub fn node_count(&self) -> (r: usize)
        requires
            self.inv(),
        ensures
            r == self@.table.dom().len(),
    {
        proof {
            lemma_map_of_len(self.nodes@);
        }
        self.nodes.len()
    }

    /// The identifier of the first logical element, if one has been placed.
    pub fn head(&self) -> (r: Option<S4Vector>)
        ensures
            r == self@.head,
    {
        self.head
    }

    /// Replaces the element at arena slot `i` by one carrying the same
    /// identifier: the table entry of that identifier is updated, nothing
    /// else changes.
    fn replace_slot(&mut self, i: usize, n: Node)
        requires
            unique_ids(old(self).nodes@),
            i < old(self).nodes@.len(),
            n.s4vector == old(self).nodes@[i as int].s4vector,
        ensures
            unique_ids(final(self).nodes@),
            final(self).nodes@ == old(self).nodes@.update(i as int, n),
            final(self).head == old(self).head,
            final(self).buffer == old(self).buffer,
            final(self)@ == (RgaView {
                head: old(self)@.head,
                table: old(self)@.table.insert(n.s4vector, model_of(n)),
                buffer: old(self)@.buffer,
                session: old(self)@.session,
                site: old(self)@.site,
                seq: old(self)@.seq,
            }),
    {
        proof {
            lemma_map_of_update(self.nodes@, i as int, n);
        }
        self.nodes.set(i, n);
    }

    /// Appends an element whose identifier is not in the table yet: the
    /// table gains exactly that entry, nothing else changes.
    fn push_node(&mut self, n: Node)
        requires
            unique_ids(old(self).nodes@),
            !old(self)@.table.contains_key(n.s4vector),
        ensures
            unique_ids(final(self).nodes@),
            final(self).nodes@ == old(self).nodes@.push(n),
            final(self).head == old(self).head,
            final(self).buffer == old(self).buffer,
            final(self)@ == (RgaView {
                head: old(self)@.head,
                table: old(self)@.table.insert(n.s4vector, model_of(n)),
                buffer: old(self)@.buffer,
                session: old(self)@.session,
                site: old(self)@.site,
                seq: old(self)@.seq,
            }),
    {
        proof {
            lemma_map_of_push(self.nodes@, n);
        }
        self.nodes.push(n);
    }

    /// Splices a fresh element into the chain. With a left anchor, the
    /// placement walk skips rightward past every neighbor whose identifier
    /// comes after the new one, so that concurrent inserts sharing an
    /// anchor always end up in identifier order, whatever order they
    /// arrive in; the element is linked after the stopping point and both
    /// neighbors' links are repaired. Without a left anchor the element
    /// becomes the new head.
    fn insert_into_list(&mut self, node: Node)
        requires
            old(self).inv(),
            !old(self)@.table.contains_key(node.s4vector),
            node.tombstone == false,
            match node.left {
                Some(l) => old(self)@.table.contains_key(l),
                None => true,
            },
            match (node.left, node.right) {
                (None, Some(r)) => old(self)@.table.contains_key(r),
                _ => true,
            },
        ensures
            final(self).inv(),
            final(self)@ == splice_view(
                old(self)@,
                node.s4vector,
                node.value@,
                node.left,
                node.right,
            ),
            final(self)@.buffer == old(self)@.buffer,
            final(self)@.session == old(self)@.session,
            final(self)@.site == old(self)@.site,
            final(self)@.seq == old(self)@.seq,
    {
        let id = node.s4vector;
        let ghost v0 = self@;
        let ghost value0 = node.value@;
        match node.left {
            Some(l) => {
                let mut cur: S4Vector = l;
                let mut fuel: usize = self.nodes.len();
                let ghost snap = *self;
                let ghost t = self@.table;
                let ghost fuel0 = t.dom().len();
                proof {
                    lemma_map_of_len(self.nodes@);
                }
                loop
                    invariant
                        *self == snap,
                        snap.inv(),
                        t == snap@.table,
                        t.contains_key(cur),
                        fuel as nat <= fuel0,
                        walk_stop(t, cur, id, fuel as nat) == walk_stop(t, l, id, fuel0),
                    ensures
                        *self == snap,
                        cur == walk_stop(t, l, id, fuel0),
                        t.contains_key(cur),
                    decreases fuel,
                {
                    let i = match self.find(&cur) {
                        Some(i) => i,
                        None => {
                            proof {
                                assert(false);
                            }
                            break ;
                        },
                    };
                    match self.nodes[i].right {
                        None => {
                            break ;
                        },
                        Some(next) => {
                            if fuel > 0 && id.precedes(&next) {
                                proof {
                                    assert(t[cur] == model_of(snap.nodes@[i as int]));
                                    assert(t[cur].right == Some(next));
                                    assert(t.contains_key(next));
                                    assert(walk_stop(t, cur, id, fuel as nat) == walk_stop(
                                        t,
                                        next,
                                        id,
                                        (fuel - 1) as nat,
                                    ));
                                }
                                cur = next;
                                fuel = fuel - 1;
                            } else {
                                proof {
                                    assert(t[cur] == model_of(snap.nodes@[i as int]));
                                    assert(walk_stop(t, cur, id, fuel as nat) == cur);
                                }
                                break ;
                            }
                        },
                    }
                }
                match self.find(&cur) {
                    Some(i) => {
                        let w_value = self.nodes[i].value.clone();
                        let w_tombstone = self.nodes[i].tombstone;
                        let w_left = self.nodes[i].left;
                        let old_right = self.nodes[i].right;
                        let pred = Node {
                            value: w_value,
                            s4vector: cur,
                            tombstone: w_tombstone,
                            left: w_left,
                            right: Some(id),
                        };
                        self.replace_slot(i, pred);
                        if let Some(nx) = old_right {
                            match self.find(&nx) {
                                Some(j) => {
                                    let nx_value = self.nodes[j].value.clone();
                                    let nx_node = Node {
                                        value: nx_value,
                                        s4vector: nx,
                                        tombstone: self.nodes[j].tombstone,
                                        left: Some(id),
                                        right: self.nodes[j].right,
                                    };
                                    self.replace_slot(j, nx_node);
                                },
                                None => {},
                            }
                        }
                        let new_node = Node {
                            value: node.value,
                            s4vector: id,
                            tombstone: false,
                            left: Some(cur),
                            right: old_right,
                        };
                        self.push_node(new_node);
                        if self.head.is_none() {
                            self.head = Some(id);
                        }
                        proof {
                            assert(self@ =~= splice_view(v0, id, value0, Some(l), node.right));
                            assert(self.inv()) by {
                                assert(links_closed(self@.table)) by {
                                    assert forall|k: S4Vector| #[trigger]
                                        self@.table.contains_key(k) implies {
                                        &&& (self@.table[k].right matches Some(rr)
                                            ==> self@.table.contains_key(rr))
                                        &&& (self@.table[k].left matches Some(ll)
                                            ==> self@.table.contains_key(ll))
                                    } by {
                                        if k != cur && !(old_right == Some(k)) && k != id {
                                            assert(self@.table[k] == v0.table[k]);
                                        }
                                    }
                                }
                            }
                        }
                    },
                    None => {
                        proof {
                            lemma_walk_stop_in_table(t, l, id, fuel0);
                            assert(false);
                        }
                        self.push_node(node);
                    },
                }
            },
            None => {
                let right_anchor = node.right;
                let new_node = Node {
                    value: node.value,
                    s4vector: id,
                    tombstone: false,
                    left: None,
                    right: right_anchor,
                };
                self.push_node(new_node);
                if let Some(r) = right_anchor {
                    match self.find(&r) {
                        Some(j) => {
                            let r_value = self.nodes[j].value.clone();
                            let r_node = Node {
                                value: r_value,
                                s4vector: r,
                                tombstone: self.nodes[j].tombstone,
                                left: Some(id),
                                right: self.nodes[j].right,
                            };
                            self.replace_slot(j, r_node);
                        },
                        None => {},
                    }
                }
                self.head = Some(id);
                proof {
                    assert(self@ =~= splice_view(v0, id, value0, None, right_anchor));
                    assert(self.inv()) by {
                        assert(links_closed(self@.table)) by {
                            assert forall|k: S4Vector| #[trigger]
                                self@.table.contains_key(k) implies {
                                &&& (self@.table[k].right matches Some(rr)
                                    ==> self@.table.contains_key(rr))
                                &&& (self@.table[k].left matches Some(ll)
                                    ==> self@.table.contains_key(ll))
                            } by {
                                if !(right_anchor == Some(k)) && k != id {
                                    assert(self@.table[k] == v0.table[k]);
                                }
                            }
                        }
                    }
                }
            },
        }
    }

    /// Applies an insert whose dependency is present: a no-op when the
    /// identifier is already known (idempotent redelivery), else a splice.
    fn apply_insert(
        &mut self,
        value: String,
        s4vector: S4Vector,
        left: Option<S4Vector>,
        right: Option<S4Vector>,
    )
        requires
            old(self).inv(),
            match insert_dep(left, right) {
                Some(d) => old(self)@.table.contains_key(d),
                None => true,
            },
        ensures
            final(self).inv(),
            final(self)@ == insert_step(old(self)@, s4vector, value@, left, right),
    {
        if self.contains(&s4vector) {
            return ;
        }
        let node = Node { value, s4vector, tombstone: false, left, right };
        self.insert_into_list(node);
    }

    /// Applies a delete whose target may or may not be present: tombstones
    /// it when present, does nothing otherwise.
    fn apply_delete(&mut self, s4vector: S4Vector)
        requires
            old(self).inv(),
        ensures
            final(self).inv(),
            final(self)@ == delete_step(old(self)@, s4vector),
    {
        match self.find(&s4vector) {
            Some(i) => {
                let value = self.nodes[i].value.clone();
                let n = Node {
                    value,
                    s4vector,
                    tombstone: true,
                    left: self.nodes[i].left,
                    right: self.nodes[i].right,
                };
                self.replace_slot(i, n);
                proof {
                    assert(self@ =~= delete_step(old(self)@, s4vector));
                    assert(links_closed(self@.table)) by {
                        assert forall|k: S4Vector| #[trigger]
                            self@.table.contains_key(k) implies {
                            &&& (self@.table[k].right matches Some(rr) ==> self@.table.contains_key(
                                rr,
                            ))
                            &&& (self@.table[k].left matches Some(ll) ==> self@.table.contains_key(
                                ll,
                            ))
                        } by {
                            if k != s4vector {
                                assert(self@.table[k] == old(self)@.table[k]);
                            }
                        }
                    }
                }
            },
            None => {},
        }
    }

    /// Applies an update whose target may or may not be present: replaces
    /// the payload when the target is present and not tombstoned; a
    /// tombstoned element's payload is frozen, and an absent target is left
    /// to the caller's policy.
    fn apply_update(&mut self, s4vector: S4Vector, value: String)
        requires
            old(self).inv(),
        ensures
            final(self).inv(),
            final(self)@ == update_step(old(self)@, s4vector, value@),
    {
        match self.find(&s4vector) {
            Some(i) => {
                if !self.nodes[i].tombstone {
                    let n = Node {
                        value,
                        s4vector,
                        tombstone: false,
                        left: self.nodes[i].left,
                        right: self.nodes[i].right,
                    };
                    self.replace_slot(i, n);
                    proof {
                        assert(self@ =~= update_step(old(self)@, s4vector, value@));
                        assert(links_closed(self@.table)) by {
                            assert forall|k: S4Vector| #[trigger]
                                self@.table.contains_key(k) implies {
                                &&& (self@.table[k].right matches Some(rr)
                                    ==> self@.table.contains_key(rr))
                                &&& (self@.table[k].left matches Some(ll)
                                    ==> self@.table.contains_key(ll))
                            } by {
                                if k != s4vector {
                                    assert(self@.table[k] == old(self)@.table[k]);
                                }
                            }
                        }
                    }
                }
            },
            None => {},
        }
    }

    /// One retain-pass over the pending-operation buffer: applies, in
    /// original order, every entry whose dependency is now in the table,
    /// keeps the rest in their relative order, and reports whether any
    /// entry left the buffer. Entries applied earlier in the pass can make
    /// later entries of the same pass eligible.
    fn sweep_pass(&mut self) -> (progress: bool)
        requires
            old(self).inv(),
        ensures
            final(self).inv(),
            final(self)@.session == old(self)@.session,
            final(self)@.site == old(self)@.site,
            final(self)@.seq == old(self)@.seq,
            final(self)@.head is Some ==> old(self)@.head is Some || old(self)@.buffer.len() > 0,
            table_extends(old(self)@.table, final(self)@.table),
            forall|i: int|
                0 <= i < final(self)@.buffer.len() ==> old(self)@.buffer.contains(
                    #[trigger] final(self)@.buffer[i],
                ),
            forall|i: int|
                0 <= i < old(self)@.buffer.len() ==> final(self)@.buffer.contains(
                    #[trigger] old(self)@.buffer[i],
                ) || applied_mark(old(self)@.buffer[i], final(self)@),
            forall|k: S4Vector| #[trigger]
                final(self)@.table.contains_key(k) ==> old(self)@.table.contains_key(k)
                    || exists|i: int|
                    0 <= i < old(self)@.buffer.len() && (#[trigger] old(
                        self,
                    )@.buffer[i]).kind is Insert && old(self)@.buffer[i].s4vector == k,
            forall|q: S4Vector| #[trigger]
                old(self)@.table.contains_key(q) ==> final(self)@.table[q].tombstone == old(
                    self,
                )@.table[q].tombstone || exists|i: int|
                    0 <= i < old(self)@.buffer.len() && (#[trigger] old(
                        self,
                    )@.buffer[i]).kind is Delete && old(self)@.buffer[i].s4vector == q,
            forall|q: S4Vector| #[trigger]
                old(self)@.table.contains_key(q) ==> final(self)@.table[q].value == old(
                    self,
                )@.table[q].value || exists|i: int|
                    0 <= i < old(self)@.buffer.len() && (#[trigger] old(
                        self,
                    )@.buffer[i]).kind is Update && old(self)@.buffer[i].s4vector == q,
            !progress ==> final(self)@ == old(self)@ && quiescent(final(self)@),
            progress ==> final(self)@.buffer.len() < old(self)@.buffer.len(),
            quiescent(old(self)@) ==> !progress,
            final(self)@ == sweep_pass_view(cleared(old(self)@), old(self)@.buffer),
    {
        let ghost pre = self@;
        let mut pending: Vec<Operation> = Vec::new();
        core::mem::swap(&mut pending, &mut self.buffer);
        let mut progress: bool = false;
        let ghost mut k: int = 0;
        proof {
            broadcast use vstd::seq_lib::group_seq_properties;

            assert(ops_view(pending@) =~= pre.buffer);
            assert(ops_view(pending@) == pre.buffer.skip(0));
            assert(ops_view(self.buffer@) =~= Seq::<OpView>::empty());
            assert(self@ =~= cleared(pre));
        }
        while pending.len() > 0
            invariant
                self.inv(),
                0 <= k <= pre.buffer.len(),
                ops_view(pending@) == pre.buffer.skip(k),
                buffer_wf(pre.buffer),
                self@.session == pre.session,
                self@.site == pre.site,
                self@.seq == pre.seq,
                self@.head is Some ==> pre.head is Some || progress,
                progress ==> pre.buffer.len() > 0,
                table_extends(pre.table, self@.table),
                forall|i: int|
                    0 <= i < self@.buffer.len() ==> pre.buffer.contains(#[trigger] self@.buffer[i]),
                forall|i: int|
                    0 <= i < k ==> self@.buffer.contains(#[trigger] pre.buffer[i]) || applied_mark(
                        pre.buffer[i],
                        self@,
                    ),
                forall|q: S4Vector| #[trigger]
                    self@.table.contains_key(q) ==> pre.table.contains_key(q) || exists|i: int|
                        0 <= i < pre.buffer.len() && (#[trigger] pre.buffer[i]).kind is Insert
                            && pre.buffer[i].s4vector == q,
                forall|q: S4Vector| #[trigger]
                    pre.table.contains_key(q) ==> self@.table[q].tombstone
                        == pre.table[q].tombstone || exists|i: int|
                        0 <= i < pre.buffer.len() && (#[trigger] pre.buffer[i]).kind is Delete
                            && pre.buffer[i].s4vector == q,
                forall|q: S4Vector| #[trigger]
                    pre.table.contains_key(q) ==> self@.table[q].value == pre.table[q].value
                        || exists|i: int|
                        0 <= i < pre.buffer.len() && (#[trigger] pre.buffer[i]).kind is Update
                            && pre.buffer[i].s4vector == q,
                sweep_pass_view(self@, ops_view(pending@)) == sweep_pass_view(
                    cleared(pre),
                    pre.buffer,
                ),
                !progress ==> self@.table == pre.table && self@.head == pre.head && self@.buffer
                    == pre.buffer.take(k),
                !progress ==> forall|i: int|
                    0 <= i < self@.buffer.len() ==> (op_dep(#[trigger] self@.buffer[i]) matches Some(
                        d,
                    ) ==> !self@.table.contains_key(d)),
                progress ==> self@.buffer.len() + pending@.len() < pre.buffer.len(),
                self@.buffer.len() + pending@.len() <= pre.buffer.len(),
                quiescent(pre) ==> !progress,
            decreases pending@.len(),
        {
            let ghost mid = self@;
            let ghost pending_before = pending@;
            let op = pending.remove(0);
            proof {
                broadcast use vstd::seq_lib::group_seq_properties;

                assert(ops_view(pending_before).len() == pending_before.len());
                assert(pre.buffer.skip(k).len() == pre.buffer.len() - k);
                assert(k < pre.buffer.len());
                assert(op == pending_before[0]);
                assert(ops_view(pending_before)[0] == op_view(pending_before[0]));
                assert(op_view(op) == pre.buffer.skip(k)[0]);
                assert(op_view(op) == pre.buffer[k]);
                assert(ops_view(pending@) =~= pre.buffer.skip(k + 1)) by {
                    assert(pending@ =~= pending_before.skip(1));
                    assert forall|i: int|
                        0 <= i < pending@.len() implies ops_view(pending@)[i] == pre.buffer.skip(
                        k + 1,
                    )[i] by {
                        assert(ops_view(pending@)[i] == op_view(pending@[i]));
                        assert(pending@[i] == pending_before[i + 1]);
                        assert(ops_view(pending_before)[i + 1] == op_view(pending_before[i + 1]));
                        assert(pre.buffer.skip(k)[i + 1] == pre.buffer[k + 1 + i]);
                        assert(pre.buffer.skip(k + 1)[i] == pre.buffer[k + 1 + i]);
                    }
                }
            }
            let dep: Option<S4Vector> = match op.operation {
                OperationType::Insert => if op.left.is_some() {
                    op.left
                } else {
                    op.right
                },
                OperationType::Update => Some(op.s4vector),
                OperationType::Delete => Some(op.s4vector),
            };
            proof {
                assert(dep == op_dep(op_view(op)));
            }
            let eligible: bool = match &dep {
                Some(d) => self.contains(d),
                None => true,
            };
            if eligible {
                progress = true;
                match op.operation {
                    OperationType::Insert => {
                        match op.value {
                            Some(val) => {
                                let ghost val_view = val@;
                                self.apply_insert(val, op.s4vector, op.left, op.right);
                                proof {
                                    lemma_insert_step_extends(
                                        mid,
                                        op_view(op).s4vector,
                                        val_view,
                                        op_view(op).left,
                                        op_view(op).right,
                                    );
                                }
                            },
                            None => {},
                        }
                    },
                    OperationType::Update => {
                        match op.value {
                            Some(val) => {
                                let ghost val_view = val@;
                                self.apply_update(op.s4vector, val);
                                proof {
                                    lemma_update_step_extends(mid, op_view(op).s4vector, val_view);
                                }
                            },
                            None => {},
                        }
                    },
                    OperationType::Delete => {
                        self.apply_delete(op.s4vector);
                        proof {
                            lemma_delete_step_extends(mid, op_view(op).s4vector);
                        }
                    },
                }
                proof {
                    lemma_extends_transitive(pre.table, mid.table, self@.table);
                    assert(self@.buffer == mid.buffer);
                    assert forall|i: int|
                        0 <= i < k && !self@.buffer.contains(
                            #[trigger] pre.buffer[i],
                        ) implies applied_mark(pre.buffer[i], self@) by {
                        assert(applied_mark(pre.buffer[i], mid));
                        lemma_mark_monotone(pre.buffer[i], mid, self@);
                    }
                    assert(applied_mark(pre.buffer[k], self@)) by {
                        if op_view(op).kind is Update || op_view(op).kind is Delete {
                            assert(mid.table.contains_key(op_view(op).s4vector));
                        }
                    }
                    assert forall|q: S4Vector| #[trigger]
                        self@.table.contains_key(q) && !pre.table.contains_key(q) implies exists|
                        i: int,
                    |
                        0 <= i < pre.buffer.len() && (#[trigger] pre.buffer[i]).kind is Insert
                            && pre.buffer[i].s4vector == q by {
                        if !mid.table.contains_key(q) {
                            assert(q == op_view(op).s4vector && op_view(op).kind is Insert);
                            assert(0 <= k < pre.buffer.len() && (#[trigger] pre.buffer[k]).kind
                                is Insert && pre.buffer[k].s4vector == q);
                        }
                    }
                    assert forall|q: S4Vector| #[trigger]
                        pre.table.contains_key(q) && self@.table[q].tombstone
                        != pre.table[q].tombstone implies exists|i: int|
                        0 <= i < pre.buffer.len() && (#[trigger] pre.buffer[i]).kind is Delete
                            && pre.buffer[i].s4vector == q by {
                        if mid.table[q].tombstone == pre.table[q].tombstone {
                            assert(op_view(op).kind is Delete && op_view(op).s4vector == q);
                            assert(0 <= k < pre.buffer.len() && (#[trigger] pre.buffer[k]).kind
                                is Delete && pre.buffer[k].s4vector == q);
                        }
                    }
                    assert forall|q: S4Vector| #[trigger]
                        pre.table.contains_key(q) && self@.table[q].value != pre.table[q].value
                         implies exists|i: int|
                        0 <= i < pre.buffer.len() && (#[trigger] pre.buffer[i]).kind is Update
                            && pre.buffer[i].s4vector == q by {
                        if mid.table[q].value == pre.table[q].value {
                            assert(op_view(op).kind is Update && op_view(op).s4vector == q);
                            assert(0 <= k < pre.buffer.len() && (#[trigger] pre.buffer[k]).kind
                                is Update && pre.buffer[k].s4vector == q);
                        }
                    }
                    assert(self@ == apply_op(mid, op_view(op)));
                    assert(op_ready(mid, op_view(op)));
                    assert(ops_view(pending_before).skip(1) =~= ops_view(pending@)) by {
                        broadcast use vstd::seq_lib::group_seq_properties;

                    }
                    assert(sweep_pass_view(mid, ops_view(pending_before)) == sweep_pass_view(
                        self@,
                        ops_view(pending@),
                    ));
                }
            } else {
                let ghost kept_before = self.buffer@;
                self.buffer.push(op);
                proof {
                    broadcast use vstd::seq_lib::group_seq_properties;

                    assert(ops_view(self.buffer@) =~= ops_view(kept_before).push(op_view(op)));
                    assert(buffer_wf(self@.buffer)) by {
                        assert(forall|i: int|
                            0 <= i < mid.buffer.len() ==> self@.buffer[i] == mid.buffer[i]);
                        assert(self@.buffer.last() == pre.buffer[k]);
                    }
                    assert(view_wf(self@));
                    assert forall|i: int|
                        0 <= i < k + 1 implies self@.buffer.contains(#[trigger] pre.buffer[i])
                        || applied_mark(pre.buffer[i], self@) by {
                        if i < k {
                            if mid.buffer.contains(pre.buffer[i]) {
                                let j = choose|j: int|
                                    0 <= j < mid.buffer.len() && mid.buffer[j] == pre.buffer[i];
                                assert(self@.buffer[j] == pre.buffer[i]);
                            }
                        } else {
                            assert(self@.buffer[self@.buffer.len() - 1] == pre.buffer[k]);
                        }
                    }
                    assert forall|i: int|
                        0 <= i < self@.buffer.len() implies pre.buffer.contains(
                        #[trigger] self@.buffer[i],
                    ) by {
                        if i < mid.buffer.len() {
                            assert(self@.buffer[i] == mid.buffer[i]);
                        } else {
                            assert(self@.buffer[i] == pre.buffer[k]);
                        }
                    }
                    if !progress {
                        assert(self@.buffer =~= pre.buffer.take(k + 1));
                    }
                    assert(self@ =~= (RgaView {
                        head: mid.head,
                        table: mid.table,
                        buffer: mid.buffer.push(op_view(op)),
                        session: mid.session,
                        site: mid.site,
                        seq: mid.seq,
                    }));
                    assert(!op_ready(mid, op_view(op)));
                    assert(ops_view(pending_before).skip(1) =~= ops_view(pending@)) by {
                        broadcast use vstd::seq_lib::group_seq_properties;

                    }
                    assert(sweep_pass_view(mid, ops_view(pending_before)) == sweep_pass_view(
                        self@,
                        ops_view(pending@),
                    ));
                }
            }
            proof {
                k = k + 1;
            }
        }
        proof {
            broadcast use vstd::seq_lib::group_seq_properties;

            assert(pre.buffer.skip(k).len() == 0);
            assert(k == pre.buffer.len());
            assert(ops_view(pending@) =~= Seq::<OpView>::empty());
            assert(sweep_pass_view(self@, ops_view(pending@)) == self@);
            if !progress {
                assert(self@.buffer =~= pre.buffer);
                assert(self@ =~= pre);
            }
        }
        progress
    }

    /// Sweeps the pending-operation buffer to a fixpoint: runs retain-passes
    /// until one makes no progress, so that a chain of causally dependent
    /// buffered operations resolves in full — applying one entry can make
    /// another eligible, and the loop only stops when nothing is.
    pub fn apply_buffered_operations(&mut self)
        requires
            old(self).inv(),
        ensures
            final(self).wf(),
            sweep_post(old(self)@, final(self)@),
            final(self)@ == sweep_view(old(self)@),
    {
        let ghost pre = self@;
        loop
            invariant
                self.inv(),
                self@.session == pre.session,
                self@.site == pre.site,
                self@.seq == pre.seq,
                self@.head is Some ==> pre.head is Some || pre.buffer.len() > 0,
                table_extends(pre.table, self@.table),
                forall|i: int|
                    0 <= i < self@.buffer.len() ==> pre.buffer.contains(#[trigger] self@.buffer[i]),
                forall|i: int|
                    0 <= i < pre.buffer.len() ==> self@.buffer.contains(#[trigger] pre.buffer[i])
                        || applied_mark(pre.buffer[i], self@),
                forall|q: S4Vector| #[trigger]
                    self@.table.contains_key(q) ==> pre.table.contains_key(q) || exists|i: int|
                        0 <= i < pre.buffer.len() && (#[trigger] pre.buffer[i]).kind is Insert
                            && pre.buffer[i].s4vector == q,
                forall|q: S4Vector| #[trigger]
                    pre.table.contains_key(q) ==> self@.table[q].tombstone
                        == pre.table[q].tombstone || exists|i: int|
                        0 <= i < pre.buffer.len() && (#[trigger] pre.buffer[i]).kind is Delete
                            && pre.buffer[i].s4vector == q,
                forall|q: S4Vector| #[trigger]
                    pre.table.contains_key(q) ==> self@.table[q].value == pre.table[q].value
                        || exists|i: int|
                        0 <= i < pre.buffer.len() && (#[trigger] pre.buffer[i]).kind is Update
                            && pre.buffer[i].s4vector == q,
                quiescent(pre) ==> self@ == pre,
                sweep_view(self@) == sweep_view(pre),
            ensures
                self.inv(),
                quiescent(self@),
                sweep_post(pre, self@),
                self@ == sweep_view(pre),
            decreases self@.buffer.len(),
        {
            let ghost mid = self@;
            let progress = self.sweep_pass();
            proof {
                lemma_extends_transitive(pre.table, mid.table, self@.table);
                assert forall|i: int|
                    0 <= i < self@.buffer.len() implies pre.buffer.contains(
                    #[trigger] self@.buffer[i],
                ) by {
                    assert(mid.buffer.contains(self@.buffer[i]));
                    let j = choose|j: int|
                        0 <= j < mid.buffer.len() && mid.buffer[j] == self@.buffer[i];
                    assert(pre.buffer.contains(mid.buffer[j]));
                }
                assert forall|i: int|
                    0 <= i < pre.buffer.len() && !self@.buffer.contains(
                        #[trigger] pre.buffer[i],
                    ) implies applied_mark(pre.buffer[i], self@) by {
                    if mid.buffer.contains(pre.buffer[i]) {
                        let j = choose|j: int|
                            0 <= j < mid.buffer.len() && mid.buffer[j] == pre.buffer[i];
                        assert(self@.buffer.contains(mid.buffer[j]) || applied_mark(
                            mid.buffer[j],
                            self@,
                        ));
                    } else {
                        assert(applied_mark(pre.buffer[i], mid));
                        lemma_mark_monotone(pre.buffer[i], mid, self@);
                    }
                }
                assert forall|q: S4Vector| #[trigger]
                    self@.table.contains_key(q) && !pre.table.contains_key(q) implies exists|i: int|
                    0 <= i < pre.buffer.len() && (#[trigger] pre.buffer[i]).kind is Insert
                        && pre.buffer[i].s4vector == q by {
                    if !mid.table.contains_key(q) {
                        let j = choose|j: int|
                            0 <= j < mid.buffer.len() && (#[trigger] mid.buffer[j]).kind is Insert
                                && mid.buffer[j].s4vector == q;
                        assert(pre.buffer.contains(mid.buffer[j]));
                        let j2 = choose|j2: int|
                            0 <= j2 < pre.buffer.len() && pre.buffer[j2] == mid.buffer[j];
                        assert((#[trigger] pre.buffer[j2]).kind is Insert && pre.buffer[j2].s4vector
                            == q);
                    }
                }
                assert forall|q: S4Vector| #[trigger]
                    pre.table.contains_key(q) && self@.table[q].tombstone
                    != pre.table[q].tombstone implies exists|i: int|
                    0 <= i < pre.buffer.len() && (#[trigger] pre.buffer[i]).kind is Delete
                        && pre.buffer[i].s4vector == q by {
                    if mid.table[q].tombstone == pre.table[q].tombstone {
                        let j = choose|j: int|
                            0 <= j < mid.buffer.len() && (#[trigger] mid.buffer[j]).kind is Delete
                                && mid.buffer[j].s4vector == q;
                        assert(pre.buffer.contains(mid.buffer[j]));
                        let j2 = choose|j2: int|
                            0 <= j2 < pre.buffer.len() && pre.buffer[j2] == mid.buffer[j];
                        assert((#[trigger] pre.buffer[j2]).kind is Delete && pre.buffer[j2].s4vector
                            == q);
                    }
                }
                assert forall|q: S4Vector| #[trigger]
                    pre.table.contains_key(q) && self@.table[q].value != pre.table[q].value
                     implies exists|i: int|
                    0 <= i < pre.buffer.len() && (#[trigger] pre.buffer[i]).kind is Update
                        && pre.buffer[i].s4vector == q by {
                    if mid.table[q].value == pre.table[q].value {
                        let j = choose|j: int|
                            0 <= j < mid.buffer.len() && (#[trigger] mid.buffer[j]).kind is Update
                                && mid.buffer[j].s4vector == q;
                        assert(pre.buffer.contains(mid.buffer[j]));
                        let j2 = choose|j2: int|
                            0 <= j2 < pre.buffer.len() && pre.buffer[j2] == mid.buffer[j];
                        assert((#[trigger] pre.buffer[j2]).kind is Update && pre.buffer[j2].s4vector
                            == q);
                    }
                }
                assert(sweep_view(mid) == sweep_view(self@)) by {
                    assert(sweep_pass_view(cleared(mid), mid.buffer) == self@);
                    if !progress {
                        assert(self@ == mid);
                    }
                }
            }
            if !progress {
                proof {
                    assert(self@ == mid);
                    assert(quiescent(self@));
                    assert(sweep_view(self@) == self@) by {
                        assert(sweep_pass_view(cleared(self@), self@.buffer) == self@);
                    }
                }
                break ;
            }
        }
    }

    /// Parks an operation whose dependency is missing in the buffer.
    fn buffer_op(&mut self, op: Operation)
        requires
            old(self).inv(),
            quiescent(old(self)@),
            op_dep(op_view(op)) matches Some(d) && !old(self)@.table.contains_key(d),
            op.operation is Insert ==> op.value is Some,
        ensures
            final(self).wf(),
            final(self)@ == (RgaView {
                head: old(self)@.head,
                table: old(self)@.table,
                buffer: old(self)@.buffer.push(op_view(op)),
                session: old(self)@.session,
                site: old(self)@.site,
                seq: old(self)@.seq,
            }),
    {
        let ghost pre = self@;
        let ghost op_v = op_view(op);
        self.buffer.push(op);
        proof {
            assert(ops_view(self.buffer@) =~= pre.buffer.push(op_v));
            assert(self@ =~= (RgaView {
                head: pre.head,
                table: pre.table,
                buffer: pre.buffer.push(op_v),
                session: pre.session,
                site: pre.site,
                seq: pre.seq,
            }));
            assert(buffer_wf(self@.buffer)) by {
                assert(forall|i: int|
                    0 <= i < pre.buffer.len() ==> self@.buffer[i] == pre.buffer[i]);
                assert(self@.buffer.last() == op_v);
            }
            assert(quiescent(self@)) by {
                assert(forall|i: int|
                    0 <= i < pre.buffer.len() ==> self@.buffer[i] == pre.buffer[i]);
                assert(self@.buffer.last() == op_v);
            }
        }
    }

    /// Inserts a locally authored value. A fresh identifier is generated
    /// from the anchors — and is consumed even on failure, so it can never
    /// collide later. If the anchor the insert depends on is not present
    /// yet, the fully specified operation is buffered and
    /// `DependancyError` is returned; otherwise the element is spliced in,
    /// the buffer is swept, and an insert record is returned for
    /// broadcast.
    pub fn local_insert(
        &mut self,
        value: String,
        left: Option<S4Vector>,
        right: Option<S4Vector>,
    ) -> (r: Result<BroadcastOperation, OperationError>)
        requires
            old(self).wf(),
            old(self)@.seq < u64::MAX,
            match (left, right) {
                (Some(l), Some(rt)) => l.sum + rt.sum <= u64::MAX,
                (Some(l), None) => l.sum < u64::MAX,
                _ => true,
            },
        ensures
            final(self).wf(),
            final(self)@.session == old(self)@.session,
            final(self)@.site == old(self)@.site,
            final(self)@.seq == old(self)@.seq + 1,
            ({
                let id = generated(
                    left,
                    right,
                    old(self)@.session,
                    old(self)@.site,
                    (old(self)@.seq + 1) as u64,
                );
                let stepped = RgaView {
                    head: old(self)@.head,
                    table: old(self)@.table,
                    buffer: old(self)@.buffer,
                    session: old(self)@.session,
                    site: old(self)@.site,
                    seq: (old(self)@.seq + 1) as u64,
                };
                match r {
                    Err(e) => {
                        &&& e is DependancyError
                        &&& (insert_dep(left, right) matches Some(d) && !old(
                            self,
                        )@.table.contains_key(d))
                        &&& final(self)@ == (RgaView {
                            head: old(self)@.head,
                            table: old(self)@.table,
                            buffer: old(self)@.buffer.push(
                                OpView {
                                    kind: OperationType::Insert,
                                    s4vector: id,
                                    value: Some(value@),
                                    left,
                                    right,
                                },
                            ),
                            session: old(self)@.session,
                            site: old(self)@.site,
                            seq: (old(self)@.seq + 1) as u64,
                        })
                    },
                    Ok(rec) => {
                        &&& match insert_dep(left, right) {
                            Some(d) => old(self)@.table.contains_key(d),
                            None => true,
                        }
                        &&& sweep_post(insert_step(stepped, id, value@, left, right), final(self)@)
                        &&& final(self)@ == sweep_view(
                            insert_step(stepped, id, value@, left, right),
                        )
                        &&& final(self)@.table.contains_key(id)
                        &&& rec.operation is Insert
                        &&& rec.s4vector == id
                        &&& (rec.value matches Some(v) && v@ == final(self)@.table[id].value)
                        &&& rec.left == final(self)@.table[id].left
                        &&& rec.right == final(self)@.table[id].right
                    },
                }
            }),
    {
        let ghost v0 = self@;
        let new_s4 = match (&left, &right) {
            (Some(l), Some(rt)) => S4Vector::generate(
                Some(l),
                Some(rt),
                self.session_id,
                self.site_id,
                &mut self.local_sequence,
            ),
            (Some(l), None) => S4Vector::generate(
                Some(l),
                None,
                self.session_id,
                self.site_id,
                &mut self.local_sequence,
            ),
            (None, Some(rt)) => S4Vector::generate(
                None,
                Some(rt),
                self.session_id,
                self.site_id,
                &mut self.local_sequence,
            ),
            (None, None) => S4Vector::generate(
                None,
                None,
                self.session_id,
                self.site_id,
                &mut self.local_sequence,
            ),
        };
        let ghost stepped = RgaView {
            head: v0.head,
            table: v0.table,
            buffer: v0.buffer,
            session: v0.session,
            site: v0.site,
            seq: (v0.seq + 1) as u64,
        };
        proof {
            assert(new_s4 == generated(left, right, v0.session, v0.site, (v0.seq + 1) as u64));
            assert(self@ =~= stepped);
        }
        let dep_ok: bool = match (&left, &right) {
            (Some(l), _) => self.contains(l),
            (None, Some(rt)) => self.contains(rt),
            (None, None) => true,
        };
        if !dep_ok {
            let op = Operation {
                operation: OperationType::Insert,
                s4vector: new_s4,
                value: Some(value),
                left,
                right,
            };
            self.buffer_op(op);
            return Err(OperationError::DependancyError);
        }
        self.apply_insert(value, new_s4, left, right);
        self.apply_buffered_operations();
        match self.find(&new_s4) {
            Some(i) => {
                let rec_value = self.nodes[i].value.clone();
                Ok(
                    BroadcastOperation {
                        operation: OperationType::Insert,
                        s4vector: new_s4,
                        value: Some(rec_value),
                        left: self.nodes[i].left,
                        right: self.nodes[i].right,
                    },
                )
            },
            None => {
                proof {
                    assert(false);
                }
                Err(OperationError::DependancyError)
            },
        }
    }

    /// Marks the element with the given identifier as logically deleted.
    /// If the identifier is not present yet, a delete operation is
    /// buffered and `DependancyError` is returned; otherwise the element
    /// is tombstoned — idempotently: deleting an already tombstoned
    /// element is a no-op success — the buffer is swept, and a delete
    /// record is returned for broadcast.
    pub fn local_delete(&mut self, s4vector: S4Vector) -> (r: Result<
        BroadcastOperation,
        OperationError,
    >)
        requires
            old(self).wf(),
        ensures
            final(self).wf(),
            final(self)@.session == old(self)@.session,
            final(self)@.site == old(self)@.site,
            final(self)@.seq == old(self)@.seq,
            old(self)@.table.contains_key(s4vector) ==> {
                &&& r matches Ok(rec)
                &&& rec.operation is Delete
                &&& rec.s4vector == s4vector
                &&& rec.value is None
                &&& rec.left == old(self)@.table[s4vector].left
                &&& rec.right == old(self)@.table[s4vector].right
                &&& final(self)@ == delete_step(old(self)@, s4vector)
            },
            !old(self)@.table.contains_key(s4vector) ==> {
                &&& r matches Err(e) && e is DependancyError
                &&& final(self)@ == (RgaView {
                    head: old(self)@.head,
                    table: old(self)@.table,
                    buffer: old(self)@.buffer.push(
                        OpView {
                            kind: OperationType::Delete,
                            s4vector,
                            value: None,
                            left: None,
                            right: None,
                        },
                    ),
                    session: old(self)@.session,
                    site: old(self)@.site,
                    seq: old(self)@.seq,
                })
            },
    {
        let ghost v0 = self@;
        match self.find(&s4vector) {
            None => {
                let op = Operation {
                    operation: OperationType::Delete,
                    s4vector,
                    value: None,
                    left: None,
                    right: None,
                };
                self.buffer_op(op);
                Err(OperationError::DependancyError)
            },
            Some(i) => {
                let rec_left = self.nodes[i].left;
                let rec_right = self.nodes[i].right;
                self.apply_delete(s4vector);
                proof {
                    lemma_delete_step_extends(v0, s4vector);
                    assert(quiescent(self@));
                }
                self.apply_buffered_operations();
                Ok(
                    BroadcastOperation {
                        operation: OperationType::Delete,
                        s4vector,
                        value: None,
                        left: rec_left,
                        right: rec_right,
                    },
                )
            },
        }
    }

    /// Replaces the payload of the element with the given identifier. If
    /// the identifier is not present yet, an update operation is buffered
    /// and `DependancyError` is returned. A tombstoned element's payload
    /// is frozen: the update is silently dropped, and the returned record
    /// carries the payload the element actually has afterwards.
    pub fn local_update(&mut self, s4vector: S4Vector, value: String) -> (r: Result<
        BroadcastOperation,
        OperationError,
    >)
        requires
            old(self).wf(),
        ensures
            final(self).wf(),
            final(self)@.session == old(self)@.session,
            final(self)@.site == old(self)@.site,
            final(self)@.seq == old(self)@.seq,
            old(self)@.table.contains_key(s4vector) ==> {
                &&& r matches Ok(rec)
                &&& rec.operation is Update
                &&& rec.s4vector == s4vector
                &&& final(self)@ == update_step(old(self)@, s4vector, value@)
                &&& (rec.value matches Some(v) && v@ == final(self)@.table[s4vector].value)
                &&& rec.left == final(self)@.table[s4vector].left
                &&& rec.right == final(self)@.table[s4vector].right
            },
            !old(self)@.table.contains_key(s4vector) ==> {
                &&& r matches Err(e) && e is DependancyError
                &&& final(self)@ == (RgaView {
                    head: old(self)@.head,
                    table: old(self)@.table,
                    buffer: old(self)@.buffer.push(
                        OpView {
                            kind: OperationType::Update,
                            s4vector,
                            value: Some(value@),
                            left: None,
                            right: None,
                        },
                    ),
                    session: old(self)@.session,
                    site: old(self)@.site,
                    seq: old(self)@.seq,
                })
            },
    {
        let ghost v0 = self@;
        match self.find(&s4vector) {
            None => {
                let op = Operation {
                    operation: OperationType::Update,
                    s4vector,
                    value: Some(value),
                    left: None,
                    right: None,
                };
                self.buffer_op(op);
                Err(OperationError::DependancyError)
            },
            Some(_) => {
                self.apply_update(s4vector, value);
                proof {
                    lemma_update_step_extends(v0, s4vector, value@);
                    assert(quiescent(self@));
                }
                self.apply_buffered_operations();
                match self.find(&s4vector) {
                    Some(j) => {
                        let rec_value = self.nodes[j].value.clone();
                        Ok(
                            BroadcastOperation {
                                operation: OperationType::Update,
                                s4vector,
                                value: Some(rec_value),
                                left: self.nodes[j].left,
                                right: self.nodes[j].right,
                            },
                        )
                    },
                    None => {
                        proof {
                            assert(false);
                        }
                        Err(OperationError::DependancyError)
                    },
                }
            },
        }
    }

    /// Applies an insert authored by another replica. Redelivery of a
    /// known identifier is an explicit no-op, so remote application is
    /// idempotent. If the anchor the insert depends on has not arrived
    /// yet, the operation is buffered and retried once it has; otherwise
    /// the element is spliced in with the same placement walk as a local
    /// insert — which makes concurrent inserts commute — and the buffer is
    /// swept.
    pub fn remote_insert(
        &mut self,
        value: String,
        s4vector: S4Vector,
        left: Option<S4Vector>,
        right: Option<S4Vector>,
    )
        requires
            old(self).wf(),
        ensures
            final(self).wf(),
            final(self)@.session == old(self)@.session,
            final(self)@.site == old(self)@.site,
            final(self)@.seq == old(self)@.seq,
            old(self)@.table.contains_key(s4vector) ==> final(self)@ == old(self)@,
            !old(self)@.table.contains_key(s4vector) ==> match insert_dep(left, right) {
                Some(d) => {
                    if old(self)@.table.contains_key(d) {
                        &&& sweep_post(
                            insert_step(old(self)@, s4vector, value@, left, right),
                            final(self)@,
                        )
                        &&& final(self)@ == sweep_view(
                            insert_step(old(self)@, s4vector, value@, left, right),
                        )
                        &&& final(self)@.table.contains_key(s4vector)
                    } else {
                        final(self)@ == (RgaView {
                            head: old(self)@.head,
                            table: old(self)@.table,
                            buffer: old(self)@.buffer.push(
                                OpView {
                                    kind: OperationType::Insert,
                                    s4vector,
                                    value: Some(value@),
                                    left,
                                    right,
                                },
                            ),
                            session: old(self)@.session,
                            site: old(self)@.site,
                            seq: old(self)@.seq,
                        })
                    }
                },
                None => {
                    &&& sweep_post(
                        insert_step(old(self)@, s4vector, value@, left, right),
                        final(self)@,
                    )
                    &&& final(self)@ == sweep_view(
                        insert_step(old(self)@, s4vector, value@, left, right),
                    )
                    &&& final(self)@.table.contains_key(s4vector)
                },
            },
    {
        if self.contains(&s4vector) {
            return ;
        }
        let dep_ok: bool = match (&left, &right) {
            (Some(l), _) => self.contains(l),
            (None, Some(rt)) => self.contains(rt),
            (None, None) => true,
        };
        if !dep_ok {
            let op = Operation {
                operation: OperationType::Insert,
                s4vector,
                value: Some(value),
                left,
                right,
            };
            self.buffer_op(op);
            return ;
        }
        self.apply_insert(value, s4vector, left, right);
        self.apply_buffered_operations();
    }

    /// Applies a delete authored by another replica. A delete whose target
    /// has not arrived yet is silently dropped — an accepted design
    /// choice: such a delete is not buffered, so one discovered out of
    /// causal order can be lost. A present target is tombstoned,
    /// idempotently, and the buffer is swept.
    pub fn remote_delete(&mut self, s4vector: S4Vector)
        requires
            old(self).wf(),
        ensures
            final(self).wf(),
            final(self)@.session == old(self)@.session,
            final(self)@.site == old(self)@.site,
            final(self)@.seq == old(self)@.seq,
            old(self)@.table.contains_key(s4vector) ==> final(self)@ == delete_step(
                old(self)@,
                s4vector,
            ),
            !old(self)@.table.contains_key(s4vector) ==> final(self)@ == old(self)@,
    {
        let ghost v0 = self@;
        match self.find(&s4vector) {
            None => {},
            Some(_) => {
                self.apply_delete(s4vector);
                proof {
                    lemma_delete_step_extends(v0, s4vector);
                    assert(quiescent(self@));
                }
                self.apply_buffered_operations();
            },
        }
    }

    /// Applies an update authored by another replica. An update whose
    /// target has not arrived yet is a dependency gap: the operation is
    /// buffered — symmetric with inserts — and retried once the target
    /// arrives. A tombstoned target's payload is frozen; otherwise the
    /// payload is replaced and the buffer is swept.
    pub fn remote_update(&mut self, s4vector: S4Vector, value: String)
        requires
            old(self).wf(),
        ensures
            final(self).wf(),
            final(self)@.session == old(self)@.session,
            final(self)@.site == old(self)@.site,
            final(self)@.seq == old(self)@.seq,
            old(self)@.table.contains_key(s4vector) ==> final(self)@ == update_step(
                old(self)@,
                s4vector,
                value@,
            ),
            !old(self)@.table.contains_key(s4vector) ==> final(self)@ == (RgaView {
                head: old(self)@.head,
                table: old(self)@.table,
                buffer: old(self)@.buffer.push(
                    OpView {
                        kind: OperationType::Update,
                        s4vector,
                        value: Some(value@),
                        left: None,
                        right: None,
                    },
                ),
                session: old(self)@.session,
                site: old(self)@.site,
                seq: old(self)@.seq,
            }),
    {
        let ghost v0 = self@;
        match self.find(&s4vector) {
            None => {
                let op = Operation {
                    operation: OperationType::Update,
                    s4vector,
                    value: Some(value),
                    left: None,
                    right: None,
                };
                self.buffer_op(op);
            },
            Some(_) => {
                self.apply_update(s4vector, value);
                proof {
                    lemma_update_step_extends(v0, s4vector, value@);
                    assert(quiescent(self@));
                }
                self.apply_buffered_operations();
            },
        }
    }

    /// The current visible sequence: walks the chain from the head
    /// following `right` links, collecting the payload of every element
    /// that is not tombstoned. The walk stops at a missing link
    /// (defensively — that would mean a broken chain) and takes at most
    /// one step per table entry. The snapshot is deterministic and
    /// repeatable.
    pub fn read(&self) -> (r: Vec<String>)
        requires
            self.inv(),
        ensures
            r@.map_values(|s: String| s@) == read_view(self@),
    {
        let ghost t = self@.table;
        let ghost fuel0 = t.dom().len();
        let mut result: Vec<String> = Vec::new();
        let mut cur_opt: Option<S4Vector> = self.head;
        let mut fuel: usize = self.nodes.len();
        proof {
            lemma_map_of_len(self.nodes@);
            assert(result@.map_values(|s: String| s@) =~= Seq::<Seq<char>>::empty());
        }
        loop
            invariant
                self.inv(),
                t == self@.table,
                fuel as nat <= fuel0,
                result@.map_values(|s: String| s@) + walk_read(t, cur_opt, fuel as nat)
                    == walk_read(t, self@.head, fuel0),
            ensures
                result@.map_values(|s: String| s@) == walk_read(t, self@.head, fuel0),
            decreases fuel,
        {
            let c = match cur_opt {
                Some(c) => c,
                None => {
                    proof {
                        assert(result@.map_values(|s: String| s@) + walk_read(
                            t,
                            cur_opt,
                            fuel as nat,
                        ) =~= result@.map_values(|s: String| s@));
                    }
                    break ;
                },
            };
            let i = match self.find(&c) {
                Some(i) => i,
                None => {
                    proof {
                        assert(walk_read(t, cur_opt, fuel as nat) =~= Seq::<Seq<char>>::empty());
                        assert(result@.map_values(|s: String| s@) + walk_read(
                            t,
                            cur_opt,
                            fuel as nat,
                        ) =~= result@.map_values(|s: String| s@));
                    }
                    break ;
                },
            };
            if fuel == 0 {
                proof {
                    assert(walk_read(t, cur_opt, fuel as nat) =~= Seq::<Seq<char>>::empty());
                    assert(result@.map_values(|s: String| s@) + walk_read(t, cur_opt, fuel as nat)
                        =~= result@.map_values(|s: String| s@));
                }
                break ;
            }
            let ghost before = result@;
            let ghost rest = walk_read(t, t[c].right, (fuel - 1) as nat);
            proof {
                assert(t[c] == model_of(self.nodes@[i as int]));
            }
            if !self.nodes[i].tombstone {
                result.push(self.nodes[i].value.clone());
                proof {
                    assert(result@.map_values(|s: String| s@) =~= before.map_values(
                        |s: String| s@,
                    ).push(t[c].value));
                    assert(walk_read(t, cur_opt, fuel as nat) == seq![t[c].value] + rest);
                    assert(before.map_values(|s: String| s@) + (seq![t[c].value] + rest)
                        =~= before.map_values(|s: String| s@).push(t[c].value) + rest);
                }
            } else {
                proof {
                    assert(walk_read(t, cur_opt, fuel as nat) == rest);
                }
            }
            cur_opt = self.nodes[i].right;
            fuel = fuel - 1;
        }
        result
    }
}

} // verus!

//! The identifier scheme: an immutable 4-tuple with a strict lexicographic
//! total order, used both to place elements and to break ties between
//! concurrent inserts deterministically.

use vstd::prelude::*;

verus! {

/// Identifies one operation/element of the replicated sequence.
///
/// The 4-tuple is globally unique: `sid` and `seq` alone are unique per
/// replica (`seq` increases by one for every locally generated identifier),
/// and `ssn` scopes independent collaboration sessions.
#[derive(Debug, Clone, Copy, PartialEq, Eq, Structural, Hash, Ord)]
pub struct S4Vector {
    /// Session identifier, scoping a collaboration context.
    pub ssn: u64,
    /// Logical-clock-derived position value.
    pub sum: u64,
    /// Site identifier of the replica that created the identifier.
    pub sid: u64,
    /// Per-replica monotonically increasing counter.
    pub seq: u64,
}

/// The strict total order on identifiers: lexicographic by `ssn`, then
/// `sum`, then `sid`, then `seq`.
pub open spec fn s4_lt(a: S4Vector, b: S4Vector) -> bool {
    ||| a.ssn < b.ssn
    ||| (a.ssn == b.ssn && a.sum < b.sum)
    ||| (a.ssn == b.ssn && a.sum == b.sum && a.sid < b.sid)
    ||| (a.ssn == b.ssn && a.sum == b.sum && a.sid == b.sid && a.seq < b.seq)
}

/// The `sum` component of a fresh identifier, computed from the neighbor
/// sums: the truncated average when both neighbors are given, one past the
/// left sum when appending, half the right sum when prepending, and 1 for
/// the very first element.
pub open spec fn new_sum(left: Option<S4Vector>, right: Option<S4Vector>) -> int {
    match (left, right) {
        (Some(l), Some(r)) => (l.sum + r.sum) / 2,
        (Some(l), None) => l.sum + 1,
        (None, Some(r)) => r.sum as int / 2,
        (None, None) => 1,
    }
}

/// The identifier that `S4Vector::generate` produces for the given
/// neighbors, session, site and (already incremented) sequence number.
pub open spec fn generated(
    left: Option<S4Vector>,
    right: Option<S4Vector>,
    ssn: u64,
    sid: u64,
    seq: u64,
) -> S4Vector {
    S4Vector { ssn, sum: new_sum(left, right) as u64, sid, seq }
}

/// The value an `Option<&S4Vector>` refers to, as an owned option.
pub open spec fn copied(o: Option<&S4Vector>) -> Option<S4Vector> {
    match o {
        Some(x) => Some(*x),
        None => None,
    }
}

impl PartialOrd for S4Vector {
    fn partial_cmp(&self, other: &Self) -> Option<core::cmp::Ordering> {
        if self.ssn != other.ssn {
            if self.ssn < other.ssn {
                Some(core::cmp::Ordering::Less)
            } else {
                Some(core::cmp::Ordering::Greater)
            }
        } else if self.sum != other.sum {
            if self.sum < other.sum {
                Some(core::cmp::Ordering::Less)
            } else {
                Some(core::cmp::Ordering::Greater)
            }
        } else if self.sid != other.sid {
            if self.sid < other.sid {
                Some(core::cmp::Ordering::Less)
            } else {
                Some(core::cmp::Ordering::Greater)
            }
        } else if self.seq != other.seq {
            if self.seq < other.seq {
                Some(core::cmp::Ordering::Less)
            } else {
                Some(core::cmp::Ordering::Greater)
            }
        } else {
            Some(core::cmp::Ordering::Equal)
        }
    }
}

impl vstd::std_specs::cmp::PartialOrdSpecImpl for S4Vector {
    open spec fn obeys_partial_cmp_spec() -> bool {
        true
    }

    open spec fn partial_cmp_spec(&self, other: &Self) -> Option<core::cmp::Ordering> {
        if s4_lt(*self, *other) {
            Some(core::cmp::Ordering::Less)
        } else if s4_lt(*other, *self) {
            Some(core::cmp::Ordering::Greater)
        } else {
            Some(core::cmp::Ordering::Equal)
        }
    }
}

impl S4Vector {
    /// True exactly when `self` comes strictly before `other` in the
    /// identifier order.
    pub fn precedes(&self, other: &S4Vector) -> (r: bool)
        ensures
            r == s4_lt(*self, *other),
    {
        if self.ssn != other.ssn {
            self.ssn < other.ssn
        } else if self.sum != other.sum {
            self.sum < other.sum
        } else if self.sid != other.sid {
            self.sid < other.sid
        } else {
            self.seq < other.seq
        }
    }

    /// Generates a fresh identifier: increments the local sequence counter
    /// and derives `sum` from the neighbors per `new_sum`.
    pub fn generate(
        left: Option<&S4Vector>,
        right: Option<&S4Vector>,
        current_session: u64,
        local_site: u64,
        local_sequence: &mut u64,
    ) -> (r: S4Vector)
        requires
            *old(local_sequence) < u64::MAX,
            match (copied(left), copied(right)) {
                (Some(l), Some(r)) => l.sum + r.sum <= u64::MAX,
                (Some(l), None) => l.sum < u64::MAX,
                _ => true,
            },
        ensures
            *final(local_sequence) == *old(local_sequence) + 1,
            r == generated(
                copied(left),
                copied(right),
                current_session,
                local_site,
                *final(local_sequence),
            ),
    {
        *local_sequence = *local_sequence + 1;

        let new_sum_value: u64 = match (left, right) {
            (Some(l), Some(r)) => (l.sum + r.sum) / 2,
            (Some(l), None) => l.sum + 1,
            (None, Some(r)) => r.sum / 2,
            (None, None) => 1,
        };

        S4Vector { ssn: current_session, sum: new_sum_value, sid: local_site, seq: *local_sequence }
    }
}

/// Law: identifiers generated by distinct replicas, or by one replica at
/// distinct points of its sequence counter, never collide — whatever the
/// neighbors or sessions were.
pub proof fn lemma_identifier_uniqueness(
    l1: Option<S4Vector>,
    r1: Option<S4Vector>,
    ssn1: u64,
    sid1: u64,
    seq1: u64,
    l2: Option<S4Vector>,
    r2: Option<S4Vector>,
    ssn2: u64,
    sid2: u64,
    seq2: u64,
)
    requires
        sid1 != sid2 || seq1 != seq2,
    ensures
        generated(l1, r1, ssn1, sid1, seq1) != generated(l2, r2, ssn2, sid2, seq2),
{
}

/// Law: the identifier order is irreflexive.
pub proof fn lemma_order_irreflexive(a: S4Vector)
    ensures
        !s4_lt(a, a),
{
}

/// Law: the identifier order is total and antisymmetric — any two distinct
/// identifiers are ordered, and never both ways.
pub proof fn lemma_order_total(a: S4Vector, b: S4Vector)
    ensures
        a == b || s4_lt(a, b) || s4_lt(b, a),
        !(s4_lt(a, b) && s4_lt(b, a)),
        s4_lt(a, b) ==> a != b,
{
}

/// Law: the identifier order is transitive.
pub proof fn lemma_order_transitive(a: S4Vector, b: S4Vector, c: S4Vector)
    requires
        s4_lt(a, b),
        s4_lt(b, c),
    ensures
        s4_lt(a, c),
{
}

} // verus!

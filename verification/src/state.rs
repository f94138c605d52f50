//! The per-replica consensus state that is persisted across restarts, and
//! small verified helpers over it.

use vstd::prelude::*;
use crate::msg::PBFTMessage;

verus! {

/// Two accumulated Prepare or Commit messages carry the same information.
pub open spec fn same_pc(a: PBFTMessage, b: PBFTMessage) -> bool {
    match (a, b) {
        (
            PBFTMessage::Prepare { view: v1, sequence_number: s1, digest: d1, sender_id: n1 },
            PBFTMessage::Prepare { view: v2, sequence_number: s2, digest: d2, sender_id: n2 },
        ) => v1 == v2 && s1 == s2 && d1@ == d2@ && n1 == n2,
        (
            PBFTMessage::Commit { view: v1, sequence_number: s1, digest: d1 },
            PBFTMessage::Commit { view: v2, sequence_number: s2, digest: d2 },
        ) => v1 == v2 && s1 == s2 && d1@ == d2@,
        _ => false,
    }
}

/// Two ViewChange messages carry the same information.
pub open spec fn same_vc(a: PBFTMessage, b: PBFTMessage) -> bool {
    match (a, b) {
        (
            PBFTMessage::ViewChange { view: v1, last_sequence_number: s1, node_id: n1 },
            PBFTMessage::ViewChange { view: v2, last_sequence_number: s2, node_id: n2 },
        ) => v1 == v2 && s1 == s2 && n1 == n2,
        _ => false,
    }
}

/// Two accumulated message entries are the same: same authenticated sender,
/// same message content.
pub open spec fn same_entry(a: (u64, PBFTMessage), b: (u64, PBFTMessage)) -> bool {
    a.0 == b.0 && same_pc(a.1, b.1)
}

/// A `(sequence number, digest)` pair is recorded in a prepared or
/// committed list.
pub open spec fn has_pair(v: Seq<(u64, Vec<u8>)>, s: u64, d: Seq<u8>) -> bool {
    exists|i: int| 0 <= i < v.len() && v[i].0 == s && v[i].1@ == d
}

/// The consensus state a replica persists: what it has prepared and
/// committed, the Prepare and Commit messages accumulated for quorum
/// evaluation (each with its authenticated sender), the ViewChange
/// messages gathered for the next view, and the accusation tallies.
///
/// All five components have set semantics: insertion is idempotent.
#[verifier::ext_equal]
pub struct NodeState {
    /// `(sequence number, digest)` pairs with a Prepare quorum.
    pub prepared: Vec<(u64, Vec<u8>)>,
    /// `(sequence number, digest)` pairs with a Commit quorum.
    pub committed: Vec<(u64, Vec<u8>)>,
    /// Accumulated Prepare and Commit messages, each under the sender the
    /// envelope authenticated.
    pub messages: Vec<(u64, PBFTMessage)>,
    /// Accumulated ViewChange messages.
    pub view_change_messages: Vec<PBFTMessage>,
    /// For each suspected replica, the distinct accusers observed.
    pub byzantine_votes: Vec<(u64, Vec<u64>)>,
}

/// Well-formedness of persisted state: every list is duplicate-free, the
/// accumulated messages are Prepares or Commits, the view-change list holds
/// ViewChanges, the accusation map has one row per suspect, and everything
/// committed is prepared.
pub open spec fn state_wf(st: NodeState) -> bool {
    &&& forall|i: int, j: int|
        0 <= i < j < st.messages@.len() ==> !same_entry(st.messages@[i], st.messages@[j])
    &&& forall|i: int|
        0 <= i < st.messages@.len() ==> (st.messages@[i].1 is Prepare || st.messages@[i].1
            is Commit)
    &&& forall|i: int, j: int|
        0 <= i < j < st.view_change_messages@.len() ==> !same_vc(
            st.view_change_messages@[i],
            st.view_change_messages@[j],
        )
    &&& forall|i: int| 0 <= i < st.view_change_messages@.len() ==> st.view_change_messages@[i]
        is ViewChange
    &&& forall|i: int, j: int|
        0 <= i < j < st.prepared@.len() ==> !(st.prepared@[i].0 == st.prepared@[j].0
            && st.prepared@[i].1@ == st.prepared@[j].1@)
    &&& forall|i: int, j: int|
        0 <= i < j < st.committed@.len() ==> !(st.committed@[i].0 == st.committed@[j].0
            && st.committed@[i].1@ == st.committed@[j].1@)
    &&& forall|i: int|
        0 <= i < st.committed@.len() ==> has_pair(
            st.prepared@,
            st.committed@[i].0,
            st.committed@[i].1@,
        )
    &&& forall|i: int, j: int|
        0 <= i < j < st.byzantine_votes@.len() ==> st.byzantine_votes@[i].0
            != st.byzantine_votes@[j].0
    &&& forall|i: int| 0 <= i < st.byzantine_votes@.len() ==> st.byzantine_votes@[i].1@
        .no_duplicates()
}

impl NodeState {
    /// The state of a replica that has never run: everything empty. A boot
    /// with no durable state starts here.
    pub fn empty() -> (r: NodeState)
        ensures
            state_wf(r),
            r.prepared@.len() == 0,
            r.committed@.len() == 0,
            r.messages@.len() == 0,
            r.view_change_messages@.len() == 0,
            r.byzantine_votes@.len() == 0,
    {
        NodeState {
            prepared: Vec::new(),
            committed: Vec::new(),
            messages: Vec::new(),
            view_change_messages: Vec::new(),
            byzantine_votes: Vec::new(),
        }
    }
}

/// Byte-string equality.
pub fn bytes_eq(a: &Vec<u8>, b: &Vec<u8>) -> (r: bool)
    ensures
        r == (a@ == b@),
{
    if a.len() != b.len() {
        proof {
            assert(a@.len() != b@.len());
        }
        return false;
    }
    let n = a.len();
    let mut i: usize = 0;
    while i < n
        invariant
            i <= n,
            n == a@.len(),
            n == b@.len(),
            forall|k: int| 0 <= k < i ==> a@[k] == b@[k],
        decreases n - i,
    {
        if a[i] != b[i] {
            return false;
        }
        i = i + 1;
    }
    proof {
        assert(a@ =~= b@);
    }
    true
}

/// Whether a list of identifiers holds `x`.
pub fn contains_u64(v: &Vec<u64>, x: u64) -> (r: bool)
    ensures
        r == v@.contains(x),
{
    let n = v.len();
    let mut i: usize = 0;
    while i < n
        invariant
            i <= n,
            n == v@.len(),
            forall|k: int| 0 <= k < i ==> v@[k] != x,
        decreases n - i,
    {
        if v[i] == x {
            proof {
                assert(v@.contains(x));
            }
            return true;
        }
        i = i + 1;
    }
    false
}

/// A copy of a byte string.
pub fn copy_bytes(v: &Vec<u8>) -> (r: Vec<u8>)
    ensures
        r@ == v@,
{
    let n = v.len();
    let mut out: Vec<u8> = Vec::new();
    let mut i: usize = 0;
    while i < n
        invariant
            i <= n,
            n == v@.len(),
            out@ == v@.subrange(0, i as int),
        decreases n - i,
    {
        out.push(v[i]);
        proof {
            assert(out@ =~= v@.subrange(0, i + 1 as int));
        }
        i = i + 1;
    }
    proof {
        assert(v@.subrange(0, n as int) =~= v@);
    }
    out
}

/// Records `(s, d)` in a prepared or committed list unless an equal pair is
/// already there.
pub fn insert_pair(v: &mut Vec<(u64, Vec<u8>)>, s: u64, d: Vec<u8>)
    ensures
        final(v)@ == if has_pair(old(v)@, s, d@) {
            old(v)@
        } else {
            old(v)@.push((s, d))
        },
{
    let n = v.len();
    let mut i: usize = 0;
    while i < n
        invariant
            i <= n,
            n == v@.len(),
            *v == *old(v),
            forall|k: int| 0 <= k < i ==> !(v@[k].0 == s && v@[k].1@ == d@),
        decreases n - i,
    {
        if v[i].0 == s && bytes_eq(&v[i].1, &d) {
            proof {
                assert(has_pair(v@, s, d@));
            }
            return ;
        }
        i = i + 1;
    }
    proof {
        assert(!has_pair(v@, s, d@));
    }
    v.push((s, d));
}

/// Whether the pair list holds `(s, d)`.
pub fn contains_pair(v: &Vec<(u64, Vec<u8>)>, s: u64, d: &Vec<u8>) -> (r: bool)
    ensures
        r == has_pair(v@, s, d@),
{
    let n = v.len();
    let mut i: usize = 0;
    while i < n
        invariant
            i <= n,
            n == v@.len(),
            forall|k: int| 0 <= k < i ==> !(v@[k].0 == s && v@[k].1@ == d@),
        decreases n - i,
    {
        if v[i].0 == s && bytes_eq(&v[i].1, d) {
            proof {
                assert(has_pair(v@, s, d@));
            }
            return true;
        }
        i = i + 1;
    }
    false
}

} // verus!

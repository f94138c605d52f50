//! The durable-state schema: rebuilding a well-formed consensus state
//! from the plain values a durable blob holds. Reading and writing the
//! blob itself is the surrounding process's business; the schema logic —
//! decoding messages from their canonical bytes, set semantics, and the
//! committed-implies-prepared discipline — lives here, verified.

use vstd::prelude::*;
use crate::codec::decode_message;
use crate::msg::PBFTMessage;
use crate::state::{
    contains_pair, contains_u64, copy_bytes, has_pair, insert_pair, state_wf, NodeState,
};
use crate::node::{insert_entry, insert_vc};

verus! {

/// Scanning one more pair extends what the prefix holds by that pair.
proof fn lemma_has_pair_extend(v: Seq<(u64, Vec<u8>)>, i: int)
    requires
        0 <= i < v.len(),
    ensures
        forall|s: u64, d: Seq<u8>|
            #[trigger] has_pair(v.subrange(0, i + 1), s, d) <==> has_pair(v.subrange(0, i), s, d)
                || (v[i].0 == s && v[i].1@ == d),
{
    let a = v.subrange(0, i);
    let b = v.subrange(0, i + 1);
    assert forall|s: u64, d: Seq<u8>| #[trigger] has_pair(b, s, d) implies has_pair(a, s, d) || (
    v[i].0 == s && v[i].1@ == d) by {
        let j = choose|j: int| 0 <= j < b.len() && b[j].0 == s && b[j].1@ == d;
        if j < i {
            assert(a[j] == b[j]);
        } else {
            assert(b[j] == v[i]);
        }
    }
    assert forall|s: u64, d: Seq<u8>|
        has_pair(a, s, d) || (v[i].0 == s && v[i].1@ == d) implies #[trigger] has_pair(
        b,
        s,
        d,
    ) by {
        if has_pair(a, s, d) {
            let j = choose|j: int| 0 <= j < a.len() && a[j].0 == s && a[j].1@ == d;
            assert(b[j] == a[j]);
        } else {
            assert(b[i] == v[i]);
        }
    }
}

/// Rebuilds a well-formed persisted state from the plain values read from
/// the durable blob: accumulated messages decoded from their canonical
/// bytes, every component deduplicated, entries that are no protocol
/// messages dropped, and committed restricted to what is prepared.
pub fn from_parts(
    prepared: &Vec<(u64, Vec<u8>)>,
    committed: &Vec<(u64, Vec<u8>)>,
    messages: &Vec<(u64, Vec<u8>)>,
    view_change_messages: &Vec<Vec<u8>>,
    byzantine_votes: &Vec<(u64, Vec<u64>)>,
) -> (r: NodeState)
    ensures
        state_wf(r),
        forall|s: u64, d: Seq<u8>|
            #[trigger] has_pair(r.prepared@, s, d) <==> has_pair(prepared@, s, d),
        forall|s: u64, d: Seq<u8>|
            #[trigger] has_pair(r.committed@, s, d) <==> has_pair(committed@, s, d) && has_pair(
                prepared@,
                s,
                d,
            ),
{
    let mut st = NodeState::empty();

    let n = prepared.len();
    let mut i: usize = 0;
    while i < n
        invariant
            i <= n,
            n == prepared@.len(),
            st.committed@.len() == 0,
            st.messages@.len() == 0,
            st.view_change_messages@.len() == 0,
            st.byzantine_votes@.len() == 0,
            forall|a: int, b: int|
                0 <= a < b < st.prepared@.len() ==> !(st.prepared@[a].0 == st.prepared@[b].0
                    && st.prepared@[a].1@ == st.prepared@[b].1@),
            forall|s: u64, d: Seq<u8>|
                #[trigger] has_pair(st.prepared@, s, d) <==> has_pair(
                    prepared@.subrange(0, i as int),
                    s,
                    d,
                ),
        decreases n - i,
    {
        proof {
            lemma_has_pair_extend(prepared@, i as int);
        }
        let s = prepared[i].0;
        let d = copy_bytes(&prepared[i].1);
        let ghost pre = st.prepared@;
        let ghost dd = d@;
        insert_pair(&mut st.prepared, s, d);
        proof {
            if !has_pair(pre, s, dd) {
                assert(st.prepared@.subrange(0, pre.len() as int) =~= pre);
                assert forall|a: int, b: int|
                    0 <= a < b < st.prepared@.len() implies !(st.prepared@[a].0
                    == st.prepared@[b].0 && st.prepared@[a].1@ == st.prepared@[b].1@) by {
                    assert(st.prepared@[a] == pre[a]);
                    if b < pre.len() {
                        assert(st.prepared@[b] == pre[b]);
                    }
                }
                assert forall|s2: u64, d2: Seq<u8>| #[trigger] has_pair(st.prepared@, s2, d2)
                    implies has_pair(pre, s2, d2) || (s2 == s && d2 == dd) by {
                    let j = choose|j: int|
                        0 <= j < st.prepared@.len() && st.prepared@[j].0 == s2
                            && st.prepared@[j].1@ == d2;
                    if j < pre.len() {
                        assert(pre[j] == st.prepared@[j]);
                    }
                }
                assert forall|s2: u64, d2: Seq<u8>|
                    has_pair(pre, s2, d2) || (s2 == s && d2 == dd) implies #[trigger] has_pair(
                    st.prepared@,
                    s2,
                    d2,
                ) by {
                    if has_pair(pre, s2, d2) {
                        let j = choose|j: int|
                            0 <= j < pre.len() && pre[j].0 == s2 && pre[j].1@ == d2;
                        assert(st.prepared@[j] == pre[j]);
                    } else {
                        assert(st.prepared@.last().0 == s && st.prepared@.last().1@ == dd);
                    }
                }
            }
        }
        i = i + 1;
    }
    proof {
        assert(prepared@.subrange(0, n as int) =~= prepared@);
    }
    let ghost prep_done = st.prepared@;

    let n = committed.len();
    let mut i: usize = 0;
    while i < n
        invariant
            i <= n,
            n == committed@.len(),
            st.prepared@ == prep_done,
            st.messages@.len() == 0,
            st.view_change_messages@.len() == 0,
            st.byzantine_votes@.len() == 0,
            forall|a: int, b: int|
                0 <= a < b < st.prepared@.len() ==> !(st.prepared@[a].0 == st.prepared@[b].0
                    && st.prepared@[a].1@ == st.prepared@[b].1@),
            forall|s: u64, d: Seq<u8>|
                #[trigger] has_pair(st.prepared@, s, d) <==> has_pair(prepared@, s, d),
            forall|a: int, b: int|
                0 <= a < b < st.committed@.len() ==> !(st.committed@[a].0 == st.committed@[b].0
                    && st.committed@[a].1@ == st.committed@[b].1@),
            forall|a: int|
                0 <= a < st.committed@.len() ==> has_pair(
                    st.prepared@,
                    st.committed@[a].0,
                    st.committed@[a].1@,
                ),
            forall|s: u64, d: Seq<u8>|
                #[trigger] has_pair(st.committed@, s, d) <==> has_pair(
                    committed@.subrange(0, i as int),
                    s,
                    d,
                ) && has_pair(prepared@, s, d),
        decreases n - i,
    {
        proof {
            lemma_has_pair_extend(committed@, i as int);
        }
        let s = committed[i].0;
        let d = copy_bytes(&committed[i].1);
        let ghost pre = st.committed@;
        let ghost dd = d@;
        if contains_pair(&st.prepared, s, &d) {
            insert_pair(&mut st.committed, s, d);
            proof {
                if !has_pair(pre, s, dd) {
                    assert(st.committed@.subrange(0, pre.len() as int) =~= pre);
                    assert forall|a: int, b: int|
                        0 <= a < b < st.committed@.len() implies !(st.committed@[a].0
                        == st.committed@[b].0 && st.committed@[a].1@ == st.committed@[b].1@) by {
                        assert(st.committed@[a] == pre[a]);
                        if b < pre.len() {
                            assert(st.committed@[b] == pre[b]);
                        }
                    }
                    assert forall|a: int|
                        0 <= a < st.committed@.len() implies has_pair(
                        st.prepared@,
                        st.committed@[a].0,
                        st.committed@[a].1@,
                    ) by {
                        if a < pre.len() {
                            assert(st.committed@[a] == pre[a]);
                        }
                    }
                    assert forall|s2: u64, d2: Seq<u8>| #[trigger] has_pair(st.committed@, s2, d2)
                        implies has_pair(pre, s2, d2) || (s2 == s && d2 == dd) by {
                        let j = choose|j: int|
                            0 <= j < st.committed@.len() && st.committed@[j].0 == s2
                                && st.committed@[j].1@ == d2;
                        if j < pre.len() {
                            assert(pre[j] == st.committed@[j]);
                        }
                    }
                    assert forall|s2: u64, d2: Seq<u8>|
                        has_pair(pre, s2, d2) || (s2 == s && d2 == dd) implies #[trigger] has_pair(
                        st.committed@,
                        s2,
                        d2,
                    ) by {
                        if has_pair(pre, s2, d2) {
                            let j = choose|j: int|
                                0 <= j < pre.len() && pre[j].0 == s2 && pre[j].1@ == d2;
                            assert(st.committed@[j] == pre[j]);
                        } else {
                            assert(st.committed@.last().0 == s && st.committed@.last().1@ == dd);
                        }
                    }
                }
            }
        }
        i = i + 1;
    }
    proof {
        assert(committed@.subrange(0, n as int) =~= committed@);
    }
    let ghost comm_done = st.committed@;

    let n = messages.len();
    let mut i: usize = 0;
    while i < n
        invariant
            i <= n,
            n == messages@.len(),
            st.prepared@ == prep_done,
            st.committed@ == comm_done,
            st.view_change_messages@.len() == 0,
            st.byzantine_votes@.len() == 0,
            forall|a: int, b: int|
                0 <= a < b < st.messages@.len() ==> !crate::state::same_entry(
                    st.messages@[a],
                    st.messages@[b],
                ),
            forall|a: int|
                0 <= a < st.messages@.len() ==> (st.messages@[a].1 is Prepare || st.messages@[a].1
                    is Commit),
        decreases n - i,
    {
        let sender = messages[i].0;
        match decode_message(&messages[i].1) {
            Option::Some(m) => {
                let keep = match &m {
                    PBFTMessage::Prepare { .. } => true,
                    PBFTMessage::Commit { .. } => true,
                    _ => false,
                };
                if keep {
                    insert_entry(&mut st.messages, sender, m);
                }
            },
            Option::None => {},
        }
        i = i + 1;
    }

    let ghost msgs_done = st.messages@;

    let n = view_change_messages.len();
    let mut i: usize = 0;
    while i < n
        invariant
            i <= n,
            n == view_change_messages@.len(),
            st.prepared@ == prep_done,
            st.committed@ == comm_done,
            st.messages@ == msgs_done,
            st.byzantine_votes@.len() == 0,
            forall|a: int, b: int|
                0 <= a < b < st.view_change_messages@.len() ==> !crate::state::same_vc(
                    st.view_change_messages@[a],
                    st.view_change_messages@[b],
                ),
            forall|a: int| 0 <= a < st.view_change_messages@.len()
                ==> st.view_change_messages@[a] is ViewChange,
        decreases n - i,
    {
        match decode_message(&view_change_messages[i]) {
            Option::Some(m) => {
                match m {
                    PBFTMessage::ViewChange { view, last_sequence_number, node_id } => {
                        insert_vc(&mut st.view_change_messages, view, last_sequence_number, node_id);
                    },
                    _ => {},
                }
            },
            Option::None => {},
        }
        i = i + 1;
    }

    let ghost vcm_done = st.view_change_messages@;

    let n = byzantine_votes.len();
    let mut i: usize = 0;
    while i < n
        invariant
            i <= n,
            n == byzantine_votes@.len(),
            st.prepared@ == prep_done,
            st.committed@ == comm_done,
            st.messages@ == msgs_done,
            st.view_change_messages@ == vcm_done,
            forall|a: int, b: int|
                0 <= a < b < st.byzantine_votes@.len() ==> st.byzantine_votes@[a].0
                    != st.byzantine_votes@[b].0,
            forall|a: int| 0 <= a < st.byzantine_votes@.len() ==> st.byzantine_votes@[a].1@
                .no_duplicates(),
        decreases n - i,
    {
        let suspect = byzantine_votes[i].0;
        let mut known = false;
        let m = st.byzantine_votes.len();
        let mut k: usize = 0;
        while k < m
            invariant
                k <= m,
                m == st.byzantine_votes@.len(),
                known == exists|a: int| 0 <= a < k && st.byzantine_votes@[a].0 == suspect,
            decreases m - k,
        {
            if st.byzantine_votes[k].0 == suspect {
                known = true;
            }
            k = k + 1;
        }
        if !known {
            let src_row = &byzantine_votes[i].1;
            let mut accusers: Vec<u64> = Vec::new();
            let rn = src_row.len();
            let mut a: usize = 0;
            while a < rn
                invariant
                    a <= rn,
                    rn == src_row@.len(),
                    accusers@.no_duplicates(),
                decreases rn - a,
            {
                let x = src_row[a];
                if !contains_u64(&accusers, x) {
                    accusers.push(x);
                }
                a = a + 1;
            }
            let ghost pre = st.byzantine_votes@;
            st.byzantine_votes.push((suspect, accusers));
            proof {
                assert forall|x: int, y: int|
                    0 <= x < y < st.byzantine_votes@.len() implies st.byzantine_votes@[x].0
                    != st.byzantine_votes@[y].0 by {
                    assert(st.byzantine_votes@[x] == pre[x]);
                    if y < pre.len() {
                        assert(st.byzantine_votes@[y] == pre[y]);
                    }
                }
            }
        }
        i = i + 1;
    }

    st
}

} // verus!

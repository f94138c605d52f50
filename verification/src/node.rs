//! The replica state machine: the three-phase consensus core, the
//! view-change subprotocol and the accusation subprotocol, as pure
//! transitions from a received message (or a timeout) to a new replica
//! state and a list of signed envelopes to broadcast.
//!
//! The surrounding process owns the transport and the timers: it feeds
//! each inbound message to [`Node::handle_message`] and fans the returned
//! envelopes out to every peer.

use vstd::prelude::*;
use crate::codec::{encode_message, encoded};
use crate::config::{F, N};
use crate::digest::{compute_digest, digest_of};
use crate::msg::PBFTMessage;
use crate::sig::{derive_public_key, sig_verifies, sign_bytes, verify_bytes, vkey_of};
use crate::state::{
    bytes_eq, contains_pair, contains_u64, copy_bytes, has_pair, insert_pair, same_pc, same_vc,
    state_wf, NodeState,
};

verus! {

/// What one accumulated Prepare or Commit entry says: the authenticated
/// sender of the entry and the message fields. For a Commit, `psender` is
/// irrelevant and zero.
pub struct PCDesc {
    pub sender: u64,
    pub is_prep: bool,
    pub view: u64,
    pub seq: u64,
    pub digest: Seq<u8>,
    pub psender: u64,
}

/// The entry carries exactly what the description says.
pub open spec fn matches_desc(e: (u64, PBFTMessage), d: PCDesc) -> bool {
    &&& e.0 == d.sender
    &&& if d.is_prep {
        e.1 matches PBFTMessage::Prepare { view, sequence_number, digest, sender_id }
            && view == d.view && sequence_number == d.seq && digest@ == d.digest && sender_id
            == d.psender
    } else {
        e.1 matches PBFTMessage::Commit { view, sequence_number, digest } && view == d.view
            && sequence_number == d.seq && digest@ == d.digest
    }
}

/// The description of a Prepare or Commit entry.
pub open spec fn desc_of(sender: u64, m: PBFTMessage) -> PCDesc {
    match m {
        PBFTMessage::Prepare { view, sequence_number, digest, sender_id } => PCDesc {
            sender,
            is_prep: true,
            view,
            seq: sequence_number,
            digest: digest@,
            psender: sender_id,
        },
        PBFTMessage::Commit { view, sequence_number, digest } => PCDesc {
            sender,
            is_prep: false,
            view,
            seq: sequence_number,
            digest: digest@,
            psender: 0,
        },
        _ => PCDesc { sender, is_prep: false, view: 0, seq: 0, digest: Seq::empty(), psender: 0 },
    }
}

/// Some entry of the list carries what the description says.
pub open spec fn has_desc(msgs: Seq<(u64, PBFTMessage)>, d: PCDesc) -> bool {
    exists|i: int| 0 <= i < msgs.len() && matches_desc(msgs[i], d)
}

/// The list grew by the described entry, or was left alone because an
/// equal entry was already there.
pub open spec fn added_desc(
    pre: Seq<(u64, PBFTMessage)>,
    post: Seq<(u64, PBFTMessage)>,
    d: PCDesc,
) -> bool {
    if has_desc(pre, d) {
        post == pre
    } else {
        &&& post.len() == pre.len() + 1
        &&& post.subrange(0, pre.len() as int) == pre
        &&& matches_desc(post.last(), d)
    }
}

/// What one ViewChange message says.
pub struct VCDesc {
    pub view: u64,
    pub last_seq: u64,
    pub node_id: u64,
}

/// The message is a ViewChange carrying exactly what the description says.
pub open spec fn matches_vc(m: PBFTMessage, d: VCDesc) -> bool {
    m matches PBFTMessage::ViewChange { view, last_sequence_number, node_id } && view == d.view
        && last_sequence_number == d.last_seq && node_id == d.node_id
}

/// Some message of the list is the described ViewChange.
pub open spec fn has_vc_desc(ms: Seq<PBFTMessage>, d: VCDesc) -> bool {
    exists|i: int| 0 <= i < ms.len() && matches_vc(ms[i], d)
}

/// The ViewChange list grew by the described message, or was left alone
/// because an equal one was already there.
pub open spec fn added_vc(ms: Seq<PBFTMessage>, post: Seq<PBFTMessage>, d: VCDesc) -> bool {
    if has_vc_desc(ms, d) {
        post == ms
    } else {
        &&& post.len() == ms.len() + 1
        &&& post.subrange(0, ms.len() as int) == ms
        &&& matches_vc(post.last(), d)
    }
}

/// The pair list grew by `(s, d)`, or was left alone because it already
/// held that pair.
pub open spec fn added_pair(
    pre: Seq<(u64, Vec<u8>)>,
    post: Seq<(u64, Vec<u8>)>,
    s: u64,
    d: Seq<u8>,
) -> bool {
    if has_pair(pre, s, d) {
        post == pre
    } else {
        &&& post.len() == pre.len() + 1
        &&& post.subrange(0, pre.len() as int) == pre
        &&& post.last().0 == s
        &&& post.last().1@ == d
    }
}

/// The distinct senders, in first-appearance order, of accumulated Prepare
/// messages matching `(v, s, d)`. The Prepare quorum counts these.
pub open spec fn prep_senders(msgs: Seq<(u64, PBFTMessage)>, v: u64, s: u64, d: Seq<u8>) -> Seq<
    u64,
>
    decreases msgs.len(),
{
    if msgs.len() == 0 {
        Seq::empty()
    } else {
        let pre = prep_senders(msgs.drop_last(), v, s, d);
        match msgs.last().1 {
            PBFTMessage::Prepare { view, sequence_number, digest, sender_id } => {
                if view == v && sequence_number == s && digest@ == d && !pre.contains(sender_id) {
                    pre.push(sender_id)
                } else {
                    pre
                }
            },
            _ => pre,
        }
    }
}

/// The distinct authenticated senders, in first-appearance order, of
/// accumulated Commit messages matching `(v, s, d)`. The Commit quorum
/// counts these; a replica's own Commit counts too.
pub open spec fn commit_senders(msgs: Seq<(u64, PBFTMessage)>, v: u64, s: u64, d: Seq<u8>) -> Seq<
    u64,
>
    decreases msgs.len(),
{
    if msgs.len() == 0 {
        Seq::empty()
    } else {
        let pre = commit_senders(msgs.drop_last(), v, s, d);
        match msgs.last().1 {
            PBFTMessage::Commit { view, sequence_number, digest } => {
                if view == v && sequence_number == s && digest@ == d && !pre.contains(
                    msgs.last().0,
                ) {
                    pre.push(msgs.last().0)
                } else {
                    pre
                }
            },
            _ => pre,
        }
    }
}

/// The distinct replicas, in first-appearance order, whose ViewChange for
/// view `v` has been gathered.
pub open spec fn vc_senders(ms: Seq<PBFTMessage>, v: u64) -> Seq<u64>
    decreases ms.len(),
{
    if ms.len() == 0 {
        Seq::empty()
    } else {
        let pre = vc_senders(ms.drop_last(), v);
        match ms.last() {
            PBFTMessage::ViewChange { view, last_sequence_number, node_id } => {
                if view == v && !pre.contains(node_id) {
                    pre.push(node_id)
                } else {
                    pre
                }
            },
            _ => pre,
        }
    }
}

/// The distinct digests, in first-appearance order, among accumulated
/// Prepare messages matching `(v, s)`.
pub open spec fn digests_present(msgs: Seq<(u64, PBFTMessage)>, v: u64, s: u64) -> Seq<Seq<u8>>
    decreases msgs.len(),
{
    if msgs.len() == 0 {
        Seq::empty()
    } else {
        let pre = digests_present(msgs.drop_last(), v, s);
        match msgs.last().1 {
            PBFTMessage::Prepare { view, sequence_number, digest, sender_id } => {
                if view == v && sequence_number == s && !pre.contains(digest@) {
                    pre.push(digest@)
                } else {
                    pre
                }
            },
            _ => pre,
        }
    }
}

/// Of the digests listed, the first one whose supporting sender set is
/// largest: the digest the protocol takes as correct when Prepares
/// disagree.
pub open spec fn best_of(
    list: Seq<Seq<u8>>,
    msgs: Seq<(u64, PBFTMessage)>,
    v: u64,
    s: u64,
) -> Option<Seq<u8>>
    decreases list.len(),
{
    if list.len() == 0 {
        Option::None
    } else {
        match best_of(list.drop_last(), msgs, v, s) {
            Option::None => Option::Some(list.last()),
            Option::Some(b) => {
                if prep_senders(msgs, v, s, list.last()).len() > prep_senders(msgs, v, s, b).len() {
                    Option::Some(list.last())
                } else {
                    Option::Some(b)
                }
            },
        }
    }
}

/// The digest the replica takes as correct for `(v, s)`, given its
/// accumulated messages.
pub open spec fn chosen_digest(msgs: Seq<(u64, PBFTMessage)>, v: u64, s: u64) -> Option<Seq<u8>> {
    best_of(digests_present(msgs, v, s), msgs, v, s)
}

/// The verifying key registered for a replica, if any.
pub open spec fn key_for(ks: Seq<(u64, Vec<u8>)>, id: u64) -> Option<Seq<u8>>
    decreases ks.len(),
{
    if ks.len() == 0 {
        Option::None
    } else if ks[0].0 == id {
        Option::Some(ks[0].1@)
    } else {
        key_for(ks.drop_first(), id)
    }
}

/// Records a Prepare or Commit entry unless an equal one is already
/// accumulated. Keeps the accumulation duplicate-free and all-flat.
pub fn insert_entry(msgs: &mut Vec<(u64, PBFTMessage)>, sender: u64, m: PBFTMessage)
    requires
        m is Prepare || m is Commit,
        forall|i: int, j: int|
            0 <= i < j < old(msgs)@.len() ==> !crate::state::same_entry(
                old(msgs)@[i],
                old(msgs)@[j],
            ),
        forall|i: int|
            0 <= i < old(msgs)@.len() ==> (old(msgs)@[i].1 is Prepare || old(msgs)@[i].1
                is Commit),
    ensures
        added_desc(old(msgs)@, final(msgs)@, desc_of(sender, m)),
        forall|i: int, j: int|
            0 <= i < j < final(msgs)@.len() ==> !crate::state::same_entry(
                final(msgs)@[i],
                final(msgs)@[j],
            ),
        forall|i: int|
            0 <= i < final(msgs)@.len() ==> (final(msgs)@[i].1 is Prepare || final(msgs)@[i].1
                is Commit),
{
    let ghost d = desc_of(sender, m);
    let present = has_entry_exec(&*msgs, sender, &m);
    if present {
        return ;
    }
    msgs.push((sender, m));
    proof {
        let pre = old(msgs)@;
        let cur = final(msgs)@;
        assert(cur.last() == (sender, m));
        assert(matches_desc(cur.last(), d));
        assert(cur.subrange(0, pre.len() as int) =~= pre);
        assert forall|i: int, j: int|
            0 <= i < j < cur.len() implies !crate::state::same_entry(cur[i], cur[j]) by {
            assert(cur[i] == pre[i]);
            if j < pre.len() {
                assert(cur[j] == pre[j]);
            } else {
                assert(cur[j] == (sender, m));
                assert(!matches_desc(pre[i], d));
            }
        }
        assert forall|i: int| 0 <= i < cur.len() implies (cur[i].1 is Prepare || cur[i].1
            is Commit) by {
            if i < pre.len() {
                assert(cur[i] == pre[i]);
            }
        }
    }
}

/// Whether an entry carrying the same information is already accumulated.
fn has_entry_exec(msgs: &Vec<(u64, PBFTMessage)>, sender: u64, m: &PBFTMessage) -> (r: bool)
    requires
        *m is Prepare || *m is Commit,
    ensures
        r == has_desc(msgs@, desc_of(sender, *m)),
{
    let ghost d = desc_of(sender, *m);
    let n = msgs.len();
    let mut i: usize = 0;
    while i < n
        invariant
            i <= n,
            n == msgs@.len(),
            *m is Prepare || *m is Commit,
            d == desc_of(sender, *m),
            forall|k: int| 0 <= k < i ==> !matches_desc(msgs@[k], d),
        decreases n - i,
    {
        let same = msgs[i].0 == sender && pc_matches(&msgs[i].1, m);
        proof {
            lemma_same_entry_desc(msgs@[i as int], sender, *m);
        }
        if same {
            proof {
                assert(matches_desc(msgs@[i as int], d));
                assert(has_desc(msgs@, d));
            }
            return true;
        }
        i = i + 1;
    }
    false
}

/// An entry equals `(sender, m)` exactly when it matches `m`'s
/// description.
proof fn lemma_same_entry_desc(e: (u64, PBFTMessage), sender: u64, m: PBFTMessage)
    requires
        m is Prepare || m is Commit,
    ensures
        crate::state::same_entry(e, (sender, m)) <==> matches_desc(e, desc_of(sender, m)),
{
    match m {
        PBFTMessage::Prepare { view, sequence_number, digest, sender_id } => {
            assert(desc_of(sender, m) == PCDesc {
                sender,
                is_prep: true,
                view,
                seq: sequence_number,
                digest: digest@,
                psender: sender_id,
            });
        },
        PBFTMessage::Commit { view, sequence_number, digest } => {
            assert(desc_of(sender, m) == PCDesc {
                sender,
                is_prep: false,
                view,
                seq: sequence_number,
                digest: digest@,
                psender: 0,
            });
        },
        _ => {},
    }
}

/// Whether two Prepare or Commit messages carry the same information.
fn pc_matches(a: &PBFTMessage, b: &PBFTMessage) -> (r: bool)
    ensures
        r == same_pc(*a, *b),
{
    match (a, b) {
        (
            PBFTMessage::Prepare { view: v1, sequence_number: s1, digest: d1, sender_id: n1 },
            PBFTMessage::Prepare { view: v2, sequence_number: s2, digest: d2, sender_id: n2 },
        ) => *v1 == *v2 && *s1 == *s2 && *n1 == *n2 && bytes_eq(d1, d2),
        (
            PBFTMessage::Commit { view: v1, sequence_number: s1, digest: d1 },
            PBFTMessage::Commit { view: v2, sequence_number: s2, digest: d2 },
        ) => *v1 == *v2 && *s1 == *s2 && bytes_eq(d1, d2),
        _ => false,
    }
}

/// Whether a message is the described ViewChange.
fn vc_matches(m: &PBFTMessage, view: u64, last_seq: u64, node_id: u64) -> (r: bool)
    ensures
        r == matches_vc(*m, VCDesc { view, last_seq, node_id }),
{
    match m {
        PBFTMessage::ViewChange { view: v1, last_sequence_number: s1, node_id: n1 } => {
            *v1 == view && *s1 == last_seq && *n1 == node_id
        },
        _ => false,
    }
}

/// Records a ViewChange message unless an equal one is already gathered.
pub fn insert_vc(ms: &mut Vec<PBFTMessage>, view: u64, last_seq: u64, node_id: u64)
    requires
        forall|i: int, j: int|
            0 <= i < j < old(ms)@.len() ==> !same_vc(old(ms)@[i], old(ms)@[j]),
        forall|i: int| 0 <= i < old(ms)@.len() ==> old(ms)@[i] is ViewChange,
    ensures
        added_vc(old(ms)@, final(ms)@, VCDesc { view, last_seq, node_id }),
        forall|i: int, j: int|
            0 <= i < j < final(ms)@.len() ==> !same_vc(final(ms)@[i], final(ms)@[j]),
        forall|i: int| 0 <= i < final(ms)@.len() ==> final(ms)@[i] is ViewChange,
{
    let ghost d = VCDesc { view, last_seq, node_id };
    let present = has_vc_exec(&*ms, view, last_seq, node_id);
    if present {
        return ;
    }
    let vc = PBFTMessage::ViewChange { view, last_sequence_number: last_seq, node_id };
    ms.push(vc);
    proof {
        let pre = old(ms)@;
        let cur = final(ms)@;
        assert(matches_vc(cur.last(), d));
        assert(cur.subrange(0, pre.len() as int) =~= pre);
        assert forall|i: int, j: int| 0 <= i < j < cur.len() implies !same_vc(cur[i], cur[j]) by {
            assert(cur[i] == pre[i]);
            if j < pre.len() {
                assert(cur[j] == pre[j]);
            } else {
                assert(cur[j] == cur.last());
                assert(!matches_vc(pre[i], d));
            }
        }
        assert forall|i: int| 0 <= i < cur.len() implies cur[i] is ViewChange by {
            if i < pre.len() {
                assert(cur[i] == pre[i]);
            }
        }
    }
}

/// Whether an equal ViewChange is already gathered.
fn has_vc_exec(ms: &Vec<PBFTMessage>, view: u64, last_seq: u64, node_id: u64) -> (r: bool)
    ensures
        r == has_vc_desc(ms@, VCDesc { view, last_seq, node_id }),
{
    let n = ms.len();
    let mut i: usize = 0;
    while i < n
        invariant
            i <= n,
            n == ms@.len(),
            forall|k: int|
                0 <= k < i ==> !matches_vc(ms@[k], VCDesc { view, last_seq, node_id }),
        decreases n - i,
    {
        let same = match &ms[i] {
            PBFTMessage::ViewChange { view: v1, last_sequence_number: s1, node_id: n1 } => {
                *v1 == view && *s1 == last_seq && *n1 == node_id
            },
            _ => false,
        };
        if same {
            proof {
                assert(matches_vc(ms@[i as int], VCDesc { view, last_seq, node_id }));
                assert(has_vc_desc(ms@, VCDesc { view, last_seq, node_id }));
            }
            return true;
        }
        i = i + 1;
    }
    false
}

/// The distinct senders of accumulated Prepares matching `(v, s, d)`, in
/// first-appearance order.
fn collect_prep_senders(msgs: &Vec<(u64, PBFTMessage)>, v: u64, s: u64, d: &Vec<u8>) -> (r: Vec<
    u64,
>)
    ensures
        r@ == prep_senders(msgs@, v, s, d@),
{
    let mut seen: Vec<u64> = Vec::new();
    let n = msgs.len();
    let mut i: usize = 0;
    while i < n
        invariant
            i <= n,
            n == msgs@.len(),
            seen@ == prep_senders(msgs@.subrange(0, i as int), v, s, d@),
        decreases n - i,
    {
        proof {
            assert(msgs@.subrange(0, i + 1 as int).drop_last() =~= msgs@.subrange(0, i as int));
            assert(msgs@.subrange(0, i + 1 as int).last() == msgs@[i as int]);
        }
        match &msgs[i].1 {
            PBFTMessage::Prepare { view, sequence_number, digest, sender_id } => {
                if *view == v && *sequence_number == s && bytes_eq(digest, d) && !contains_u64(
                    &seen,
                    *sender_id,
                ) {
                    seen.push(*sender_id);
                }
            },
            _ => {},
        }
        i = i + 1;
    }
    proof {
        assert(msgs@.subrange(0, n as int) =~= msgs@);
    }
    seen
}

/// The distinct authenticated senders of accumulated Commits matching
/// `(v, s, d)`, in first-appearance order.
fn collect_commit_senders(msgs: &Vec<(u64, PBFTMessage)>, v: u64, s: u64, d: &Vec<u8>) -> (r: Vec<
    u64,
>)
    ensures
        r@ == commit_senders(msgs@, v, s, d@),
{
    let mut seen: Vec<u64> = Vec::new();
    let n = msgs.len();
    let mut i: usize = 0;
    while i < n
        invariant
            i <= n,
            n == msgs@.len(),
            seen@ == commit_senders(msgs@.subrange(0, i as int), v, s, d@),
        decreases n - i,
    {
        proof {
            assert(msgs@.subrange(0, i + 1 as int).drop_last() =~= msgs@.subrange(0, i as int));
            assert(msgs@.subrange(0, i + 1 as int).last() == msgs@[i as int]);
        }
        let sender = msgs[i].0;
        match &msgs[i].1 {
            PBFTMessage::Commit { view, sequence_number, digest } => {
                if *view == v && *sequence_number == s && bytes_eq(digest, d) && !contains_u64(
                    &seen,
                    sender,
                ) {
                    seen.push(sender);
                }
            },
            _ => {},
        }
        i = i + 1;
    }
    proof {
        assert(msgs@.subrange(0, n as int) =~= msgs@);
    }
    seen
}

/// The distinct replicas whose ViewChange for view `v` is gathered, in
/// first-appearance order.
fn collect_vc_senders(ms: &Vec<PBFTMessage>, v: u64) -> (r: Vec<u64>)
    ensures
        r@ == vc_senders(ms@, v),
{
    let mut seen: Vec<u64> = Vec::new();
    let n = ms.len();
    let mut i: usize = 0;
    while i < n
        invariant
            i <= n,
            n == ms@.len(),
            seen@ == vc_senders(ms@.subrange(0, i as int), v),
        decreases n - i,
    {
        proof {
            assert(ms@.subrange(0, i + 1 as int).drop_last() =~= ms@.subrange(0, i as int));
            assert(ms@.subrange(0, i + 1 as int).last() == ms@[i as int]);
        }
        match &ms[i] {
            PBFTMessage::ViewChange { view, last_sequence_number, node_id } => {
                if *view == v && !contains_u64(&seen, *node_id) {
                    seen.push(*node_id);
                }
            },
            _ => {},
        }
        i = i + 1;
    }
    proof {
        assert(ms@.subrange(0, n as int) =~= ms@);
    }
    seen
}

/// Whether one of the collected digests equals `d`.
fn contains_digest(list: &Vec<Vec<u8>>, d: &Vec<u8>) -> (r: bool)
    ensures
        r == list@.map_values(|x: Vec<u8>| x@).contains(d@),
{
    let n = list.len();
    let mut i: usize = 0;
    while i < n
        invariant
            i <= n,
            n == list@.len(),
            forall|k: int| 0 <= k < i ==> list@[k]@ != d@,
        decreases n - i,
    {
        if bytes_eq(&list[i], d) {
            proof {
                assert(list@.map_values(|x: Vec<u8>| x@)[i as int] == d@);
            }
            return true;
        }
        i = i + 1;
    }
    proof {
        assert(forall|k: int|
            0 <= k < list@.len() ==> list@.map_values(|x: Vec<u8>| x@)[k] == list@[k]@);
    }
    false
}

/// The distinct digests among accumulated Prepares matching `(v, s)`, in
/// first-appearance order.
fn collect_digests(msgs: &Vec<(u64, PBFTMessage)>, v: u64, s: u64) -> (r: Vec<Vec<u8>>)
    ensures
        r@.map_values(|x: Vec<u8>| x@) == digests_present(msgs@, v, s),
{
    let mut seen: Vec<Vec<u8>> = Vec::new();
    let n = msgs.len();
    let mut i: usize = 0;
    while i < n
        invariant
            i <= n,
            n == msgs@.len(),
            seen@.map_values(|x: Vec<u8>| x@) == digests_present(msgs@.subrange(0, i as int), v, s),
        decreases n - i,
    {
        proof {
            assert(msgs@.subrange(0, i + 1 as int).drop_last() =~= msgs@.subrange(0, i as int));
            assert(msgs@.subrange(0, i + 1 as int).last() == msgs@[i as int]);
        }
        match &msgs[i].1 {
            PBFTMessage::Prepare { view, sequence_number, digest, sender_id } => {
                if *view == v && *sequence_number == s && !contains_digest(&seen, digest) {
                    seen.push(copy_bytes(digest));
                    proof {
                        assert(seen@.map_values(|x: Vec<u8>| x@) =~= digests_present(
                            msgs@.subrange(0, i + 1 as int),
                            v,
                            s,
                        ));
                    }
                }
            },
            _ => {},
        }
        i = i + 1;
    }
    proof {
        assert(msgs@.subrange(0, n as int) =~= msgs@);
    }
    seen
}

/// Of the collected digests, the first with the largest support: its index
/// and its supporter count.
fn choose_best(list: &Vec<Vec<u8>>, msgs: &Vec<(u64, PBFTMessage)>, v: u64, s: u64) -> (r: Option<
    (usize, usize),
>)
    ensures
        match r {
            Option::Some((idx, cnt)) => {
                &&& 0 <= idx < list@.len()
                &&& best_of(list@.map_values(|x: Vec<u8>| x@), msgs@, v, s) matches Option::Some(b)
                    && list@[idx as int]@ == b && cnt == prep_senders(msgs@, v, s, b).len()
            },
            Option::None => list@.len() == 0,
        },
{
    let ghost lv = list@.map_values(|x: Vec<u8>| x@);
    let n = list.len();
    if n == 0 {
        return Option::None;
    }
    let mut best_idx: usize = 0;
    let mut best_cnt: usize = collect_prep_senders(msgs, v, s, &list[0]).len();
    proof {
        assert(lv[0] == list@[0]@);
        assert(lv.subrange(0, 1).drop_last() =~= Seq::<Seq<u8>>::empty());
        assert(lv.subrange(0, 1).last() == lv[0]);
        assert(best_of(Seq::<Seq<u8>>::empty(), msgs@, v, s) is None);
        assert(best_of(lv.subrange(0, 1), msgs@, v, s) == Option::Some(lv[0]));
    }
    let mut i: usize = 1;
    while i < n
        invariant
            1 <= i <= n,
            n == list@.len(),
            lv == list@.map_values(|x: Vec<u8>| x@),
            lv.len() == n,
            best_idx < i,
            best_of(lv.subrange(0, i as int), msgs@, v, s) matches Option::Some(b)
                && lv[best_idx as int] == b && best_cnt == prep_senders(msgs@, v, s, b).len(),
        decreases n - i,
    {
        proof {
            assert(lv[i as int] == list@[i as int]@);
            assert(lv.subrange(0, i + 1 as int).drop_last() =~= lv.subrange(0, i as int));
            assert(lv.subrange(0, i + 1 as int).last() == lv[i as int]);
        }
        let cnt = collect_prep_senders(msgs, v, s, &list[i]).len();
        if cnt > best_cnt {
            best_idx = i;
            best_cnt = cnt;
        }
        i = i + 1;
    }
    proof {
        assert(lv.subrange(0, n as int) =~= lv);
    }
    Option::Some((best_idx, best_cnt))
}

/// A replica of the protocol. The volatile fields live beside the
/// persisted [`NodeState`]; timers and the transport are the surrounding
/// process's business, represented here only by the armed flag.
pub struct Node {
    /// This replica's identifier, in `[0, N)`.
    pub id: u64,
    /// The current view; the primary of view `v` is replica `v % N`.
    pub view: u64,
    /// The sequence number in flight (for the primary: last assigned).
    pub sequence_number: u64,
    /// The digest in flight.
    pub digest: Vec<u8>,
    /// The persisted consensus state.
    pub state: NodeState,
    /// Whether a view change is under way.
    pub view_change_in_progress: bool,
    /// This replica's 32-byte Ed25519 secret key.
    pub signing_key: Vec<u8>,
    /// The verifying key derived from `signing_key`.
    pub public_key: Vec<u8>,
    /// The verifying keys of peers, by replica id.
    pub public_keys: Vec<(u64, Vec<u8>)>,
    /// Whether this replica deliberately sends wrong Prepare digests.
    pub is_byzantine: bool,
    /// Replicas this replica has itself accused.
    pub suspected_nodes: Vec<u64>,
    /// Replicas confirmed Byzantine by `2F + 1` accusers; their messages
    /// are dropped.
    pub blacklist: Vec<u64>,
    /// Client requests queued for the primary, oldest first.
    pub pending_requests: Vec<PBFTMessage>,
    /// Whether the one-shot timer awaiting a NewView is armed.
    pub new_view_timer_armed: bool,
}

/// Well-formedness of a replica: a well-formed persisted state, a 32-byte
/// secret key with its derived verifying key, one key per peer, and
/// duplicate-free accusation and blacklist rolls.
pub open spec fn node_wf(n: Node) -> bool {
    &&& state_wf(n.state)
    &&& n.id < N
    &&& n.signing_key@.len() == 32
    &&& n.public_key@ == vkey_of(n.signing_key@)
    &&& forall|i: int, j: int|
        0 <= i < j < n.public_keys@.len() ==> n.public_keys@[i].0 != n.public_keys@[j].0
    &&& n.suspected_nodes@.no_duplicates()
    &&& n.blacklist@.no_duplicates()
    &&& forall|i: int| 0 <= i < n.pending_requests@.len() ==> n.pending_requests@[i] is Request
}

/// This replica is the primary of its current view.
pub open spec fn spec_is_primary(n: Node) -> bool {
    n.id == n.view % N
}

/// The envelope is a SignedMessage from `pre` whose signature verifies,
/// under `pre`'s own verifying key, over the canonical bytes of the inner
/// message.
pub open spec fn is_signed_by(env: PBFTMessage, pre: Node) -> bool {
    &&& env matches PBFTMessage::SignedMessage { message, signature, sender_id }
        && sender_id == pre.id && signature@.len() == 64 && sig_verifies(
        vkey_of(pre.signing_key@),
        encoded(*message),
        signature@,
    )
}

/// The inner message of a signed envelope.
pub open spec fn inner_of(env: PBFTMessage) -> PBFTMessage {
    *env->SignedMessage_message
}

/// A broadcast envelope verifies under the sender's registered public key:
/// what the receiving replicas check holds of everything this replica
/// issues.
pub proof fn lemma_broadcast_verifies(env: PBFTMessage, n: Node)
    requires
        node_wf(n),
        is_signed_by(env, n),
    ensures
        sig_verifies(n.public_key@, encoded(inner_of(env)), env->SignedMessage_signature@),
{
}

/// A PrePrepare, Prepare or Commit restamped with the sender's current
/// view; other variants go out as they are.
pub open spec fn stamped(m: PBFTMessage, view: u64) -> PBFTMessage {
    match m {
        PBFTMessage::PrePrepare { view: _, sequence_number, digest } => PBFTMessage::PrePrepare {
            view,
            sequence_number,
            digest,
        },
        PBFTMessage::Prepare { view: _, sequence_number, digest, sender_id } => {
            PBFTMessage::Prepare { view, sequence_number, digest, sender_id }
        },
        PBFTMessage::Commit { view: _, sequence_number, digest } => PBFTMessage::Commit {
            view,
            sequence_number,
            digest,
        },
        _ => m,
    }
}

impl Node {
    /// A fresh replica around a loaded (or empty) persisted state.
    pub fn new(
        id: u64,
        view: u64,
        signing_key: Vec<u8>,
        public_keys: Vec<(u64, Vec<u8>)>,
        state: NodeState,
        is_byzantine: bool,
    ) -> (r: Node)
        requires
            id < N,
            signing_key@.len() == 32,
            state_wf(state),
            forall|i: int, j: int|
                0 <= i < j < public_keys@.len() ==> public_keys@[i].0 != public_keys@[j].0,
        ensures
            node_wf(r),
            r.id == id,
            r.view == view,
            r.sequence_number == 0,
            r.digest@ == Seq::<u8>::empty(),
            r.state == state,
            r.signing_key == signing_key,
            r.public_keys == public_keys,
            r.is_byzantine == is_byzantine,
            !r.view_change_in_progress,
            !r.new_view_timer_armed,
            r.suspected_nodes@.len() == 0,
            r.blacklist@.len() == 0,
            r.pending_requests@.len() == 0,
    {
        let public_key = derive_public_key(&signing_key);
        Node {
            id,
            view,
            sequence_number: 0,
            digest: Vec::new(),
            state,
            view_change_in_progress: false,
            signing_key,
            public_key,
            public_keys,
            is_byzantine,
            suspected_nodes: Vec::new(),
            blacklist: Vec::new(),
            pending_requests: Vec::new(),
            new_view_timer_armed: false,
        }
    }

    /// Whether this replica is the primary of its current view: exactly
    /// when its id equals the view modulo the replica count.
    pub fn is_primary(&self) -> (r: bool)
        ensures
            r == spec_is_primary(*self),
    {
        self.id == self.view % N
    }

    /// Stamps the message with the current view, signs its canonical bytes
    /// and wraps it for the wire. Every broadcast of the state machine
    /// goes through here, so every issued envelope verifies under this
    /// replica's key.
    pub fn broadcast(&self, msg: PBFTMessage) -> (r: PBFTMessage)
        requires
            self.signing_key@.len() == 32,
        ensures
            is_signed_by(r, *self),
            inner_of(r) == stamped(msg, self.view),
    {
        let msg_with_view = match msg {
            PBFTMessage::PrePrepare { view: _, sequence_number, digest } => {
                PBFTMessage::PrePrepare { view: self.view, sequence_number, digest }
            },
            PBFTMessage::Prepare { view: _, sequence_number, digest, sender_id } => {
                PBFTMessage::Prepare { view: self.view, sequence_number, digest, sender_id }
            },
            PBFTMessage::Commit { view: _, sequence_number, digest } => {
                PBFTMessage::Commit { view: self.view, sequence_number, digest }
            },
            other => other,
        };
        let bytes = encode_message(&msg_with_view);
        let signature = sign_bytes(&self.signing_key, &bytes);
        PBFTMessage::SignedMessage {
            message: Box::new(msg_with_view),
            signature,
            sender_id: self.id,
        }
    }
}

/// The identity of a replica never changes across a transition.
pub open spec fn same_identity(pre: Node, post: Node) -> bool {
    &&& post.id == pre.id
    &&& post.signing_key == pre.signing_key
    &&& post.public_key == pre.public_key
    &&& post.is_byzantine == pre.is_byzantine
}

/// The deliberately wrong digest a Byzantine replica substitutes into its
/// Prepare.
pub open spec fn wrong_digest() -> Seq<u8> {
    seq![119u8, 114u8, 111u8, 110u8, 103u8]
}

/// What handling a client request does: the request is queued; if this
/// replica is the primary and no view change is under way, it assigns the
/// next sequence number, computes the request digest, and broadcasts a
/// PrePrepare for it.
pub open spec fn request_step(pre: Node, m: PBFTMessage, post: Node, out: Seq<PBFTMessage>) -> bool {
    &&& same_identity(pre, post)
    &&& post.view == pre.view
    &&& post.state == pre.state
    &&& post.view_change_in_progress == pre.view_change_in_progress
    &&& post.public_keys == pre.public_keys
    &&& post.suspected_nodes == pre.suspected_nodes
    &&& post.blacklist == pre.blacklist
    &&& post.new_view_timer_armed == pre.new_view_timer_armed
    &&& post.pending_requests@.len() == pre.pending_requests@.len() + 1
    &&& post.pending_requests@.subrange(0, pre.pending_requests@.len() as int)
        == pre.pending_requests@
    &&& post.pending_requests@.last() is Request
    &&& post.pending_requests@.last()->Request_operation@ == m->Request_operation@
    &&& if spec_is_primary(pre) && !pre.view_change_in_progress && pre.sequence_number
        < u64::MAX {
        &&& post.sequence_number == pre.sequence_number + 1
        &&& post.digest@ == digest_of(m->Request_operation@)
        &&& out.len() == 1
        &&& is_signed_by(out[0], pre)
        &&& inner_of(out[0]) matches PBFTMessage::PrePrepare { view, sequence_number, digest }
            && view == pre.view && sequence_number == pre.sequence_number + 1 && digest@
            == digest_of(m->Request_operation@)
    } else {
        &&& post.sequence_number == pre.sequence_number
        &&& post.digest == pre.digest
        &&& out.len() == 0
    }
}

/// The replica has already recorded a Prepare of its own for `(v, s)`
/// carrying a digest other than `pd`: emitting a Prepare with `pd` now
/// would equivocate.
pub open spec fn own_prepare_conflict(
    msgs: Seq<(u64, PBFTMessage)>,
    id: u64,
    v: u64,
    s: u64,
    pd: Seq<u8>,
) -> bool {
    exists|i: int|
        0 <= i < msgs.len() && (#[trigger] msgs[i]).0 == id && (msgs[i].1
            matches PBFTMessage::Prepare { view, sequence_number, digest, sender_id } && view == v
            && sequence_number == s && sender_id == id && digest@ != pd)
}

/// What handling a PrePrepare does: a non-primary replica in the same view
/// adopts the proposal, records its own Prepare (a Byzantine replica with
/// a wrong digest) and broadcasts that Prepare. A proposal for a
/// `(view, seq)` the replica has already prepared under a different digest
/// is ignored: a replica never emits two Prepares with the same
/// `(view, seq)` and different digests. Anything else is ignored too.
pub open spec fn preprepare_step(pre: Node, m: PBFTMessage, post: Node, out: Seq<PBFTMessage>) -> bool {
    let v = m->PrePrepare_view;
    let s = m->PrePrepare_sequence_number;
    let dg = m->PrePrepare_digest@;
    let pd0 = if pre.is_byzantine { wrong_digest() } else { dg };
    if v == pre.view && !spec_is_primary(pre) && !own_prepare_conflict(
        pre.state.messages@,
        pre.id,
        v,
        s,
        pd0,
    ) {
        let pd = if pre.is_byzantine { wrong_digest() } else { dg };
        &&& same_identity(pre, post)
        &&& post.view == pre.view
        &&& post.sequence_number == s
        &&& post.digest@ == dg
        &&& post.view_change_in_progress == pre.view_change_in_progress
        &&& post.public_keys == pre.public_keys
        &&& post.suspected_nodes == pre.suspected_nodes
        &&& post.blacklist == pre.blacklist
        &&& post.pending_requests == pre.pending_requests
        &&& post.new_view_timer_armed == pre.new_view_timer_armed
        &&& post.state.prepared == pre.state.prepared
        &&& post.state.committed == pre.state.committed
        &&& post.state.view_change_messages == pre.state.view_change_messages
        &&& post.state.byzantine_votes == pre.state.byzantine_votes
        &&& added_desc(
            pre.state.messages@,
            post.state.messages@,
            PCDesc { sender: pre.id, is_prep: true, view: v, seq: s, digest: pd, psender: pre.id },
        )
        &&& out.len() == 1
        &&& is_signed_by(out[0], pre)
        &&& inner_of(out[0]) matches PBFTMessage::Prepare { view, sequence_number, digest, sender_id }
            && view == v && sequence_number == s && digest@ == pd && sender_id == pre.id
    } else {
        post == pre && out.len() == 0
    }
}

/// A sender that contributed a Prepare for `(v, s)` with a digest other
/// than the chosen one.
pub open spec fn bad_sender(
    msgs: Seq<(u64, PBFTMessage)>,
    v: u64,
    s: u64,
    chosen: Seq<u8>,
    x: u64,
) -> bool {
    exists|i: int|
        0 <= i < msgs.len() && ((#[trigger] msgs[i]).1 matches PBFTMessage::Prepare {
            view,
            sequence_number,
            digest,
            sender_id,
        } && view == v && sequence_number == s && sender_id == x && digest@ != chosen)
}

/// Every envelope of the list is a signed ByzantineVote from the replica
/// with this id and secret key, against some replica suspected just now;
/// and every replica suspected just now is named by one.
pub open spec fn vote_list(
    votes: Seq<PBFTMessage>,
    id: u64,
    key: Seq<u8>,
    pre_sus: Seq<u64>,
    post_sus: Seq<u64>,
) -> bool {
    &&& forall|k: int|
        #![trigger votes[k]]
        0 <= k < votes.len() ==> {
            let x = inner_of(votes[k])->ByzantineVote_suspected_id;
            &&& votes[k] matches PBFTMessage::SignedMessage { message, signature, sender_id }
                && sender_id == id && signature@.len() == 64 && sig_verifies(
                vkey_of(key),
                encoded(*message),
                signature@,
            )
            &&& inner_of(votes[k]) is ByzantineVote
            &&& inner_of(votes[k])->ByzantineVote_sender_id == id
            &&& !pre_sus.contains(x)
            &&& post_sus.contains(x)
        }
    &&& forall|x: u64|
        post_sus.contains(x) && !pre_sus.contains(x) ==> exists|k: int|
            0 <= k < votes.len() && inner_of(#[trigger] votes[k])
                == (PBFTMessage::ByzantineVote { suspected_id: x, sender_id: id })
}

/// Some accusation row for `suspect` records `accuser`.
pub open spec fn row_has_accuser(bv: Seq<(u64, Vec<u64>)>, suspect: u64, accuser: u64) -> bool {
    exists|i: int|
        0 <= i < bv.len() && (#[trigger] bv[i]).0 == suspect && bv[i].1@.contains(accuser)
}

/// Tallying a vote records the accuser against the suspect.
proof fn lemma_votes_updated_adds(
    pre: Seq<(u64, Vec<u64>)>,
    post: Seq<(u64, Vec<u64>)>,
    suspect: u64,
    accuser: u64,
)
    requires
        votes_updated(pre, post, suspect, accuser),
        forall|a: int, b: int| 0 <= a < b < pre.len() ==> pre[a].0 != pre[b].0,
    ensures
        row_has_accuser(post, suspect, accuser),
{
    if exists|i: int| 0 <= i < pre.len() && pre[i].0 == suspect {
        let i = choose|i: int| 0 <= i < pre.len() && pre[i].0 == suspect;
        if pre[i].1@.contains(accuser) {
            assert(post[i].0 == suspect && post[i].1@.contains(accuser));
        } else {
            lemma_push_contains(pre[i].1@, accuser, accuser);
            assert(post[i].0 == suspect && post[i].1@.contains(accuser));
        }
    } else {
        assert(post[post.len() - 1].1@[0] == accuser);
        assert(post[post.len() - 1].0 == suspect && post[post.len() - 1].1@.contains(accuser));
    }
}

/// Tallying a vote keeps every accuser already recorded, for any suspect.
proof fn lemma_votes_updated_keeps(
    pre: Seq<(u64, Vec<u64>)>,
    post: Seq<(u64, Vec<u64>)>,
    suspect: u64,
    accuser: u64,
    y: u64,
    a: u64,
)
    requires
        votes_updated(pre, post, suspect, accuser),
        row_has_accuser(pre, y, a),
        forall|x1: int, x2: int| 0 <= x1 < x2 < pre.len() ==> pre[x1].0 != pre[x2].0,
    ensures
        row_has_accuser(post, y, a),
{
    let j = choose|j: int| 0 <= j < pre.len() && (#[trigger] pre[j]).0 == y && pre[j].1@.contains(a);
    if exists|i: int| 0 <= i < pre.len() && pre[i].0 == suspect {
        let i = choose|i: int| 0 <= i < pre.len() && pre[i].0 == suspect;
        if j == i {
            if pre[i].1@.contains(accuser) {
                assert(post[j].0 == y && post[j].1@.contains(a));
            } else {
                lemma_push_contains(pre[i].1@, accuser, a);
                assert(post[j].0 == y && post[j].1@.contains(a));
            }
        } else {
            assert(post[j] == pre[j]);
            assert(post[j].0 == y && post[j].1@.contains(a));
        }
    } else {
        assert(post[j] == pre[j]);
        assert(post[j].0 == y && post[j].1@.contains(a));
    }
}

/// After the accusation pass: when the accumulated Prepares for `(v, s)`
/// disagree, exactly the senders of non-chosen digests join the suspected
/// roll; otherwise it is untouched.
pub open spec fn suspects_updated(
    pre: Node,
    post: Node,
    msgs: Seq<(u64, PBFTMessage)>,
    v: u64,
    s: u64,
) -> bool {
    if digests_present(msgs, v, s).len() > 1 {
        &&& chosen_digest(msgs, v, s) matches Option::Some(c) && (forall|x: u64|
            post.suspected_nodes@.contains(x) <==> pre.suspected_nodes@.contains(x) || bad_sender(
                msgs,
                v,
                s,
                c,
                x,
            ))
        &&& (chosen_digest(msgs, v, s) matches Option::Some(c) && (forall|x: u64|
            bad_sender(msgs, v, s, c, x) ==> pre.suspected_nodes@.contains(x))
            ==> post.suspected_nodes == pre.suspected_nodes)
    } else {
        post.suspected_nodes == pre.suspected_nodes
    }
}

/// What handling a Prepare does: the message is accumulated under its
/// authenticated sender; if the Prepares for the current `(view, seq)` now
/// disagree, the accusation pass runs; and if the chosen digest is backed
/// by at least `2F` distinct senders and `(seq, digest)` is new, the
/// replica records it prepared and broadcasts a Commit.
pub open spec fn prepare_step(
    pre: Node,
    sender: u64,
    m: PBFTMessage,
    post: Node,
    out: Seq<PBFTMessage>,
) -> bool {
    let v = pre.view;
    let s = pre.sequence_number;
    &&& same_identity(pre, post)
    &&& post.view == pre.view
    &&& post.sequence_number == pre.sequence_number
    &&& post.digest == pre.digest
    &&& post.view_change_in_progress == pre.view_change_in_progress
    &&& post.new_view_timer_armed == pre.new_view_timer_armed
    &&& post.public_keys == pre.public_keys
    &&& post.pending_requests == pre.pending_requests
    &&& post.state.committed == pre.state.committed
    &&& post.state.view_change_messages == pre.state.view_change_messages
    &&& added_desc(pre.state.messages@, post.state.messages@, desc_of(sender, m))
    &&& (forall|x: u64|
        post.suspected_nodes@.contains(x) && !pre.suspected_nodes@.contains(x)
            ==> row_has_accuser(post.state.byzantine_votes@, x, pre.id))
    &&& (post.suspected_nodes == pre.suspected_nodes ==> post.state.byzantine_votes
        == pre.state.byzantine_votes && post.blacklist == pre.blacklist)
    &&& (forall|b: u64| pre.blacklist@.contains(b) ==> post.blacklist@.contains(b))
    &&& {
        let msgs = post.state.messages@;
        &&& suspects_updated(pre, post, msgs, v, s)
        &&& match chosen_digest(msgs, v, s) {
            Option::Some(c) => {
                if prep_senders(msgs, v, s, c).len() >= 2 * F && !has_pair(
                    pre.state.prepared@,
                    s,
                    c,
                ) {
                    &&& added_pair(pre.state.prepared@, post.state.prepared@, s, c)
                    &&& out.len() >= 1
                    &&& is_signed_by(out.last(), pre)
                    &&& inner_of(out.last()) matches PBFTMessage::Commit {
                        view,
                        sequence_number,
                        digest,
                    } && view == v && sequence_number == s && digest@ == c
                    &&& vote_list(
                        out.drop_last(),
                        pre.id,
                        pre.signing_key@,
                        pre.suspected_nodes@,
                        post.suspected_nodes@,
                    )
                } else {
                    &&& post.state.prepared == pre.state.prepared
                    &&& vote_list(
                        out,
                        pre.id,
                        pre.signing_key@,
                        pre.suspected_nodes@,
                        post.suspected_nodes@,
                    )
                }
            },
            Option::None => {
                &&& post.state.prepared == pre.state.prepared
                &&& post.suspected_nodes == pre.suspected_nodes
                &&& out.len() == 0
            },
        }
    }
}

/// What handling a Commit does: the message is accumulated under its
/// authenticated sender; once `2F + 1` distinct senders back a Commit for
/// the current `(view, seq)` and in-flight digest, the pair is recorded
/// committed (and prepared, so that everything committed stays prepared).
pub open spec fn commit_step(
    pre: Node,
    sender: u64,
    m: PBFTMessage,
    post: Node,
    out: Seq<PBFTMessage>,
) -> bool {
    let v = pre.view;
    let s = pre.sequence_number;
    let dg = pre.digest@;
    &&& same_identity(pre, post)
    &&& post.view == pre.view
    &&& post.sequence_number == pre.sequence_number
    &&& post.digest == pre.digest
    &&& post.view_change_in_progress == pre.view_change_in_progress
    &&& post.new_view_timer_armed == pre.new_view_timer_armed
    &&& post.public_keys == pre.public_keys
    &&& post.blacklist == pre.blacklist
    &&& post.suspected_nodes == pre.suspected_nodes
    &&& post.pending_requests == pre.pending_requests
    &&& post.state.view_change_messages == pre.state.view_change_messages
    &&& post.state.byzantine_votes == pre.state.byzantine_votes
    &&& added_desc(pre.state.messages@, post.state.messages@, desc_of(sender, m))
    &&& out.len() == 0
    &&& {
        let msgs = post.state.messages@;
        let own: int = if has_pair(pre.state.prepared@, s, dg) {
            1
        } else {
            0
        };
        if commit_senders(msgs, v, s, dg).len() + own >= 2 * F + 1 {
            &&& added_pair(pre.state.committed@, post.state.committed@, s, dg)
            &&& added_pair(pre.state.prepared@, post.state.prepared@, s, dg)
        } else {
            &&& post.state.committed == pre.state.committed
            &&& post.state.prepared == pre.state.prepared
        }
    }
}

/// The accusation rows changed only by recording `accuser` against
/// `suspect` (idempotently).
pub open spec fn votes_updated(
    pre: Seq<(u64, Vec<u64>)>,
    post: Seq<(u64, Vec<u64>)>,
    suspect: u64,
    accuser: u64,
) -> bool {
    if exists|i: int| 0 <= i < pre.len() && pre[i].0 == suspect {
        let i = choose|i: int| 0 <= i < pre.len() && pre[i].0 == suspect;
        &&& post.len() == pre.len()
        &&& forall|j: int| 0 <= j < pre.len() && j != i ==> post[j] == pre[j]
        &&& post[i].0 == suspect
        &&& post[i].1@ == if pre[i].1@.contains(accuser) {
            pre[i].1@
        } else {
            pre[i].1@.push(accuser)
        }
    } else {
        &&& post.len() == pre.len() + 1
        &&& post.subrange(0, pre.len() as int) == pre
        &&& post.last().0 == suspect
        &&& post.last().1@ == seq![accuser]
    }
}

/// What handling a ByzantineVote does: the accuser is tallied against the
/// suspect; once `2F + 1` distinct accusers name the same suspect, the
/// suspect joins the blacklist.
pub open spec fn byz_vote_step(
    pre: Node,
    suspect: u64,
    accuser: u64,
    post: Node,
    out: Seq<PBFTMessage>,
) -> bool {
    &&& same_identity(pre, post)
    &&& post.view == pre.view
    &&& post.sequence_number == pre.sequence_number
    &&& post.digest == pre.digest
    &&& post.view_change_in_progress == pre.view_change_in_progress
    &&& post.new_view_timer_armed == pre.new_view_timer_armed
    &&& post.public_keys == pre.public_keys
    &&& post.suspected_nodes == pre.suspected_nodes
    &&& post.pending_requests == pre.pending_requests
    &&& post.state.prepared == pre.state.prepared
    &&& post.state.committed == pre.state.committed
    &&& post.state.messages == pre.state.messages
    &&& post.state.view_change_messages == pre.state.view_change_messages
    &&& votes_updated(pre.state.byzantine_votes@, post.state.byzantine_votes@, suspect, accuser)
    &&& out.len() == 0
    &&& {
        let confirmed = exists|i: int|
            0 <= i < post.state.byzantine_votes@.len() && post.state.byzantine_votes@[i].0
                == suspect && post.state.byzantine_votes@[i].1@.len() >= 2 * F + 1;
        post.blacklist@ == if confirmed && !pre.blacklist@.contains(suspect) {
            pre.blacklist@.push(suspect)
        } else {
            pre.blacklist@
        }
    }
}

/// What starting a view change does: the view advances by one, the
/// in-flight request is reset, the replica's own ViewChange is gathered
/// and broadcast, and the one-shot NewView timer is armed.
pub open spec fn view_change_step(pre: Node, post: Node, out: Seq<PBFTMessage>) -> bool {
    &&& same_identity(pre, post)
    &&& post.view == pre.view + 1
    &&& post.sequence_number == 0
    &&& post.digest@ == Seq::<u8>::empty()
    &&& post.view_change_in_progress
    &&& post.new_view_timer_armed
    &&& post.public_keys == pre.public_keys
    &&& post.suspected_nodes == pre.suspected_nodes
    &&& post.blacklist == pre.blacklist
    &&& post.pending_requests == pre.pending_requests
    &&& post.state.prepared == pre.state.prepared
    &&& post.state.committed == pre.state.committed
    &&& post.state.messages == pre.state.messages
    &&& post.state.byzantine_votes == pre.state.byzantine_votes
    &&& added_vc(
        pre.state.view_change_messages@,
        post.state.view_change_messages@,
        VCDesc { view: (pre.view + 1) as u64, last_seq: 0, node_id: pre.id },
    )
    &&& out.len() == 1
    &&& is_signed_by(out[0], pre)
    &&& inner_of(out[0]) matches PBFTMessage::ViewChange { view, last_sequence_number, node_id }
        && view == pre.view + 1 && last_sequence_number == 0 && node_id == pre.id
}

/// What handling a ViewChange does: a ViewChange for the current view is
/// gathered; when the replica is the primary of that view and holds `2F`
/// of them from distinct replicas, it announces the NewView, carrying the
/// gathered ViewChanges, and stands down from the change.
pub open spec fn handle_vc_step(pre: Node, m: PBFTMessage, post: Node, out: Seq<PBFTMessage>) -> bool {
    let mv = m->ViewChange_view;
    if mv == pre.view {
        &&& same_identity(pre, post)
        &&& post.view == pre.view
        &&& post.sequence_number == pre.sequence_number
        &&& post.digest == pre.digest
        &&& post.public_keys == pre.public_keys
        &&& post.suspected_nodes == pre.suspected_nodes
        &&& post.blacklist == pre.blacklist
        &&& post.pending_requests == pre.pending_requests
        &&& post.state.prepared == pre.state.prepared
        &&& post.state.committed == pre.state.committed
        &&& post.state.messages == pre.state.messages
        &&& post.state.byzantine_votes == pre.state.byzantine_votes
        &&& added_vc(
            pre.state.view_change_messages@,
            post.state.view_change_messages@,
            VCDesc {
                view: mv,
                last_seq: m->ViewChange_last_sequence_number,
                node_id: m->ViewChange_node_id,
            },
        )
        &&& if vc_senders(post.state.view_change_messages@, pre.view).len() >= 2 * F
            && spec_is_primary(pre) {
            &&& !post.view_change_in_progress
            &&& !post.new_view_timer_armed
            &&& out.len() == 1
            &&& is_signed_by(out[0], pre)
            &&& inner_of(out[0]) matches PBFTMessage::NewView { view, view_change_messages }
                && view == pre.view && view_change_messages@.len()
                == post.state.view_change_messages@.len() && (forall|i: int|
                0 <= i < view_change_messages@.len() ==> same_vc(
                    view_change_messages@[i],
                    post.state.view_change_messages@[i],
                ))
        } else {
            &&& post.view_change_in_progress == pre.view_change_in_progress
            &&& post.new_view_timer_armed == pre.new_view_timer_armed
            &&& out.len() == 0
        }
    } else {
        post == pre && out.len() == 0
    }
}

/// What accepting a NewView does: for a view at least the current one, the
/// replica adopts it, stands down from the view change, clears the
/// in-flight request and the gathered ViewChanges, and cancels the NewView
/// timer; the new primary then replays its queued requests in order, one
/// PrePrepare each.
pub open spec fn new_view_step(pre: Node, m: PBFTMessage, post: Node, out: Seq<PBFTMessage>) -> bool {
    let nv = m->NewView_view;
    if nv >= pre.view {
        &&& same_identity(pre, post)
        &&& post.view == nv
        &&& !post.view_change_in_progress
        &&& !post.new_view_timer_armed
        &&& post.public_keys == pre.public_keys
        &&& post.suspected_nodes == pre.suspected_nodes
        &&& post.blacklist == pre.blacklist
        &&& post.pending_requests == pre.pending_requests
        &&& post.state.prepared == pre.state.prepared
        &&& post.state.committed == pre.state.committed
        &&& post.state.messages == pre.state.messages
        &&& post.state.byzantine_votes == pre.state.byzantine_votes
        &&& post.state.view_change_messages@.len() == 0
        &&& if pre.id == nv % N && pre.pending_requests@.len() > 0 {
            &&& post.sequence_number == pre.pending_requests@.len()
            &&& out.len() == pre.pending_requests@.len()
            &&& forall|i: int|
                0 <= i < out.len() ==> is_signed_by(out[i], pre) && (inner_of(
                    out[i],
                ) matches PBFTMessage::PrePrepare { view, sequence_number, digest } && view == nv
                    && sequence_number == i + 1 && digest@ == digest_of(
                    pre.pending_requests@[i]->Request_operation@,
                ))
            &&& post.digest@ == digest_of(
                pre.pending_requests@.last()->Request_operation@,
            )
        } else {
            &&& post.sequence_number == 0
            &&& post.digest@ == Seq::<u8>::empty()
            &&& out.len() == 0
        }
    } else {
        post == pre && out.len() == 0
    }
}

/// Whether the replica already recorded an own Prepare for `(v, s)` with
/// a digest other than `pd`.
fn own_prepare_conflicts(
    msgs: &Vec<(u64, PBFTMessage)>,
    id: u64,
    v: u64,
    s: u64,
    pd: &Vec<u8>,
) -> (r: bool)
    ensures
        r == own_prepare_conflict(msgs@, id, v, s, pd@),
{
    let n = msgs.len();
    let mut i: usize = 0;
    while i < n
        invariant
            i <= n,
            n == msgs@.len(),
            forall|k: int|
                0 <= k < i ==> !((#[trigger] msgs@[k]).0 == id && (msgs@[k].1
                    matches PBFTMessage::Prepare { view, sequence_number, digest, sender_id }
                    && view == v && sequence_number == s && sender_id == id && digest@ != pd@)),
        decreases n - i,
    {
        let hit = msgs[i].0 == id && match &msgs[i].1 {
            PBFTMessage::Prepare { view, sequence_number, digest, sender_id } => {
                *view == v && *sequence_number == s && *sender_id == id && !bytes_eq(digest, pd)
            },
            _ => false,
        };
        if hit {
            proof {
                assert(own_prepare_conflict(msgs@, id, v, s, pd@));
            }
            return true;
        }
        i = i + 1;
    }
    false
}

/// The wrong digest a Byzantine replica substitutes.
fn wrong_digest_exec() -> (r: Vec<u8>)
    ensures
        r@ == wrong_digest(),
{
    let mut v: Vec<u8> = Vec::new();
    v.push(119);
    v.push(114);
    v.push(111);
    v.push(110);
    v.push(103);
    proof {
        assert(v@ =~= wrong_digest());
    }
    v
}

impl Node {
    /// Queues a client request; as the primary, outside a view change, it
    /// assigns the next sequence number, takes the request digest in
    /// flight, and broadcasts the PrePrepare ordering the request.
    pub fn handle_request(&mut self, msg: PBFTMessage) -> (r: Vec<PBFTMessage>)
        requires
            node_wf(*old(self)),
            msg is Request,
        ensures
            node_wf(*final(self)),
            request_step(*old(self), msg, *final(self), r@),
    {
        let op = match msg {
            PBFTMessage::Request { operation } => operation,
            _ => Vec::new(),
        };
        let op_stored = copy_bytes(&op);
        self.pending_requests.push(PBFTMessage::Request { operation: op_stored });
        proof {
            assert(self.pending_requests@.subrange(0, old(self).pending_requests@.len() as int)
                =~= old(self).pending_requests@);
        }
        if self.is_primary() && !self.view_change_in_progress && self.sequence_number < u64::MAX {
            self.sequence_number = self.sequence_number + 1;
            let dg = compute_digest(&op);
            self.digest = copy_bytes(&dg);
            let env = self.broadcast(
                PBFTMessage::PrePrepare {
                    view: self.view,
                    sequence_number: self.sequence_number,
                    digest: dg,
                },
            );
            let mut out: Vec<PBFTMessage> = Vec::new();
            out.push(env);
            out
        } else {
            Vec::new()
        }
    }

    /// As a non-primary replica in the proposal's view: adopts the
    /// proposal, records this replica's own Prepare (a Byzantine replica
    /// substitutes a wrong digest) and broadcasts it.
    pub fn handle_preprepare(&mut self, msg: PBFTMessage) -> (r: Vec<PBFTMessage>)
        requires
            node_wf(*old(self)),
            msg is PrePrepare,
        ensures
            node_wf(*final(self)),
            preprepare_step(*old(self), msg, *final(self), r@),
    {
        let (v, s, dg) = match msg {
            PBFTMessage::PrePrepare { view, sequence_number, digest } => (
                view,
                sequence_number,
                digest,
            ),
            _ => (0u64, 0u64, Vec::new()),
        };
        if v == self.view && !self.is_primary() {
            let pd = if self.is_byzantine {
                wrong_digest_exec()
            } else {
                copy_bytes(&dg)
            };
            if own_prepare_conflicts(&self.state.messages, self.id, v, s, &pd) {
                return Vec::new();
            }
            self.sequence_number = s;
            self.digest = dg;
            let pd2 = copy_bytes(&pd);
            insert_entry(
                &mut self.state.messages,
                self.id,
                PBFTMessage::Prepare { view: v, sequence_number: s, digest: pd, sender_id: self.id },
            );
            let env = self.broadcast(
                PBFTMessage::Prepare { view: v, sequence_number: s, digest: pd2, sender_id: self.id },
            );
            let mut out: Vec<PBFTMessage> = Vec::new();
            out.push(env);
            out
        } else {
            Vec::new()
        }
    }

    /// On expiry of the one-shot NewView timer: if the awaited NewView
    /// never arrived, cascades into another view change; with the timer
    /// not armed, nothing happens.
    pub fn handle_new_view_timeout(&mut self) -> (r: Vec<PBFTMessage>)
        requires
            node_wf(*old(self)),
            old(self).view < u64::MAX,
        ensures
            node_wf(*final(self)),
            if old(self).new_view_timer_armed {
                view_change_step(*old(self), *final(self), r@)
            } else {
                *final(self) == *old(self) && r@.len() == 0
            },
    {
        if self.new_view_timer_armed {
            self.start_view_change()
        } else {
            Vec::new()
        }
    }

    /// On a quiet-period timeout: starts a view change unless one is
    /// already under way.
    pub fn handle_timeout(&mut self) -> (r: Vec<PBFTMessage>)
        requires
            node_wf(*old(self)),
            old(self).view < u64::MAX,
        ensures
            node_wf(*final(self)),
            if old(self).view_change_in_progress {
                *final(self) == *old(self) && r@.len() == 0
            } else {
                view_change_step(*old(self), *final(self), r@)
            },
    {
        if !self.view_change_in_progress {
            self.start_view_change()
        } else {
            Vec::new()
        }
    }

    /// Moves to the next view: advances the view by one, resets the
    /// in-flight request, gathers and broadcasts this replica's
    /// ViewChange, and arms the one-shot NewView timer.
    pub fn start_view_change(&mut self) -> (r: Vec<PBFTMessage>)
        requires
            node_wf(*old(self)),
            old(self).view < u64::MAX,
        ensures
            node_wf(*final(self)),
            view_change_step(*old(self), *final(self), r@),
    {
        self.view_change_in_progress = true;
        self.view = self.view + 1;
        self.sequence_number = 0;
        self.digest = Vec::new();
        self.new_view_timer_armed = true;
        let env = self.broadcast(
            PBFTMessage::ViewChange {
                view: self.view,
                last_sequence_number: self.sequence_number,
                node_id: self.id,
            },
        );
        insert_vc(&mut self.state.view_change_messages, self.view, 0, self.id);
        let mut out: Vec<PBFTMessage> = Vec::new();
        out.push(env);
        out
    }
}

/// An element is in a sequence with `x` appended exactly when it is `x` or
/// was there before.
proof fn lemma_push_contains(s: Seq<u64>, x: u64, y: u64)
    ensures
        s.push(x).contains(y) <==> (s.contains(y) || y == x),
{
    if s.push(x).contains(y) {
        let i = choose|i: int| 0 <= i < s.push(x).len() && s.push(x)[i] == y;
        if i < s.len() {
            assert(s[i] == y);
        }
    }
    if s.contains(y) {
        let i = choose|i: int| 0 <= i < s.len() && s[i] == y;
        assert(s.push(x)[i] == y);
    }
    assert(s.push(x)[s.len() as int] == x);
}

/// Extending the scanned prefix by one entry extends the bad-sender set by
/// exactly that entry's sender, when it is a disagreeing Prepare.
proof fn lemma_bad_sender_extend(
    msgs: Seq<(u64, PBFTMessage)>,
    i: int,
    v: u64,
    s: u64,
    chosen: Seq<u8>,
)
    requires
        0 <= i < msgs.len(),
    ensures
        forall|y: u64|
            #[trigger] bad_sender(msgs.subrange(0, i + 1), v, s, chosen, y) <==> bad_sender(
                msgs.subrange(0, i),
                v,
                s,
                chosen,
                y,
            ) || (msgs[i].1 matches PBFTMessage::Prepare {
                view,
                sequence_number,
                digest,
                sender_id,
            } && view == v && sequence_number == s && sender_id == y && digest@ != chosen),
{
    let a = msgs.subrange(0, i);
    let b = msgs.subrange(0, i + 1);
    assert forall|y: u64| #[trigger] bad_sender(b, v, s, chosen, y) implies bad_sender(
        a,
        v,
        s,
        chosen,
        y,
    ) || (msgs[i].1 matches PBFTMessage::Prepare { view, sequence_number, digest, sender_id }
        && view == v && sequence_number == s && sender_id == y && digest@ != chosen) by {
        let j = choose|j: int|
            0 <= j < b.len() && ((#[trigger] b[j]).1 matches PBFTMessage::Prepare {
                view,
                sequence_number,
                digest,
                sender_id,
            } && view == v && sequence_number == s && sender_id == y && digest@ != chosen);
        if j < i {
            assert(a[j] == b[j]);
        } else {
            assert(b[j] == msgs[i]);
        }
    }
    assert forall|y: u64|
        bad_sender(a, v, s, chosen, y) || (msgs[i].1 matches PBFTMessage::Prepare {
            view,
            sequence_number,
            digest,
            sender_id,
        } && view == v && sequence_number == s && sender_id == y && digest@
            != chosen) implies #[trigger] bad_sender(b, v, s, chosen, y) by {
        if bad_sender(a, v, s, chosen, y) {
            let j = choose|j: int|
                0 <= j < a.len() && ((#[trigger] a[j]).1 matches PBFTMessage::Prepare {
                    view,
                    sequence_number,
                    digest,
                    sender_id,
                } && view == v && sequence_number == s && sender_id == y && digest@ != chosen);
            assert(b[j] == a[j]);
        } else {
            assert(b[i] == msgs[i]);
        }
    }
}

/// Finds the accusation row for a suspect.
fn find_row(bv: &Vec<(u64, Vec<u64>)>, suspect: u64) -> (r: Option<usize>)
    ensures
        match r {
            Option::Some(i) => i < bv@.len() && bv@[i as int].0 == suspect,
            Option::None => forall|i: int| 0 <= i < bv@.len() ==> bv@[i].0 != suspect,
        },
{
    let n = bv.len();
    let mut i: usize = 0;
    while i < n
        invariant
            i <= n,
            n == bv@.len(),
            forall|k: int| 0 <= k < i ==> bv@[k].0 != suspect,
        decreases n - i,
    {
        if bv[i].0 == suspect {
            return Option::Some(i);
        }
        i = i + 1;
    }
    Option::None
}

impl Node {
    /// The accusation pass: every sender of an accumulated Prepare for the
    /// current `(view, seq)` whose digest differs from the chosen one is
    /// marked suspected, and a ByzantineVote naming it is broadcast.
    fn detect_byzantine_nodes(&mut self, chosen: &Vec<u8>, v: u64, s: u64) -> (r: Vec<PBFTMessage>)
        requires
            node_wf(*old(self)),
            v == old(self).view,
            s == old(self).sequence_number,
        ensures
            node_wf(*final(self)),
            final(self).id == old(self).id,
            final(self).view == old(self).view,
            final(self).sequence_number == old(self).sequence_number,
            final(self).digest == old(self).digest,
            final(self).state.prepared == old(self).state.prepared,
            final(self).state.committed == old(self).state.committed,
            final(self).state.messages == old(self).state.messages,
            final(self).state.view_change_messages == old(self).state.view_change_messages,
            final(self).view_change_in_progress == old(self).view_change_in_progress,
            final(self).signing_key == old(self).signing_key,
            final(self).public_key == old(self).public_key,
            final(self).public_keys == old(self).public_keys,
            final(self).is_byzantine == old(self).is_byzantine,
            final(self).pending_requests == old(self).pending_requests,
            final(self).new_view_timer_armed == old(self).new_view_timer_armed,
            forall|x: u64|
                final(self).suspected_nodes@.contains(x) <==> old(
                    self,
                ).suspected_nodes@.contains(x) || bad_sender(
                    old(self).state.messages@,
                    v,
                    s,
                    chosen@,
                    x,
                ),
            forall|x: u64|
                final(self).suspected_nodes@.contains(x) && !old(self).suspected_nodes@.contains(
                    x,
                ) ==> row_has_accuser(final(self).state.byzantine_votes@, x, old(self).id),
            (forall|x: u64| bad_sender(old(self).state.messages@, v, s, chosen@, x) ==> old(
                self,
            ).suspected_nodes@.contains(x)) ==> final(self).suspected_nodes == old(
                self,
            ).suspected_nodes && final(self).state.byzantine_votes == old(
                self,
            ).state.byzantine_votes && final(self).blacklist == old(self).blacklist,
            forall|b: u64| old(self).blacklist@.contains(b) ==> final(self).blacklist@.contains(b),
            vote_list(
                r@,
                old(self).id,
                old(self).signing_key@,
                old(self).suspected_nodes@,
                final(self).suspected_nodes@,
            ),
    {
        let mut votes: Vec<PBFTMessage> = Vec::new();
        let n = self.state.messages.len();
        let mut i: usize = 0;
        while i < n
            invariant
                i <= n,
                n == self.state.messages@.len(),
                self.id == old(self).id,
                self.view == old(self).view,
                self.sequence_number == old(self).sequence_number,
                self.digest == old(self).digest,
                self.state.prepared == old(self).state.prepared,
                self.state.committed == old(self).state.committed,
                self.state.messages == old(self).state.messages,
                self.state.view_change_messages == old(self).state.view_change_messages,
                self.view_change_in_progress == old(self).view_change_in_progress,
                self.signing_key == old(self).signing_key,
                self.public_key == old(self).public_key,
                self.public_keys == old(self).public_keys,
                self.is_byzantine == old(self).is_byzantine,
                self.pending_requests == old(self).pending_requests,
                self.new_view_timer_armed == old(self).new_view_timer_armed,
                self.signing_key@.len() == 32,
                node_wf(*self),
                self.suspected_nodes@.no_duplicates(),
                forall|y: u64|
                    self.suspected_nodes@.contains(y) && !old(self).suspected_nodes@.contains(y)
                        ==> row_has_accuser(self.state.byzantine_votes@, y, old(self).id),
                (forall|x: u64|
                    bad_sender(
                        old(self).state.messages@.subrange(0, i as int),
                        v,
                        s,
                        chosen@,
                        x,
                    ) ==> old(self).suspected_nodes@.contains(x))
                    ==> self.suspected_nodes == old(self).suspected_nodes
                    && self.state.byzantine_votes == old(self).state.byzantine_votes
                    && self.blacklist == old(self).blacklist,
                forall|b: u64| old(self).blacklist@.contains(b) ==> self.blacklist@.contains(b),
                forall|x: u64|
                    self.suspected_nodes@.contains(x) <==> old(self).suspected_nodes@.contains(x)
                        || bad_sender(
                        old(self).state.messages@.subrange(0, i as int),
                        v,
                        s,
                        chosen@,
                        x,
                    ),
                vote_list(
                    votes@,
                    old(self).id,
                    old(self).signing_key@,
                    old(self).suspected_nodes@,
                    self.suspected_nodes@,
                ),
            decreases n - i,
        {
            proof {
                lemma_bad_sender_extend(old(self).state.messages@, i as int, v, s, chosen@);
            }
            let ghost votes0 = votes@;
            let ghost sus0 = self.suspected_nodes@;
            let hit: Option<u64> = match &self.state.messages[i].1 {
                PBFTMessage::Prepare { view, sequence_number, digest, sender_id } => {
                    if *view == v && *sequence_number == s && !bytes_eq(digest, chosen) {
                        Option::Some(*sender_id)
                    } else {
                        Option::None
                    }
                },
                _ => Option::None,
            };
            match hit {
                Option::Some(x) => {
                    proof {
                        assert(old(self).state.messages@[i as int]
                            == self.state.messages@[i as int]);
                        assert forall|y: u64|
                            bad_sender(
                                old(self).state.messages@.subrange(0, i + 1 as int),
                                v,
                                s,
                                chosen@,
                                y,
                            ) <==> bad_sender(
                                old(self).state.messages@.subrange(0, i as int),
                                v,
                                s,
                                chosen@,
                                y,
                            ) || y == x by {}
                    }
                    if !contains_u64(&self.suspected_nodes, x) {
                        let env = self.broadcast(
                            PBFTMessage::ByzantineVote { suspected_id: x, sender_id: self.id },
                        );
                        self.suspected_nodes.push(x);
                        votes.push(env);
                        let ghost bv0 = self.state.byzantine_votes@;
                        let ghost bl0 = self.blacklist@;
                        let ghost sus1 = self.suspected_nodes@;
                        let myid = self.id;
                        let tally = self.handle_byzantine_vote(x, myid);
                        proof {
                            assert(tally@.len() == 0);
                            assert(self.suspected_nodes@ == sus1);
                            assert forall|b: u64| bl0.contains(b) implies self.blacklist@.contains(
                                b,
                            ) by {
                                if self.blacklist@ != bl0 {
                                    assert(self.blacklist@ == bl0.push(x));
                                    lemma_push_contains(bl0, x, b);
                                }
                            }
                            assert forall|q: u64|
                                self.suspected_nodes@.contains(q) <==> (sus0.contains(q) || q
                                    == x) by {
                                assert(sus1 == sus0.push(x));
                                lemma_push_contains(sus0, x, q);
                            }
                            assert forall|q: u64|
                                self.suspected_nodes@.contains(q) <==> (old(
                                    self,
                                ).suspected_nodes@.contains(q) || bad_sender(
                                    old(self).state.messages@.subrange(0, i + 1 as int),
                                    v,
                                    s,
                                    chosen@,
                                    q,
                                )) by {
                                assert(self.suspected_nodes@.contains(q) <==> (sus0.contains(q)
                                    || q == x));
                                assert(sus0.contains(q) <==> (old(self).suspected_nodes@.contains(
                                    q,
                                ) || bad_sender(
                                    old(self).state.messages@.subrange(0, i as int),
                                    v,
                                    s,
                                    chosen@,
                                    q,
                                )));
                                assert(bad_sender(
                                    old(self).state.messages@.subrange(0, i + 1 as int),
                                    v,
                                    s,
                                    chosen@,
                                    q,
                                ) <==> (bad_sender(
                                    old(self).state.messages@.subrange(0, i as int),
                                    v,
                                    s,
                                    chosen@,
                                    q,
                                ) || q == x));
                            }
                            lemma_votes_updated_adds(
                                bv0,
                                self.state.byzantine_votes@,
                                x,
                                old(self).id,
                            );
                            assert forall|y: u64|
                                self.suspected_nodes@.contains(y) && !old(
                                    self,
                                ).suspected_nodes@.contains(y) implies row_has_accuser(
                                self.state.byzantine_votes@,
                                y,
                                old(self).id,
                            ) by {
                                if y != x {
                                    lemma_push_contains(sus0, x, y);
                                    lemma_votes_updated_keeps(
                                        bv0,
                                        self.state.byzantine_votes@,
                                        x,
                                        old(self).id,
                                        y,
                                        old(self).id,
                                    );
                                }
                            }
                            assert(votes@ == votes0.push(env));
                            assert(self.suspected_nodes@ == sus0.push(x));
                            assert(bad_sender(
                                old(self).state.messages@.subrange(0, i + 1 as int),
                                v,
                                s,
                                chosen@,
                                x,
                            ) && !old(self).suspected_nodes@.contains(x));
                            assert(inner_of(env) == (PBFTMessage::ByzantineVote {
                                suspected_id: x,
                                sender_id: old(self).id,
                            }));
                            assert(is_signed_by(env, *old(self)));
                            assert(!old(self).suspected_nodes@.contains(x));
                            assert forall|q: u64|
                                self.suspected_nodes@.contains(q) <==> (sus0.contains(q) || q
                                    == x) by {
                                lemma_push_contains(sus0, x, q);
                            }
                            assert(self.suspected_nodes@.no_duplicates());
                            assert forall|k: int|
                                #![trigger votes@[k]]
                                0 <= k < votes@.len() implies {
                                let y = inner_of(votes@[k])->ByzantineVote_suspected_id;
                                &&& is_signed_by(votes@[k], *old(self))
                                &&& inner_of(votes@[k]) is ByzantineVote
                                &&& inner_of(votes@[k])->ByzantineVote_sender_id == old(self).id
                                &&& !old(self).suspected_nodes@.contains(y)
                                &&& self.suspected_nodes@.contains(y)
                            } by {
                                if k < votes0.len() {
                                    assert(votes@[k] == votes0[k]);
                                    assert(sus0.contains(
                                        inner_of(votes0[k])->ByzantineVote_suspected_id,
                                    ));
                                } else {
                                    assert(votes@[k] == env);
                                    assert(self.suspected_nodes@.contains(x));
                                }
                            }
                            assert forall|y: u64|
                                self.suspected_nodes@.contains(y) && !old(
                                    self,
                                ).suspected_nodes@.contains(y) implies exists|k: int|
                                0 <= k < votes@.len() && inner_of(#[trigger] votes@[k])
                                    == (PBFTMessage::ByzantineVote {
                                    suspected_id: y,
                                    sender_id: old(self).id,
                                }) by {
                                if sus0.contains(y) {
                                    let k = choose|k: int|
                                        0 <= k < votes0.len() && inner_of(#[trigger] votes0[k])
                                            == (PBFTMessage::ByzantineVote {
                                            suspected_id: y,
                                            sender_id: old(self).id,
                                        });
                                    assert(votes@[k] == votes0[k]);
                                } else {
                                    lemma_push_contains(sus0, x, y);
                                    assert(y == x);
                                    assert(votes@[votes@.len() - 1] == env);
                                }
                            }
                            assert(vote_list(
                                votes@,
                                old(self).id,
                                old(self).signing_key@,
                                old(self).suspected_nodes@,
                                self.suspected_nodes@,
                            ));
                        }
                    } else {
                        proof {
                            assert(sus0.contains(x));
                        }
                    }
                },
                Option::None => {
                    proof {
                        assert(old(self).state.messages@[i as int]
                            == self.state.messages@[i as int]);
                        assert forall|y: u64|
                            bad_sender(
                                old(self).state.messages@.subrange(0, i + 1 as int),
                                v,
                                s,
                                chosen@,
                                y,
                            ) <==> bad_sender(
                                old(self).state.messages@.subrange(0, i as int),
                                v,
                                s,
                                chosen@,
                                y,
                            ) by {}
                    }
                },
            }
            proof {
                assert forall|y: u64|
                    bad_sender(
                        old(self).state.messages@.subrange(0, i as int),
                        v,
                        s,
                        chosen@,
                        y,
                    ) implies bad_sender(
                    old(self).state.messages@.subrange(0, i + 1 as int),
                    v,
                    s,
                    chosen@,
                    y,
                ) by {}
            }
            i = i + 1;
        }
        proof {
            assert(old(self).state.messages@.subrange(0, n as int) =~= old(
                self,
            ).state.messages@);
        }
        votes
    }
}

impl Node {
    /// Accumulates a Prepare under its authenticated sender, runs the
    /// accusation pass when the Prepares for the current slot disagree,
    /// and on a `2F` quorum for the chosen digest records the slot
    /// prepared and broadcasts a Commit.
    pub fn handle_prepare(&mut self, sender: u64, msg: PBFTMessage) -> (r: Vec<PBFTMessage>)
        requires
            node_wf(*old(self)),
            msg is Prepare,
        ensures
            node_wf(*final(self)),
            prepare_step(*old(self), sender, msg, *final(self), r@),
    {
        let v = self.view;
        let s = self.sequence_number;
        insert_entry(&mut self.state.messages, sender, msg);
        let ghost msgs = self.state.messages@;
        let digs = collect_digests(&self.state.messages, v, s);
        let best = choose_best(&digs, &self.state.messages, v, s);
        match best {
            Option::None => {
                proof {
                    assert(digests_present(msgs, v, s).len() == 0);
                    assert(chosen_digest(msgs, v, s) is None);
                }
                Vec::new()
            },
            Option::Some((idx, cnt)) => {
                let chosen = copy_bytes(&digs[idx]);
                proof {
                    assert(digs@[idx as int]@ == digs@.map_values(|x: Vec<u8>| x@)[idx as int]);
                    assert(chosen_digest(msgs, v, s) == Option::Some(chosen@));
                }
                let mut out: Vec<PBFTMessage> = Vec::new();
                if digs.len() > 1 {
                    proof {
                        assert(node_wf(*self));
                    }
                    out = self.detect_byzantine_nodes(&chosen, v, s);
                }
                let threshold: usize = 2 * (F as usize);
                if cnt >= threshold && !contains_pair(&self.state.prepared, s, &chosen) {
                    let ghost pre_prepared = self.state.prepared@;
                    let dg = copy_bytes(&chosen);
                    insert_pair(&mut self.state.prepared, s, dg);
                    proof {
                        assert(self.state.prepared@ == pre_prepared.push((s, dg)));
                        assert(self.state.prepared@.subrange(0, pre_prepared.len() as int)
                            =~= pre_prepared);
                        assert forall|i: int, j: int|
                            0 <= i < j < self.state.prepared@.len() implies !(
                        self.state.prepared@[i].0 == self.state.prepared@[j].0
                            && self.state.prepared@[i].1@ == self.state.prepared@[j].1@) by {
                            if j < pre_prepared.len() {
                                assert(self.state.prepared@[i] == pre_prepared[i]);
                                assert(self.state.prepared@[j] == pre_prepared[j]);
                            } else {
                                assert(self.state.prepared@[i] == pre_prepared[i]);
                                assert(!has_pair(pre_prepared, s, chosen@));
                            }
                        }
                        assert forall|i: int|
                            0 <= i < self.state.committed@.len() implies has_pair(
                            self.state.prepared@,
                            self.state.committed@[i].0,
                            self.state.committed@[i].1@,
                        ) by {
                            let w = choose|w: int|
                                0 <= w < pre_prepared.len() && pre_prepared[w].0
                                    == self.state.committed@[i].0 && pre_prepared[w].1@
                                    == self.state.committed@[i].1@;
                            assert(self.state.prepared@[w] == pre_prepared[w]);
                        }
                    }
                    let ghost votes_g = out@;
                    let env = self.broadcast(
                        PBFTMessage::Commit { view: v, sequence_number: s, digest: chosen },
                    );
                    out.push(env);
                    proof {
                        assert(out@.drop_last() =~= votes_g);
                    }
                }
                out
            },
        }
    }

    /// Accumulates a Commit under its authenticated sender; once `2F + 1`
    /// distinct senders back a Commit for the current slot and in-flight
    /// digest, records the slot committed (and prepared).
    pub fn handle_commit(&mut self, sender: u64, msg: PBFTMessage) -> (r: Vec<PBFTMessage>)
        requires
            node_wf(*old(self)),
            msg is Commit,
        ensures
            node_wf(*final(self)),
            commit_step(*old(self), sender, msg, *final(self), r@),
    {
        let v = self.view;
        let s = self.sequence_number;
        let own: usize = if contains_pair(&self.state.prepared, s, &self.digest) {
            1
        } else {
            0
        };
        insert_entry(&mut self.state.messages, sender, msg);
        let cnt = collect_commit_senders(&self.state.messages, v, s, &self.digest).len();
        let quorum = if own == 1 {
            cnt as u64 >= 2 * F
        } else {
            cnt as u64 >= 2 * F + 1
        };
        if quorum {
            let ghost pre_committed = self.state.committed@;
            let ghost pre_prepared = self.state.prepared@;
            let dg = copy_bytes(&self.digest);
            let dg2 = copy_bytes(&self.digest);
            insert_pair(&mut self.state.committed, s, dg);
            insert_pair(&mut self.state.prepared, s, dg2);
            proof {
                if !has_pair(pre_committed, s, self.digest@) {
                    assert(self.state.committed@.subrange(0, pre_committed.len() as int)
                        =~= pre_committed);
                }
                if !has_pair(pre_prepared, s, self.digest@) {
                    assert(self.state.prepared@.subrange(0, pre_prepared.len() as int)
                        =~= pre_prepared);
                }
                assert forall|i: int, j: int|
                    0 <= i < j < self.state.committed@.len() implies !(self.state.committed@[i].0
                    == self.state.committed@[j].0 && self.state.committed@[i].1@
                    == self.state.committed@[j].1@) by {
                    if j < pre_committed.len() {
                        assert(self.state.committed@[i] == pre_committed[i]);
                        assert(self.state.committed@[j] == pre_committed[j]);
                    } else {
                        assert(self.state.committed@[i] == pre_committed[i]);
                    }
                }
                assert forall|i: int, j: int|
                    0 <= i < j < self.state.prepared@.len() implies !(self.state.prepared@[i].0
                    == self.state.prepared@[j].0 && self.state.prepared@[i].1@
                    == self.state.prepared@[j].1@) by {
                    if j < pre_prepared.len() {
                        assert(self.state.prepared@[i] == pre_prepared[i]);
                        assert(self.state.prepared@[j] == pre_prepared[j]);
                    } else {
                        assert(self.state.prepared@[i] == pre_prepared[i]);
                        assert(!has_pair(pre_prepared, s, self.digest@));
                    }
                }
                assert forall|i: int|
                    0 <= i < self.state.committed@.len() implies has_pair(
                    self.state.prepared@,
                    self.state.committed@[i].0,
                    self.state.committed@[i].1@,
                ) by {
                    if i < pre_committed.len() {
                        assert(self.state.committed@[i] == pre_committed[i]);
                        let w = choose|w: int|
                            0 <= w < pre_prepared.len() && pre_prepared[w].0
                                == pre_committed[i].0 && pre_prepared[w].1@
                                == pre_committed[i].1@;
                        assert(self.state.prepared@[w] == pre_prepared[w]);
                    } else {
                        assert(self.state.committed@[i].0 == s && self.state.committed@[i].1@
                            == self.digest@);
                        if has_pair(pre_prepared, s, self.digest@) {
                            let w = choose|w: int|
                                0 <= w < pre_prepared.len() && pre_prepared[w].0 == s
                                    && pre_prepared[w].1@ == self.digest@;
                            assert(self.state.prepared@[w] == pre_prepared[w]);
                        } else {
                            assert(self.state.prepared@.last().0 == s
                                && self.state.prepared@.last().1@ == self.digest@);
                        }
                    }
                }
            }
        }
        Vec::new()
    }

    /// Tallies an accusation; once `2F + 1` distinct accusers name the
    /// same suspect, the suspect joins the blacklist.
    pub fn handle_byzantine_vote(&mut self, suspected_id: u64, sender_id: u64) -> (r: Vec<
        PBFTMessage,
    >)
        requires
            node_wf(*old(self)),
        ensures
            node_wf(*final(self)),
            byz_vote_step(*old(self), suspected_id, sender_id, *final(self), r@),
    {
        let ghost pre_bv = self.state.byzantine_votes@;
        match find_row(&self.state.byzantine_votes, suspected_id) {
            Option::Some(i) => {
                let mut row = self.state.byzantine_votes.remove(i);
                if !contains_u64(&row.1, sender_id) {
                    row.1.push(sender_id);
                }
                let confirmed = row.1.len() as u64 >= 2 * F + 1;
                self.state.byzantine_votes.insert(i, row);
                proof {
                    assert(self.state.byzantine_votes@ =~= pre_bv.update(i as int, row));
                    let ci = choose|ci: int| 0 <= ci < pre_bv.len() && pre_bv[ci].0 == suspected_id;
                    assert(ci == i);
                    assert(votes_updated(
                        pre_bv,
                        self.state.byzantine_votes@,
                        suspected_id,
                        sender_id,
                    ));
                }
                if confirmed {
                    if !contains_u64(&self.blacklist, suspected_id) {
                        self.blacklist.push(suspected_id);
                        proof {
                            assert(self.blacklist@.no_duplicates());
                        }
                    }
                    proof {
                        assert(self.state.byzantine_votes@[i as int].0 == suspected_id
                            && self.state.byzantine_votes@[i as int].1@.len() >= 2 * F + 1);
                    }
                } else {
                    proof {
                        assert forall|j: int|
                            0 <= j < self.state.byzantine_votes@.len()
                                && self.state.byzantine_votes@[j].0 == suspected_id implies
                        self.state.byzantine_votes@[j].1@.len() < 2 * F + 1 by {
                            if j != i {
                                assert(self.state.byzantine_votes@[j] == pre_bv[j]);
                            }
                        }
                    }
                }
            },
            Option::None => {
                let mut accusers: Vec<u64> = Vec::new();
                accusers.push(sender_id);
                self.state.byzantine_votes.push((suspected_id, accusers));
                proof {
                    assert(self.state.byzantine_votes@.last().1@ =~= seq![sender_id]);
                    assert(self.state.byzantine_votes@.subrange(0, pre_bv.len() as int)
                        =~= pre_bv);
                    assert forall|j: int|
                        0 <= j < self.state.byzantine_votes@.len()
                            && self.state.byzantine_votes@[j].0 == suspected_id implies
                    self.state.byzantine_votes@[j].1@.len() < 2 * F + 1 by {
                        if j < pre_bv.len() {
                            assert(self.state.byzantine_votes@[j] == pre_bv[j]);
                        }
                    }
                }
            },
        }
        Vec::new()
    }
}

/// Registering a key keeps the first key seen for each replica
/// (trust on first use): a later key for a known replica is ignored.
pub open spec fn pubkey_step(
    pre: Node,
    node_id: u64,
    key: Seq<u8>,
    post: Node,
    out: Seq<PBFTMessage>,
) -> bool {
    &&& out.len() == 0
    &&& same_identity(pre, post)
    &&& post.view == pre.view
    &&& post.sequence_number == pre.sequence_number
    &&& post.digest == pre.digest
    &&& post.state == pre.state
    &&& post.view_change_in_progress == pre.view_change_in_progress
    &&& post.new_view_timer_armed == pre.new_view_timer_armed
    &&& post.suspected_nodes == pre.suspected_nodes
    &&& post.blacklist == pre.blacklist
    &&& post.pending_requests == pre.pending_requests
    &&& if exists|i: int| 0 <= i < pre.public_keys@.len() && pre.public_keys@[i].0 == node_id {
        post.public_keys == pre.public_keys
    } else {
        &&& post.public_keys@.len() == pre.public_keys@.len() + 1
        &&& post.public_keys@.subrange(0, pre.public_keys@.len() as int) == pre.public_keys@
        &&& post.public_keys@.last().0 == node_id
        &&& post.public_keys@.last().1@ == key
    }
}

/// The replica a message claims to come from; a bare protocol message
/// counts as the replica's own.
pub open spec fn sender_of(m: PBFTMessage, self_id: u64) -> u64 {
    match m {
        PBFTMessage::SignedMessage { sender_id, .. } => sender_id,
        PBFTMessage::ByzantineVote { sender_id, .. } => sender_id,
        PBFTMessage::PubKey { node_id, .. } => node_id,
        _ => self_id,
    }
}

/// Dispatch of a validated message to its handler, by variant. `sender`
/// is the authenticated sender the envelope carried.
pub open spec fn dispatch_step(
    pre: Node,
    m: PBFTMessage,
    sender: u64,
    post: Node,
    out: Seq<PBFTMessage>,
) -> bool {
    match m {
        PBFTMessage::Request { .. } => request_step(pre, m, post, out),
        PBFTMessage::PrePrepare { .. } => preprepare_step(pre, m, post, out),
        PBFTMessage::Prepare { .. } => prepare_step(pre, sender, m, post, out),
        PBFTMessage::Commit { .. } => commit_step(pre, sender, m, post, out),
        PBFTMessage::ViewChange { .. } => handle_vc_step(pre, m, post, out),
        PBFTMessage::NewView { .. } => new_view_step(pre, m, post, out),
        PBFTMessage::ByzantineVote { suspected_id, sender_id } => byz_vote_step(
            pre,
            suspected_id,
            sender_id,
            post,
            out,
        ),
        PBFTMessage::PubKey { node_id, public_key } => pubkey_step(
            pre,
            node_id,
            public_key@,
            post,
            out,
        ),
        PBFTMessage::SignedMessage { .. } => post == pre && out.len() == 0,
    }
}

/// What receiving any message does: a blacklisted sender is dropped; a
/// signed envelope is opened only when the sender's key is known and the
/// signature verifies over the inner message's canonical bytes, and the
/// inner message is then received under that sender; a bare message is
/// dispatched.
pub open spec fn message_step(
    pre: Node,
    m: PBFTMessage,
    sender: u64,
    post: Node,
    out: Seq<PBFTMessage>,
) -> bool
    decreases m,
{
    if pre.blacklist@.contains(sender_of(m, pre.id)) {
        post == pre && out.len() == 0
    } else {
        match m {
            PBFTMessage::SignedMessage { message, signature, sender_id } => {
                match key_for(pre.public_keys@, sender_id) {
                    Option::None => post == pre && out.len() == 0,
                    Option::Some(k) => {
                        if sig_verifies(k, encoded(*message), signature@) {
                            message_step(pre, *message, sender_id, post, out)
                        } else {
                            post == pre && out.len() == 0
                        }
                    },
                }
            },
            _ => dispatch_step(pre, m, sender, post, out),
        }
    }
}

/// The first key registered for a replica is the one `key_for` yields.
proof fn lemma_key_for_first(ks: Seq<(u64, Vec<u8>)>, id: u64, i: int)
    requires
        0 <= i < ks.len(),
        ks[i].0 == id,
        forall|k: int| 0 <= k < i ==> ks[k].0 != id,
    ensures
        key_for(ks, id) == Option::Some(ks[i].1@),
    decreases i,
{
    if i > 0 {
        assert(ks.drop_first()[i - 1] == ks[i]);
        assert forall|k: int| 0 <= k < i - 1 implies ks.drop_first()[k].0 != id by {
            assert(ks.drop_first()[k] == ks[k + 1]);
        }
        lemma_key_for_first(ks.drop_first(), id, i - 1);
    }
}

/// With no key registered for a replica, `key_for` yields none.
proof fn lemma_key_for_none(ks: Seq<(u64, Vec<u8>)>, id: u64)
    requires
        forall|k: int| 0 <= k < ks.len() ==> ks[k].0 != id,
    ensures
        key_for(ks, id) is None,
    decreases ks.len(),
{
    if ks.len() > 0 {
        assert forall|k: int| 0 <= k < ks.drop_first().len() implies ks.drop_first()[k].0
            != id by {
            assert(ks.drop_first()[k] == ks[k + 1]);
        }
        lemma_key_for_none(ks.drop_first(), id);
    }
}

/// Finds the registered key row for a replica: the first, and with a
/// well-formed replica the only, row with its id.
fn find_key(ks: &Vec<(u64, Vec<u8>)>, id: u64) -> (r: Option<usize>)
    ensures
        match r {
            Option::Some(i) => i < ks@.len() && ks@[i as int].0 == id && key_for(ks@, id)
                == Option::Some(ks@[i as int].1@),
            Option::None => key_for(ks@, id) is None && (forall|k: int|
                0 <= k < ks@.len() ==> ks@[k].0 != id),
        },
{
    let n = ks.len();
    let mut i: usize = 0;
    while i < n
        invariant
            i <= n,
            n == ks@.len(),
            forall|k: int| 0 <= k < i ==> ks@[k].0 != id,
        decreases n - i,
    {
        if ks[i].0 == id {
            proof {
                lemma_key_for_first(ks@, id, i as int);
            }
            return Option::Some(i);
        }
        i = i + 1;
    }
    proof {
        lemma_key_for_none(ks@, id);
    }
    Option::None
}

impl Node {
    /// Gathers a ViewChange for the current view; as the primary of that
    /// view, once `2F` distinct replicas back it, announces the NewView.
    pub fn handle_view_change(&mut self, msg: PBFTMessage) -> (r: Vec<PBFTMessage>)
        requires
            node_wf(*old(self)),
            msg is ViewChange,
        ensures
            node_wf(*final(self)),
            handle_vc_step(*old(self), msg, *final(self), r@),
    {
        let (mv, mls, mn) = match &msg {
            PBFTMessage::ViewChange { view, last_sequence_number, node_id } => (
                *view,
                *last_sequence_number,
                *node_id,
            ),
            _ => (0u64, 0u64, 0u64),
        };
        if mv == self.view {
            insert_vc(&mut self.state.view_change_messages, mv, mls, mn);
            let cnt = collect_vc_senders(&self.state.view_change_messages, self.view).len();
            if cnt as u64 >= 2 * F && self.is_primary() {
                self.send_new_view()
            } else {
                Vec::new()
            }
        } else {
            Vec::new()
        }
    }

    /// As the new primary: broadcasts the NewView carrying the gathered
    /// ViewChanges, cancels the NewView timer and stands down from the
    /// view change.
    pub fn send_new_view(&mut self) -> (r: Vec<PBFTMessage>)
        requires
            node_wf(*old(self)),
        ensures
            node_wf(*final(self)),
            !final(self).view_change_in_progress,
            !final(self).new_view_timer_armed,
            same_identity(*old(self), *final(self)),
            final(self).view == old(self).view,
            final(self).sequence_number == old(self).sequence_number,
            final(self).digest == old(self).digest,
            final(self).state == old(self).state,
            final(self).public_keys == old(self).public_keys,
            final(self).suspected_nodes == old(self).suspected_nodes,
            final(self).blacklist == old(self).blacklist,
            final(self).pending_requests == old(self).pending_requests,
            r@.len() == 1,
            is_signed_by(r@[0], *old(self)),
            inner_of(r@[0]) matches PBFTMessage::NewView { view, view_change_messages } && view
                == old(self).view && view_change_messages@.len() == old(
                self,
            ).state.view_change_messages@.len() && (forall|i: int|
                0 <= i < view_change_messages@.len() ==> same_vc(
                    view_change_messages@[i],
                    old(self).state.view_change_messages@[i],
                )),
    {
        let mut vcs: Vec<PBFTMessage> = Vec::new();
        let n = self.state.view_change_messages.len();
        let mut i: usize = 0;
        while i < n
            invariant
                i <= n,
                n == self.state.view_change_messages@.len(),
                *self == *old(self),
                node_wf(*self),
                vcs@.len() == i,
                forall|k: int|
                    0 <= k < i ==> same_vc(vcs@[k], self.state.view_change_messages@[k]),
            decreases n - i,
        {
            match &self.state.view_change_messages[i] {
                PBFTMessage::ViewChange { view, last_sequence_number, node_id } => {
                    vcs.push(
                        PBFTMessage::ViewChange {
                            view: *view,
                            last_sequence_number: *last_sequence_number,
                            node_id: *node_id,
                        },
                    );
                },
                _ => {
                    proof {
                        assert(false);
                    }
                },
            }
            i = i + 1;
        }
        let env = self.broadcast(
            PBFTMessage::NewView { view: self.view, view_change_messages: vcs },
        );
        self.new_view_timer_armed = false;
        self.view_change_in_progress = false;
        let mut out: Vec<PBFTMessage> = Vec::new();
        out.push(env);
        out
    }

    /// Accepts a NewView for a view at least the current one: adopts it,
    /// resets the in-flight request and the gathered ViewChanges, cancels
    /// the NewView timer, and as the new primary replays queued requests.
    pub fn handle_new_view(&mut self, msg: PBFTMessage) -> (r: Vec<PBFTMessage>)
        requires
            node_wf(*old(self)),
            msg is NewView,
        ensures
            node_wf(*final(self)),
            new_view_step(*old(self), msg, *final(self), r@),
    {
        let nv = match &msg {
            PBFTMessage::NewView { view, .. } => *view,
            _ => 0u64,
        };
        if nv >= self.view {
            self.view = nv;
            self.view_change_in_progress = false;
            self.sequence_number = 0;
            self.digest = Vec::new();
            self.state.view_change_messages = Vec::new();
            self.new_view_timer_armed = false;
            let mut out: Vec<PBFTMessage> = Vec::new();
            if self.is_primary() && self.pending_requests.len() > 0 {
                let n = self.pending_requests.len();
                let mut i: usize = 0;
                while i < n
                    invariant
                        0 < i <= n || i == 0,
                        n == self.pending_requests@.len(),
                        self.id == old(self).id,
                        self.view == nv,
                        self.signing_key == old(self).signing_key,
                        self.public_key == old(self).public_key,
                        self.public_keys == old(self).public_keys,
                        self.is_byzantine == old(self).is_byzantine,
                        self.state.prepared == old(self).state.prepared,
                        self.state.committed == old(self).state.committed,
                        self.state.messages == old(self).state.messages,
                        self.state.byzantine_votes == old(self).state.byzantine_votes,
                        self.state.view_change_messages@.len() == 0,
                        self.pending_requests == old(self).pending_requests,
                        self.suspected_nodes == old(self).suspected_nodes,
                        self.blacklist == old(self).blacklist,
                        !self.view_change_in_progress,
                        !self.new_view_timer_armed,
                        node_wf(*self),
                        self.sequence_number == i,
                        out@.len() == i,
                        forall|k: int|
                            0 <= k < i ==> is_signed_by(out@[k], *old(self)) && (inner_of(
                                out@[k],
                            ) matches PBFTMessage::PrePrepare { view, sequence_number, digest }
                                && view == nv && sequence_number == k + 1 && digest@ == digest_of(
                                self.pending_requests@[k]->Request_operation@,
                            )),
                        i > 0 ==> self.digest@ == digest_of(
                            self.pending_requests@[i - 1]->Request_operation@,
                        ),
                    decreases n - i,
                {
                    let op = match &self.pending_requests[i] {
                        PBFTMessage::Request { operation } => copy_bytes(operation),
                        _ => Vec::new(),
                    };
                    self.sequence_number = self.sequence_number + 1;
                    let dgv = compute_digest(&op);
                    self.digest = copy_bytes(&dgv);
                    let env = self.broadcast(
                        PBFTMessage::PrePrepare {
                            view: self.view,
                            sequence_number: self.sequence_number,
                            digest: dgv,
                        },
                    );
                    out.push(env);
                    i = i + 1;
                }
            }
            out
        } else {
            Vec::new()
        }
    }

    /// Dispatches a bare, validated protocol message to its handler.
    /// `sender` is the authenticated sender its envelope carried (the
    /// replica's own id for a message injected locally).
    pub fn process_message(&mut self, msg: PBFTMessage, sender: u64) -> (r: Vec<PBFTMessage>)
        requires
            node_wf(*old(self)),
        ensures
            node_wf(*final(self)),
            dispatch_step(*old(self), msg, sender, *final(self), r@),
    {
        match &msg {
            PBFTMessage::Request { .. } => self.handle_request(msg),
            PBFTMessage::PrePrepare { .. } => self.handle_preprepare(msg),
            PBFTMessage::Prepare { .. } => self.handle_prepare(sender, msg),
            PBFTMessage::Commit { .. } => self.handle_commit(sender, msg),
            PBFTMessage::ViewChange { .. } => self.handle_view_change(msg),
            PBFTMessage::NewView { .. } => self.handle_new_view(msg),
            PBFTMessage::ByzantineVote { suspected_id, sender_id } => {
                let si = *suspected_id;
                let se = *sender_id;
                self.handle_byzantine_vote(si, se)
            },
            PBFTMessage::PubKey { node_id, public_key } => {
                let nid = *node_id;
                let ghost kv = public_key@;
                let key = match msg {
                    PBFTMessage::PubKey { node_id: _, public_key } => public_key,
                    _ => Vec::new(),
                };
                match find_key(&self.public_keys, nid) {
                    Option::Some(_) => Vec::new(),
                    Option::None => {
                        let ghost pre_keys = self.public_keys@;
                        self.public_keys.push((nid, key));
                        proof {
                            assert(self.public_keys@.subrange(0, pre_keys.len() as int)
                                =~= pre_keys);
                            assert forall|i: int, j: int|
                                0 <= i < j < self.public_keys@.len() implies self.public_keys@[i].0
                                != self.public_keys@[j].0 by {
                                if j < pre_keys.len() {
                                    assert(self.public_keys@[i] == pre_keys[i]);
                                    assert(self.public_keys@[j] == pre_keys[j]);
                                } else {
                                    assert(self.public_keys@[i] == pre_keys[i]);
                                    if self.public_keys@[i].0 == nid {
                                        lemma_key_for_first(pre_keys, nid, i);
                                    }
                                }
                            }
                        }
                        Vec::new()
                    },
                }
            },
            PBFTMessage::SignedMessage { .. } => Vec::new(),
        }
    }

    /// Receives one inbound message: drops it if its claimed sender is
    /// blacklisted; opens and checks a signed envelope against the
    /// sender's registered key, then receives the inner message under
    /// that sender; dispatches a bare message.
    pub fn handle_message(&mut self, msg: PBFTMessage) -> (r: Vec<PBFTMessage>)
        requires
            node_wf(*old(self)),
        ensures
            node_wf(*final(self)),
            message_step(*old(self), msg, old(self).id, *final(self), r@),
    {
        let sid = self.id;
        self.handle_message_from(msg, sid)
    }

    /// Receives a message whose authenticated sender is `sender`.
    fn handle_message_from(&mut self, msg: PBFTMessage, sender: u64) -> (r: Vec<PBFTMessage>)
        requires
            node_wf(*old(self)),
        ensures
            node_wf(*final(self)),
            message_step(*old(self), msg, sender, *final(self), r@),
        decreases msg,
    {
        let s_of = match &msg {
            PBFTMessage::SignedMessage { sender_id, .. } => *sender_id,
            PBFTMessage::ByzantineVote { sender_id, .. } => *sender_id,
            PBFTMessage::PubKey { node_id, .. } => *node_id,
            _ => self.id,
        };
        if contains_u64(&self.blacklist, s_of) {
            return Vec::new();
        }
        let ghost m0 = msg;
        match msg {
            PBFTMessage::SignedMessage { message, signature, sender_id } => {
                match find_key(&self.public_keys, sender_id) {
                    Option::Some(ki) => {
                        let bytes = encode_message(&*message);
                        let ok = verify_bytes(&self.public_keys[ki].1, &bytes, &signature);
                        if ok {
                            proof {
                                assert(m0->SignedMessage_message == message);
                                assert(decreases_to!(m0 => *m0->SignedMessage_message));
                            }
                            self.handle_message_from(*message, sender_id)
                        } else {
                            Vec::new()
                        }
                    },
                    Option::None => Vec::new(),
                }
            },
            other => self.process_message(other, sender),
        }
    }
}

} // verus!

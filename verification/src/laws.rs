//! The protocol's stated properties, proved: agreement of committed
//! digests under the fault bound, committed-implies-prepared, the shape of
//! view changes, the primary rule, and idempotence of message handling on
//! persisted state.

use vstd::prelude::*;
use vstd::set_lib::lemma_len_subset;
use crate::config::{F, N};
use crate::msg::PBFTMessage;
use crate::node::{
    added_desc, added_pair, added_vc, chosen_digest, commit_senders, commit_step, handle_vc_step,
    has_desc, has_vc_desc, matches_desc, matches_vc, node_wf, prep_senders,
    preprepare_step, prepare_step, spec_is_primary, view_change_step, Node, PCDesc, VCDesc,
};
use crate::state::has_pair;

verus! {

/// The replicas with identifiers below `k`.
pub open spec fn replicas_upto(k: nat) -> Set<u64> {
    Set::new(|x: u64| (x as nat) < k)
}

/// There are exactly `k` replica identifiers below `k`.
proof fn lemma_replicas_upto(k: nat)
    requires
        k <= N,
    ensures
        replicas_upto(k).finite(),
        replicas_upto(k).len() == k,
    decreases k,
{
    if k == 0 {
        assert(replicas_upto(0) =~= Set::empty());
    } else {
        lemma_replicas_upto((k - 1) as nat);
        assert(replicas_upto((k - 1) as nat).insert((k - 1) as u64) =~= replicas_upto(k));
        assert(!replicas_upto((k - 1) as nat).contains((k - 1) as u64));
    }
}

/// A finite set splits into the part inside another set and the part
/// outside it.
proof fn lemma_partition(s: Set<u64>, t: Set<u64>)
    requires
        s.finite(),
    ensures
        s.intersect(t).finite(),
        s.difference(t).finite(),
        s.intersect(t).len() + s.difference(t).len() == s.len(),
    decreases s.len(),
{
    if s.is_empty() {
        assert(s.intersect(t) =~= Set::empty());
        assert(s.difference(t) =~= Set::empty());
    } else {
        let a = s.choose();
        assert(s.contains(a));
        let r = s.remove(a);
        lemma_partition(r, t);
        if t.contains(a) {
            assert(s.intersect(t) =~= r.intersect(t).insert(a));
            assert(s.difference(t) =~= r.difference(t));
            assert(!r.intersect(t).contains(a));
        } else {
            assert(s.intersect(t) =~= r.intersect(t));
            assert(s.difference(t) =~= r.difference(t).insert(a));
            assert(!r.difference(t).contains(a));
        }
    }
}

/// Disjoint finite sets add their sizes under union.
proof fn lemma_disjoint_union(s: Set<u64>, t: Set<u64>)
    requires
        s.finite(),
        t.finite(),
        s.intersect(t) =~= Set::empty(),
    ensures
        s.union(t).finite(),
        s.union(t).len() == s.len() + t.len(),
    decreases t.len(),
{
    if t.is_empty() {
        assert(s.union(t) =~= s);
    } else {
        let a = t.choose();
        assert(t.contains(a));
        let r = t.remove(a);
        assert(!s.intersect(t).contains(a));
        assert(!s.contains(a));
        assert(s.intersect(r) =~= Set::empty());
        lemma_disjoint_union(s, r);
        assert(s.union(t) =~= s.union(r).insert(a));
        assert(!s.union(r).contains(a));
    }
}

/// Quorum intersection: two sets of at least `2F + 1` replicas each must
/// share at least `F + 1` members, since there are only `N = 3F + 1`
/// replicas in all.
pub proof fn lemma_quorum_intersection(a: Set<u64>, b: Set<u64>)
    requires
        a.finite(),
        b.finite(),
        forall|x: u64| a.contains(x) ==> x < N,
        forall|x: u64| b.contains(x) ==> x < N,
        a.len() >= 2 * F + 1,
        b.len() >= 2 * F + 1,
    ensures
        a.intersect(b).finite(),
        a.intersect(b).len() >= F + 1,
{
    lemma_replicas_upto(N as nat);
    lemma_partition(b, a);
    lemma_disjoint_union(a, b.difference(a));
    assert(a.union(b) =~= a.union(b.difference(a)));
    assert(a.union(b).subset_of(replicas_upto(N as nat)));
    lemma_len_subset(a.union(b), replicas_upto(N as nat));
    assert(b.intersect(a) =~= a.intersect(b));
}

/// Safety of agreement: if two replicas each hold a `2F + 1` Commit quorum
/// for the same sequence number, at most `F` replicas are Byzantine, and
/// every honest replica backs a single digest (`hv` maps each replica to
/// the digest it committed to), then the two quorums back the same digest.
/// The quorums must share an honest replica, and it backs only one digest.
pub proof fn lemma_committed_agreement(
    a: Set<u64>,
    b: Set<u64>,
    byz: Set<u64>,
    hv: Map<u64, Seq<u8>>,
    da: Seq<u8>,
    db: Seq<u8>,
)
    requires
        a.finite(),
        b.finite(),
        byz.finite(),
        forall|x: u64| a.contains(x) ==> x < N,
        forall|x: u64| b.contains(x) ==> x < N,
        a.len() >= 2 * F + 1,
        b.len() >= 2 * F + 1,
        byz.len() <= F,
        forall|x: u64| a.contains(x) && !byz.contains(x) ==> hv[x] == da,
        forall|x: u64| b.contains(x) && !byz.contains(x) ==> hv[x] == db,
    ensures
        da == db,
{
    lemma_quorum_intersection(a, b);
    let i = a.intersect(b);
    lemma_partition(i, byz);
    assert(i.intersect(byz).subset_of(byz));
    lemma_len_subset(i.intersect(byz), byz);
    let honest = i.difference(byz);
    assert(honest.len() >= 1);
    if forall|x: u64| !honest.contains(x) {
        assert(honest =~= Set::empty());
        assert(false);
    }
    let x = choose|x: u64| honest.contains(x);
    assert(hv[x] == da);
    assert(hv[x] == db);
}

/// Everything committed is prepared, on every well-formed replica.
pub proof fn lemma_committed_subset_prepared(n: Node, s: u64, d: Seq<u8>)
    requires
        node_wf(n),
        has_pair(n.state.committed@, s, d),
    ensures
        has_pair(n.state.prepared@, s, d),
{
    let i = choose|i: int|
        0 <= i < n.state.committed@.len() && n.state.committed@[i].0 == s
            && n.state.committed@[i].1@ == d;
    assert(has_pair(n.state.prepared@, n.state.committed@[i].0, n.state.committed@[i].1@));
}

/// A view change always moves to a strictly larger view, exactly one
/// ahead, and the replica that may announce the new view is the one whose
/// identifier is the new view modulo the replica count.
pub proof fn lemma_view_change_advances(pre: Node, post: Node, out: Seq<PBFTMessage>)
    requires
        view_change_step(pre, post, out),
    ensures
        post.view > pre.view,
        post.view == pre.view + 1,
        spec_is_primary(post) <==> post.id == post.view % N,
{
}

/// The primary rule: a replica is primary exactly when its identifier
/// equals its view modulo the replica count.
pub proof fn lemma_primary_rule(n: Node)
    ensures
        spec_is_primary(n) <==> n.id == n.view % N,
{
}

/// A list that grew by a described entry afterwards holds one.
proof fn lemma_added_desc_has(pre: Seq<(u64, PBFTMessage)>, post: Seq<(u64, PBFTMessage)>, d: PCDesc)
    requires
        added_desc(pre, post, d),
    ensures
        has_desc(post, d),
{
    if has_desc(pre, d) {
        let i = choose|i: int| 0 <= i < pre.len() && matches_desc(pre[i], d);
        assert(matches_desc(post[i], d));
    } else {
        assert(matches_desc(post[post.len() - 1], d));
    }
}

/// A list that grew by a ViewChange afterwards holds one.
proof fn lemma_added_vc_has(pre: Seq<PBFTMessage>, post: Seq<PBFTMessage>, d: VCDesc)
    requires
        added_vc(pre, post, d),
    ensures
        has_vc_desc(post, d),
{
    if has_vc_desc(pre, d) {
        let i = choose|i: int| 0 <= i < pre.len() && matches_vc(pre[i], d);
        assert(matches_vc(post[i], d));
    } else {
        assert(matches_vc(post[post.len() - 1], d));
    }
}

/// A pair list that grew by `(s, d)` afterwards holds it.
proof fn lemma_added_pair_has(
    pre: Seq<(u64, Vec<u8>)>,
    post: Seq<(u64, Vec<u8>)>,
    s: u64,
    d: Seq<u8>,
)
    requires
        added_pair(pre, post, s, d),
    ensures
        has_pair(post, s, d),
{
    if has_pair(pre, s, d) {
        let i = choose|i: int| 0 <= i < pre.len() && pre[i].0 == s && pre[i].1@ == d;
        assert(post[i].0 == s && post[i].1@ == d);
    } else {
        assert(post[post.len() - 1].0 == s && post[post.len() - 1].1@ == d);
    }
}

/// Idempotence of PrePrepare handling: applying the same PrePrepare a
/// second time leaves the persisted state as it was after the first.
pub proof fn lemma_preprepare_idempotent(
    s0: Node,
    m: PBFTMessage,
    s1: Node,
    out1: Seq<PBFTMessage>,
    s2: Node,
    out2: Seq<PBFTMessage>,
)
    requires
        m is PrePrepare,
        preprepare_step(s0, m, s1, out1),
        preprepare_step(s1, m, s2, out2),
    ensures
        s2.state.prepared@ == s1.state.prepared@,
        s2.state.committed@ == s1.state.committed@,
        s2.state.messages@ == s1.state.messages@,
        s2.state.view_change_messages@ == s1.state.view_change_messages@,
        s2.state.byzantine_votes@ == s1.state.byzantine_votes@,
{
    let v = m->PrePrepare_view;
    let s = m->PrePrepare_sequence_number;
    let pd = if s0.is_byzantine {
        crate::node::wrong_digest()
    } else {
        m->PrePrepare_digest@
    };
    if v == s0.view && !spec_is_primary(s0) && !crate::node::own_prepare_conflict(
        s0.state.messages@,
        s0.id,
        v,
        s,
        pd,
    ) {
        let d = PCDesc {
            sender: s0.id,
            is_prep: true,
            view: v,
            seq: s,
            digest: pd,
            psender: s0.id,
        };
        lemma_added_desc_has(s0.state.messages@, s1.state.messages@, d);
        assert forall|i: int|
            0 <= i < s1.state.messages@.len() implies !((#[trigger] s1.state.messages@[i]).0
            == s0.id && (s1.state.messages@[i].1 matches PBFTMessage::Prepare {
            view: vv,
            sequence_number: ss,
            digest,
            sender_id,
        } && vv == v && ss == s && sender_id == s0.id && digest@ != pd)) by {
            if i < s0.state.messages@.len() {
                assert(s1.state.messages@[i] == s0.state.messages@[i]);
            } else {
                assert(crate::node::matches_desc(s1.state.messages@[i], d));
            }
        }
        assert(!crate::node::own_prepare_conflict(s1.state.messages@, s1.id, v, s, pd));
    }
}

/// Idempotence of Prepare handling: a second delivery of the same Prepare
/// from the same sender leaves the persisted state unchanged.
pub proof fn lemma_prepare_idempotent(
    s0: Node,
    sender: u64,
    m: PBFTMessage,
    s1: Node,
    out1: Seq<PBFTMessage>,
    s2: Node,
    out2: Seq<PBFTMessage>,
)
    requires
        m is Prepare,
        prepare_step(s0, sender, m, s1, out1),
        prepare_step(s1, sender, m, s2, out2),
    ensures
        s2.state.prepared@ == s1.state.prepared@,
        s2.state.committed@ == s1.state.committed@,
        s2.state.messages@ == s1.state.messages@,
        s2.state.view_change_messages@ == s1.state.view_change_messages@,
        s2.state.byzantine_votes@ == s1.state.byzantine_votes@,
{
    lemma_added_desc_has(
        s0.state.messages@,
        s1.state.messages@,
        crate::node::desc_of(sender, m),
    );
    let msgs = s1.state.messages@;
    let v = s0.view;
    let s = s0.sequence_number;
    match chosen_digest(msgs, v, s) {
        Option::Some(c) => {
            if prep_senders(msgs, v, s, c).len() >= 2 * F && !has_pair(s0.state.prepared@, s, c) {
                lemma_added_pair_has(s0.state.prepared@, s1.state.prepared@, s, c);
            }
        },
        Option::None => {
        },
    }
}

/// Idempotence of Commit handling: a second delivery of the same Commit
/// from the same sender leaves the persisted state unchanged.
pub proof fn lemma_commit_idempotent(
    s0: Node,
    sender: u64,
    m: PBFTMessage,
    s1: Node,
    out1: Seq<PBFTMessage>,
    s2: Node,
    out2: Seq<PBFTMessage>,
)
    requires
        m is Commit,
        commit_step(s0, sender, m, s1, out1),
        commit_step(s1, sender, m, s2, out2),
    ensures
        s2.state.prepared@ == s1.state.prepared@,
        s2.state.committed@ == s1.state.committed@,
        s2.state.messages@ == s1.state.messages@,
        s2.state.view_change_messages@ == s1.state.view_change_messages@,
        s2.state.byzantine_votes@ == s1.state.byzantine_votes@,
{
    lemma_added_desc_has(
        s0.state.messages@,
        s1.state.messages@,
        crate::node::desc_of(sender, m),
    );
    let msgs = s1.state.messages@;
    let v = s0.view;
    let s = s0.sequence_number;
    let dg = s0.digest@;
    let own: int = if has_pair(s0.state.prepared@, s, dg) {
        1
    } else {
        0
    };
    if commit_senders(msgs, v, s, dg).len() + own >= 2 * F + 1 {
        lemma_added_pair_has(s0.state.committed@, s1.state.committed@, s, dg);
        lemma_added_pair_has(s0.state.prepared@, s1.state.prepared@, s, dg);
    }
}

/// Idempotence of ViewChange handling: a second delivery of the same
/// ViewChange leaves the persisted state unchanged.
pub proof fn lemma_view_change_idempotent(
    s0: Node,
    m: PBFTMessage,
    s1: Node,
    out1: Seq<PBFTMessage>,
    s2: Node,
    out2: Seq<PBFTMessage>,
)
    requires
        m is ViewChange,
        handle_vc_step(s0, m, s1, out1),
        handle_vc_step(s1, m, s2, out2),
    ensures
        s2.state.prepared@ == s1.state.prepared@,
        s2.state.committed@ == s1.state.committed@,
        s2.state.messages@ == s1.state.messages@,
        s2.state.view_change_messages@ == s1.state.view_change_messages@,
        s2.state.byzantine_votes@ == s1.state.byzantine_votes@,
{
    let mv = m->ViewChange_view;
    if mv == s0.view {
        let d = VCDesc {
            view: mv,
            last_seq: m->ViewChange_last_sequence_number,
            node_id: m->ViewChange_node_id,
        };
        lemma_added_vc_has(
            s0.state.view_change_messages@,
            s1.state.view_change_messages@,
            d,
        );
    }
}

/// The one deliberate deviation: on a PrePrepare it acts on, a replica's
/// Prepare carries the proposal's digest exactly when the replica is
/// honest; a Byzantine replica substitutes its fixed wrong digest. (The
/// proposal digest is assumed distinct from the substitute, as any real
/// digest is.)
pub proof fn lemma_byzantine_prepare_digest(
    pre: Node,
    m: PBFTMessage,
    post: Node,
    out: Seq<PBFTMessage>,
)
    requires
        m is PrePrepare,
        preprepare_step(pre, m, post, out),
        out.len() == 1,
        m->PrePrepare_digest@ != crate::node::wrong_digest(),
    ensures
        crate::node::inner_of(out[0])->Prepare_digest@ == m->PrePrepare_digest@
            <==> !pre.is_byzantine,
{
}

} // verus!

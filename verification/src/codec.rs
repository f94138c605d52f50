//! Canonical byte encoding of protocol messages.
//!
//! Every message has exactly one byte form: a tag byte, fixed-width
//! big-endian integers, and length-prefixed byte strings. The same logical
//! value therefore produces identical bytes on every replica, which makes
//! the encoding fit to serve as the signing domain.

use vstd::prelude::*;
use crate::msg::PBFTMessage;
use crate::state::bytes_eq;

verus! {

/// A `u64` as eight big-endian bytes.
pub open spec fn enc_u64(v: u64) -> Seq<u8> {
    seq![
        (v >> 56) as u8,
        (v >> 48) as u8,
        (v >> 40) as u8,
        (v >> 32) as u8,
        (v >> 24) as u8,
        (v >> 16) as u8,
        (v >> 8) as u8,
        v as u8,
    ]
}

/// The `u64` read back from eight big-endian bytes.
pub open spec fn dec_u64(b: Seq<u8>) -> u64
    recommends
        b.len() >= 8,
{
    (((b[0] as u64) << 56) | ((b[1] as u64) << 48) | ((b[2] as u64) << 40) | ((b[3] as u64) << 32)
        | ((b[4] as u64) << 24) | ((b[5] as u64) << 16) | ((b[6] as u64) << 8) | (b[7] as u64))
}

/// A byte string, prefixed with its length.
pub open spec fn enc_bytes(b: Seq<u8>) -> Seq<u8> {
    enc_u64(b.len() as u64) + b
}

/// The canonical bytes of a message.
pub open spec fn encoded(m: PBFTMessage) -> Seq<u8>
    decreases m,
{
    match m {
        PBFTMessage::Request { operation } => seq![1u8] + enc_bytes(operation@),
        PBFTMessage::PrePrepare { view, sequence_number, digest } => seq![2u8] + enc_u64(view)
            + enc_u64(sequence_number) + enc_bytes(digest@),
        PBFTMessage::Prepare { view, sequence_number, digest, sender_id } => seq![3u8]
            + enc_u64(view) + enc_u64(sequence_number) + enc_u64(sender_id) + enc_bytes(digest@),
        PBFTMessage::Commit { view, sequence_number, digest } => seq![4u8] + enc_u64(view)
            + enc_u64(sequence_number) + enc_bytes(digest@),
        PBFTMessage::ViewChange { view, last_sequence_number, node_id } => seq![5u8]
            + enc_u64(view) + enc_u64(last_sequence_number) + enc_u64(node_id),
        PBFTMessage::NewView { view, view_change_messages } => seq![6u8] + enc_u64(view)
            + enc_u64(view_change_messages@.len() as u64) + enc_list(view_change_messages@),
        PBFTMessage::PubKey { node_id, public_key } => seq![7u8] + enc_u64(node_id)
            + enc_bytes(public_key@),
        PBFTMessage::SignedMessage { message, signature, sender_id } => seq![8u8]
            + enc_u64(sender_id) + enc_bytes(signature@) + encoded(*message),
        PBFTMessage::ByzantineVote { suspected_id, sender_id } => seq![9u8]
            + enc_u64(suspected_id) + enc_u64(sender_id),
    }
}

/// The canonical bytes of a message list: each message in order.
pub open spec fn enc_list(ms: Seq<PBFTMessage>) -> Seq<u8>
    decreases ms,
{
    if ms.len() == 0 {
        Seq::empty()
    } else {
        encoded(ms[0]) + enc_list(ms.drop_first())
    }
}

/// Reading back the eight bytes of an encoded `u64` restores it.
pub proof fn lemma_u64_roundtrip(v: u64)
    ensures
        dec_u64(enc_u64(v)) == v,
{
    assert((((((v >> 56) as u8) as u64) << 56) | ((((v >> 48) as u8) as u64) << 48)
        | ((((v >> 40) as u8) as u64) << 40) | ((((v >> 32) as u8) as u64) << 32)
        | ((((v >> 24) as u8) as u64) << 24) | ((((v >> 16) as u8) as u64) << 16)
        | ((((v >> 8) as u8) as u64) << 8) | ((v as u8) as u64)) == v) by (bit_vector);
}

/// The eight-byte form is injective.
pub proof fn lemma_enc_u64_inj(a: u64, b: u64)
    requires
        enc_u64(a) == enc_u64(b),
    ensures
        a == b,
{
    lemma_u64_roundtrip(a);
    lemma_u64_roundtrip(b);
}

/// Appends the eight big-endian bytes of `v`.
fn push_u64(out: &mut Vec<u8>, v: u64)
    ensures
        final(out)@ == old(out)@ + enc_u64(v),
{
    out.push(#[verifier::truncate] ((v >> 56) as u8));
    out.push(#[verifier::truncate] ((v >> 48) as u8));
    out.push(#[verifier::truncate] ((v >> 40) as u8));
    out.push(#[verifier::truncate] ((v >> 32) as u8));
    out.push(#[verifier::truncate] ((v >> 24) as u8));
    out.push(#[verifier::truncate] ((v >> 16) as u8));
    out.push(#[verifier::truncate] ((v >> 8) as u8));
    out.push(#[verifier::truncate] (v as u8));
    proof {
        assert(final(out)@ =~= old(out)@ + enc_u64(v));
    }
}

/// Appends a length-prefixed byte string.
fn push_bytes(out: &mut Vec<u8>, b: &Vec<u8>)
    ensures
        final(out)@ == old(out)@ + enc_bytes(b@),
{
    let n = b.len();
    push_u64(out, n as u64);
    let ghost mid = out@;
    let mut i: usize = 0;
    while i < n
        invariant
            i <= n,
            n == b@.len(),
            out@ == mid + b@.subrange(0, i as int),
        decreases n - i,
    {
        out.push(b[i]);
        proof {
            assert(out@ =~= mid + b@.subrange(0, i + 1 as int));
        }
        i = i + 1;
    }
    proof {
        assert(b@.subrange(0, n as int) =~= b@);
        assert(final(out)@ =~= old(out)@ + enc_bytes(b@));
    }
}

/// Appends the canonical bytes of `m`.
fn encode_into(m: &PBFTMessage, out: &mut Vec<u8>)
    ensures
        final(out)@ == old(out)@ + encoded(*m),
    decreases *m,
{
    match m {
        PBFTMessage::Request { operation } => {
            out.push(1u8);
            push_bytes(out, operation);
        },
        PBFTMessage::PrePrepare { view, sequence_number, digest } => {
            out.push(2u8);
            push_u64(out, *view);
            push_u64(out, *sequence_number);
            push_bytes(out, digest);
        },
        PBFTMessage::Prepare { view, sequence_number, digest, sender_id } => {
            out.push(3u8);
            push_u64(out, *view);
            push_u64(out, *sequence_number);
            push_u64(out, *sender_id);
            push_bytes(out, digest);
        },
        PBFTMessage::Commit { view, sequence_number, digest } => {
            out.push(4u8);
            push_u64(out, *view);
            push_u64(out, *sequence_number);
            push_bytes(out, digest);
        },
        PBFTMessage::ViewChange { view, last_sequence_number, node_id } => {
            out.push(5u8);
            push_u64(out, *view);
            push_u64(out, *last_sequence_number);
            push_u64(out, *node_id);
        },
        PBFTMessage::NewView { view, view_change_messages } => {
            out.push(6u8);
            push_u64(out, *view);
            let n = view_change_messages.len();
            push_u64(out, n as u64);
            let ghost mid = out@;
            let mut i: usize = 0;
            while i < n
                invariant
                    i <= n,
                    n == view_change_messages@.len(),
                    *m == (PBFTMessage::NewView {
                        view: *view,
                        view_change_messages: *view_change_messages,
                    }),
                    out@ == mid + enc_list(view_change_messages@.subrange(0, i as int)),
                decreases n - i,
            {
                proof {
                    assert(m->NewView_view_change_messages == *view_change_messages);
                    assert(decreases_to!(*m => m->NewView_view_change_messages));
                    assert(decreases_to!(*view_change_messages => view_change_messages@));
                    assert(decreases_to!(view_change_messages@ => view_change_messages@[i as int]));
                }
                encode_into(&view_change_messages[i], out);
                proof {
                    lemma_enc_list_snoc(view_change_messages@.subrange(0, i as int),
                        view_change_messages@[i as int]);
                    assert(view_change_messages@.subrange(0, i + 1 as int) =~= view_change_messages@
                        .subrange(0, i as int).push(view_change_messages@[i as int]));
                }
                i = i + 1;
            }
            proof {
                assert(view_change_messages@.subrange(0, n as int) =~= view_change_messages@);
            }
        },
        PBFTMessage::PubKey { node_id, public_key } => {
            out.push(7u8);
            push_u64(out, *node_id);
            push_bytes(out, public_key);
        },
        PBFTMessage::SignedMessage { message, signature, sender_id } => {
            out.push(8u8);
            push_u64(out, *sender_id);
            push_bytes(out, signature);
            proof {
                assert(decreases_to!(*m => **message));
            }
            encode_into(&**message, out);
        },
        PBFTMessage::ByzantineVote { suspected_id, sender_id } => {
            out.push(9u8);
            push_u64(out, *suspected_id);
            push_u64(out, *sender_id);
        },
    }
    proof {
        assert(final(out)@ =~= old(out)@ + encoded(*m));
    }
}

/// Encoding a list and then one more message is encoding the longer list.
proof fn lemma_enc_list_snoc(ms: Seq<PBFTMessage>, m: PBFTMessage)
    ensures
        enc_list(ms.push(m)) == enc_list(ms) + encoded(m),
    decreases ms.len(),
{
    reveal_with_fuel(enc_list, 3);
    if ms.len() == 0 {
        assert(ms.push(m).drop_first() =~= Seq::<PBFTMessage>::empty());
        assert(ms.push(m)[0] == m);
        assert(enc_list(ms.push(m)) == encoded(m) + Seq::<u8>::empty());
        assert(encoded(m) + Seq::<u8>::empty() =~= Seq::<u8>::empty() + encoded(m));
        assert(enc_list(ms) == Seq::<u8>::empty());
    } else {
        let a = encoded(ms[0]);
        let b = enc_list(ms.drop_first());
        let c = encoded(m);
        assert(ms.push(m).drop_first() =~= ms.drop_first().push(m));
        lemma_enc_list_snoc(ms.drop_first(), m);
        assert(ms.push(m)[0] == ms[0]);
        assert(enc_list(ms.push(m)) == a + enc_list(ms.push(m).drop_first()));
        assert(enc_list(ms.push(m)) == a + (b + c));
        assert(enc_list(ms) == a + b);
        assert(a + (b + c) =~= (a + b) + c);
    }
}

/// The canonical bytes of a message.
pub fn encode_message(m: &PBFTMessage) -> (r: Vec<u8>)
    ensures
        r@ == encoded(*m),
{
    let mut out: Vec<u8> = Vec::new();
    encode_into(m, &mut out);
    out
}

/// Two messages carry the same content: equal variant, equal fields, with
/// byte strings compared by their bytes.
pub open spec fn msg_eqv(a: PBFTMessage, b: PBFTMessage) -> bool
    decreases a,
{
    match (a, b) {
        (PBFTMessage::Request { operation: o1 }, PBFTMessage::Request { operation: o2 }) => o1@
            == o2@,
        (
            PBFTMessage::PrePrepare { view: v1, sequence_number: s1, digest: d1 },
            PBFTMessage::PrePrepare { view: v2, sequence_number: s2, digest: d2 },
        ) => v1 == v2 && s1 == s2 && d1@ == d2@,
        (
            PBFTMessage::Prepare { view: v1, sequence_number: s1, digest: d1, sender_id: n1 },
            PBFTMessage::Prepare { view: v2, sequence_number: s2, digest: d2, sender_id: n2 },
        ) => v1 == v2 && s1 == s2 && d1@ == d2@ && n1 == n2,
        (
            PBFTMessage::Commit { view: v1, sequence_number: s1, digest: d1 },
            PBFTMessage::Commit { view: v2, sequence_number: s2, digest: d2 },
        ) => v1 == v2 && s1 == s2 && d1@ == d2@,
        (
            PBFTMessage::ViewChange { view: v1, last_sequence_number: s1, node_id: n1 },
            PBFTMessage::ViewChange { view: v2, last_sequence_number: s2, node_id: n2 },
        ) => v1 == v2 && s1 == s2 && n1 == n2,
        (
            PBFTMessage::NewView { view: v1, view_change_messages: l1 },
            PBFTMessage::NewView { view: v2, view_change_messages: l2 },
        ) => v1 == v2 && list_eqv(l1@, l2@),
        (
            PBFTMessage::PubKey { node_id: n1, public_key: k1 },
            PBFTMessage::PubKey { node_id: n2, public_key: k2 },
        ) => n1 == n2 && k1@ == k2@,
        (
            PBFTMessage::SignedMessage { message: m1, signature: g1, sender_id: n1 },
            PBFTMessage::SignedMessage { message: m2, signature: g2, sender_id: n2 },
        ) => msg_eqv(*m1, *m2) && g1@ == g2@ && n1 == n2,
        (
            PBFTMessage::ByzantineVote { suspected_id: u1, sender_id: n1 },
            PBFTMessage::ByzantineVote { suspected_id: u2, sender_id: n2 },
        ) => u1 == u2 && n1 == n2,
        _ => false,
    }
}

/// Two message lists carry the same content, element by element.
pub open spec fn list_eqv(a: Seq<PBFTMessage>, b: Seq<PBFTMessage>) -> bool
    decreases a,
{
    a.len() == b.len() && (a.len() > 0 ==> msg_eqv(a[0], b[0]) && list_eqv(
        a.drop_first(),
        b.drop_first(),
    ))
}

/// The tag byte that opens a message's canonical bytes.
pub open spec fn tag_of(m: PBFTMessage) -> u8 {
    match m {
        PBFTMessage::Request { .. } => 1,
        PBFTMessage::PrePrepare { .. } => 2,
        PBFTMessage::Prepare { .. } => 3,
        PBFTMessage::Commit { .. } => 4,
        PBFTMessage::ViewChange { .. } => 5,
        PBFTMessage::NewView { .. } => 6,
        PBFTMessage::PubKey { .. } => 7,
        PBFTMessage::SignedMessage { .. } => 8,
        PBFTMessage::ByzantineVote { .. } => 9,
    }
}

/// The canonical bytes open with the variant's tag.
proof fn lemma_tag(m: PBFTMessage)
    ensures
        encoded(m).len() >= 1,
        encoded(m)[0] == tag_of(m),
        1 <= tag_of(m) <= 9,
{
    match m {
        PBFTMessage::Request { .. } => {},
        PBFTMessage::PrePrepare { .. } => {},
        PBFTMessage::Prepare { .. } => {},
        PBFTMessage::Commit { .. } => {},
        PBFTMessage::ViewChange { .. } => {},
        PBFTMessage::NewView { .. } => {},
        PBFTMessage::PubKey { .. } => {},
        PBFTMessage::SignedMessage { .. } => {},
        PBFTMessage::ByzantineVote { .. } => {},
    }
}

/// Equal concatenations with equally long heads have equal parts.
proof fn lemma_concat_split(a1: Seq<u8>, b1: Seq<u8>, a2: Seq<u8>, b2: Seq<u8>)
    requires
        a1.len() == a2.len(),
        a1 + b1 == a2 + b2,
    ensures
        a1 == a2,
        b1 == b2,
{
    assert forall|i: int| 0 <= i < a1.len() implies a1[i] == a2[i] by {
        assert((a1 + b1)[i] == a1[i]);
        assert((a2 + b2)[i] == a2[i]);
    }
    assert(a1 =~= a2);
    assert((a1 + b1).len() == a1.len() + b1.len());
    assert((a2 + b2).len() == a2.len() + b2.len());
    assert(b1.len() == b2.len());
    assert forall|i: int| 0 <= i < b1.len() implies b1[i] == b2[i] by {
        assert((a1 + b1)[a1.len() + i] == b1[i]);
        assert((a2 + b2)[a2.len() + i] == b2[i]);
    }
    assert(b1 =~= b2);
}

/// Splits a length-prefixed byte string off the front.
proof fn lemma_bytes_split(d1: Seq<u8>, r1: Seq<u8>, d2: Seq<u8>, r2: Seq<u8>)
    requires
        d1.len() <= u64::MAX,
        d2.len() <= u64::MAX,
        enc_bytes(d1) + r1 == enc_bytes(d2) + r2,
    ensures
        d1 == d2,
        r1 == r2,
{
    assert(enc_bytes(d1) + r1 =~= enc_u64(d1.len() as u64) + (d1 + r1));
    assert(enc_bytes(d2) + r2 =~= enc_u64(d2.len() as u64) + (d2 + r2));
    lemma_concat_split(
        enc_u64(d1.len() as u64),
        d1 + r1,
        enc_u64(d2.len() as u64),
        d2 + r2,
    );
    lemma_enc_u64_inj(d1.len() as u64, d2.len() as u64);
    lemma_concat_split(d1, r1, d2, r2);
}

/// Peels one `u64` off the front of two equal byte streams.
proof fn lemma_peel_u64(x1: u64, rest1: Seq<u8>, x2: u64, rest2: Seq<u8>)
    requires
        enc_u64(x1) + rest1 == enc_u64(x2) + rest2,
    ensures
        x1 == x2,
        rest1 == rest2,
{
    lemma_concat_split(enc_u64(x1), rest1, enc_u64(x2), rest2);
    lemma_enc_u64_inj(x1, x2);
}

/// Peels one length-prefixed byte string off the front of two equal byte
/// streams.
proof fn lemma_peel_bytes(d1: Seq<u8>, rest1: Seq<u8>, d2: Seq<u8>, rest2: Seq<u8>)
    requires
        d1.len() <= u64::MAX,
        d2.len() <= u64::MAX,
        enc_bytes(d1) + rest1 == enc_bytes(d2) + rest2,
    ensures
        d1 == d2,
        rest1 == rest2,
{
    assert(enc_bytes(d1) + rest1 =~= enc_u64(d1.len() as u64) + (d1 + rest1));
    assert(enc_bytes(d2) + rest2 =~= enc_u64(d2.len() as u64) + (d2 + rest2));
    lemma_peel_u64(d1.len() as u64, d1 + rest1, d2.len() as u64, d2 + rest2);
    lemma_concat_split(d1, rest1, d2, rest2);
}

/// Peels the tag byte off the front of two equal byte streams.
proof fn lemma_peel_tag(t: u8, rest1: Seq<u8>, rest2: Seq<u8>)
    requires
        seq![t] + rest1 == seq![t] + rest2,
    ensures
        rest1 == rest2,
{
    lemma_concat_split(seq![t], rest1, seq![t], rest2);
}

/// Canonical prefix determinism: if the bytes of one message followed by
/// anything equal the bytes of another followed by anything, the messages
/// carry the same content and the remainders are equal. This is why a
/// byte form has exactly one reading.
/// Prefix determinism for one message variant.
#[verifier::rlimit(80)]
proof fn lemma_prefix_request(m1: PBFTMessage, m2: PBFTMessage, r1: Seq<u8>, r2: Seq<u8>)
    requires
        m1 is Request,
        encoded(m1) + r1 == encoded(m2) + r2,
        tag_of(m1) == tag_of(m2),
    ensures
        msg_eqv(m1, m2),
        r1 == r2,
{
    match m1 {
        PBFTMessage::Request { operation: o1 } => {

            assert(m2 is Request);
            let o2 = m2->Request_operation;
            vstd::std_specs::vec::axiom_spec_len(&o1);
            vstd::std_specs::vec::axiom_spec_len(&o2);
            assert(encoded(m1) + r1 =~= seq![1u8] + (enc_bytes(o1@) + r1));
            assert(encoded(m2) + r2 =~= seq![1u8] + (enc_bytes(o2@) + r2));
            lemma_peel_tag(1u8, enc_bytes(o1@) + r1, enc_bytes(o2@) + r2);
            lemma_peel_bytes(o1@, r1, o2@, r2);
        
        },
        _ => {
        },
    }
}

/// Prefix determinism for one message variant.
#[verifier::rlimit(80)]
proof fn lemma_prefix_preprepare(m1: PBFTMessage, m2: PBFTMessage, r1: Seq<u8>, r2: Seq<u8>)
    requires
        m1 is PrePrepare,
        encoded(m1) + r1 == encoded(m2) + r2,
        tag_of(m1) == tag_of(m2),
    ensures
        msg_eqv(m1, m2),
        r1 == r2,
{
    match m1 {
        PBFTMessage::PrePrepare { view: v1, sequence_number: s1, digest: d1 } => {

            assert(m2 is PrePrepare);
            let v2 = m2->PrePrepare_view;
            let s2 = m2->PrePrepare_sequence_number;
            let d2 = m2->PrePrepare_digest;
            vstd::std_specs::vec::axiom_spec_len(&d1);
            vstd::std_specs::vec::axiom_spec_len(&d2);
            assert(encoded(m1) + r1 =~= seq![2u8] + (enc_u64(v1) + (enc_u64(s1) + (enc_bytes(d1@)
                + r1))));
            assert(encoded(m2) + r2 =~= seq![2u8] + (enc_u64(v2) + (enc_u64(s2) + (enc_bytes(d2@)
                + r2))));
            lemma_peel_tag(
                2u8,
                enc_u64(v1) + (enc_u64(s1) + (enc_bytes(d1@) + r1)),
                enc_u64(v2) + (enc_u64(s2) + (enc_bytes(d2@) + r2)),
            );
            lemma_peel_u64(
                v1,
                enc_u64(s1) + (enc_bytes(d1@) + r1),
                v2,
                enc_u64(s2) + (enc_bytes(d2@) + r2),
            );
            lemma_peel_u64(s1, enc_bytes(d1@) + r1, s2, enc_bytes(d2@) + r2);
            lemma_peel_bytes(d1@, r1, d2@, r2);
        
        },
        _ => {
        },
    }
}

/// Prefix determinism for one message variant.
#[verifier::rlimit(80)]
proof fn lemma_prefix_prepare(m1: PBFTMessage, m2: PBFTMessage, r1: Seq<u8>, r2: Seq<u8>)
    requires
        m1 is Prepare,
        encoded(m1) + r1 == encoded(m2) + r2,
        tag_of(m1) == tag_of(m2),
    ensures
        msg_eqv(m1, m2),
        r1 == r2,
{
    match m1 {
        PBFTMessage::Prepare { view: v1, sequence_number: s1, digest: d1, sender_id: n1 } => {

            assert(m2 is Prepare);
            let v2 = m2->Prepare_view;
            let s2 = m2->Prepare_sequence_number;
            let d2 = m2->Prepare_digest;
            let n2 = m2->Prepare_sender_id;
            vstd::std_specs::vec::axiom_spec_len(&d1);
            vstd::std_specs::vec::axiom_spec_len(&d2);
            assert(encoded(m1) + r1 =~= seq![3u8] + (enc_u64(v1) + (enc_u64(s1) + (enc_u64(n1) + (
            enc_bytes(d1@) + r1)))));
            assert(encoded(m2) + r2 =~= seq![3u8] + (enc_u64(v2) + (enc_u64(s2) + (enc_u64(n2) + (
            enc_bytes(d2@) + r2)))));
            lemma_peel_tag(
                3u8,
                enc_u64(v1) + (enc_u64(s1) + (enc_u64(n1) + (enc_bytes(d1@) + r1))),
                enc_u64(v2) + (enc_u64(s2) + (enc_u64(n2) + (enc_bytes(d2@) + r2))),
            );
            lemma_peel_u64(
                v1,
                enc_u64(s1) + (enc_u64(n1) + (enc_bytes(d1@) + r1)),
                v2,
                enc_u64(s2) + (enc_u64(n2) + (enc_bytes(d2@) + r2)),
            );
            lemma_peel_u64(
                s1,
                enc_u64(n1) + (enc_bytes(d1@) + r1),
                s2,
                enc_u64(n2) + (enc_bytes(d2@) + r2),
            );
            lemma_peel_u64(n1, enc_bytes(d1@) + r1, n2, enc_bytes(d2@) + r2);
            lemma_peel_bytes(d1@, r1, d2@, r2);
        
        },
        _ => {
        },
    }
}

/// Prefix determinism for one message variant.
#[verifier::rlimit(80)]
proof fn lemma_prefix_commit(m1: PBFTMessage, m2: PBFTMessage, r1: Seq<u8>, r2: Seq<u8>)
    requires
        m1 is Commit,
        encoded(m1) + r1 == encoded(m2) + r2,
        tag_of(m1) == tag_of(m2),
    ensures
        msg_eqv(m1, m2),
        r1 == r2,
{
    match m1 {
        PBFTMessage::Commit { view: v1, sequence_number: s1, digest: d1 } => {

            assert(m2 is Commit);
            let v2 = m2->Commit_view;
            let s2 = m2->Commit_sequence_number;
            let d2 = m2->Commit_digest;
            vstd::std_specs::vec::axiom_spec_len(&d1);
            vstd::std_specs::vec::axiom_spec_len(&d2);
            assert(encoded(m1) + r1 =~= seq![4u8] + (enc_u64(v1) + (enc_u64(s1) + (enc_bytes(d1@)
                + r1))));
            assert(encoded(m2) + r2 =~= seq![4u8] + (enc_u64(v2) + (enc_u64(s2) + (enc_bytes(d2@)
                + r2))));
            lemma_peel_tag(
                4u8,
                enc_u64(v1) + (enc_u64(s1) + (enc_bytes(d1@) + r1)),
                enc_u64(v2) + (enc_u64(s2) + (enc_bytes(d2@) + r2)),
            );
            lemma_peel_u64(
                v1,
                enc_u64(s1) + (enc_bytes(d1@) + r1),
                v2,
                enc_u64(s2) + (enc_bytes(d2@) + r2),
            );
            lemma_peel_u64(s1, enc_bytes(d1@) + r1, s2, enc_bytes(d2@) + r2);
            lemma_peel_bytes(d1@, r1, d2@, r2);
        
        },
        _ => {
        },
    }
}

/// Prefix determinism for one message variant.
#[verifier::rlimit(80)]
proof fn lemma_prefix_viewchange(m1: PBFTMessage, m2: PBFTMessage, r1: Seq<u8>, r2: Seq<u8>)
    requires
        m1 is ViewChange,
        encoded(m1) + r1 == encoded(m2) + r2,
        tag_of(m1) == tag_of(m2),
    ensures
        msg_eqv(m1, m2),
        r1 == r2,
{
    match m1 {
        PBFTMessage::ViewChange { view: v1, last_sequence_number: s1, node_id: n1 } => {

            assert(m2 is ViewChange);
            let v2 = m2->ViewChange_view;
            let s2 = m2->ViewChange_last_sequence_number;
            let n2 = m2->ViewChange_node_id;
            assert(encoded(m1) + r1 =~= seq![5u8] + (enc_u64(v1) + (enc_u64(s1) + (enc_u64(n1)
                + r1))));
            assert(encoded(m2) + r2 =~= seq![5u8] + (enc_u64(v2) + (enc_u64(s2) + (enc_u64(n2)
                + r2))));
            lemma_peel_tag(
                5u8,
                enc_u64(v1) + (enc_u64(s1) + (enc_u64(n1) + r1)),
                enc_u64(v2) + (enc_u64(s2) + (enc_u64(n2) + r2)),
            );
            lemma_peel_u64(
                v1,
                enc_u64(s1) + (enc_u64(n1) + r1),
                v2,
                enc_u64(s2) + (enc_u64(n2) + r2),
            );
            lemma_peel_u64(s1, enc_u64(n1) + r1, s2, enc_u64(n2) + r2);
            lemma_peel_u64(n1, r1, n2, r2);
        
        },
        _ => {
        },
    }
}

/// Prefix determinism for one message variant.
#[verifier::rlimit(80)]
proof fn lemma_prefix_pubkey(m1: PBFTMessage, m2: PBFTMessage, r1: Seq<u8>, r2: Seq<u8>)
    requires
        m1 is PubKey,
        encoded(m1) + r1 == encoded(m2) + r2,
        tag_of(m1) == tag_of(m2),
    ensures
        msg_eqv(m1, m2),
        r1 == r2,
{
    match m1 {
        PBFTMessage::PubKey { node_id: n1, public_key: k1 } => {

            assert(m2 is PubKey);
            let n2 = m2->PubKey_node_id;
            let k2 = m2->PubKey_public_key;
            vstd::std_specs::vec::axiom_spec_len(&k1);
            vstd::std_specs::vec::axiom_spec_len(&k2);
            assert(encoded(m1) + r1 =~= seq![7u8] + (enc_u64(n1) + (enc_bytes(k1@) + r1)));
            assert(encoded(m2) + r2 =~= seq![7u8] + (enc_u64(n2) + (enc_bytes(k2@) + r2)));
            lemma_peel_tag(
                7u8,
                enc_u64(n1) + (enc_bytes(k1@) + r1),
                enc_u64(n2) + (enc_bytes(k2@) + r2),
            );
            lemma_peel_u64(n1, enc_bytes(k1@) + r1, n2, enc_bytes(k2@) + r2);
            lemma_peel_bytes(k1@, r1, k2@, r2);
        
        },
        _ => {
        },
    }
}

/// Prefix determinism for one message variant.
#[verifier::rlimit(80)]
proof fn lemma_prefix_byzvote(m1: PBFTMessage, m2: PBFTMessage, r1: Seq<u8>, r2: Seq<u8>)
    requires
        m1 is ByzantineVote,
        encoded(m1) + r1 == encoded(m2) + r2,
        tag_of(m1) == tag_of(m2),
    ensures
        msg_eqv(m1, m2),
        r1 == r2,
{
    match m1 {
        PBFTMessage::ByzantineVote { suspected_id: u1, sender_id: n1 } => {

            assert(m2 is ByzantineVote);
            let u2 = m2->ByzantineVote_suspected_id;
            let n2 = m2->ByzantineVote_sender_id;
            assert(encoded(m1) + r1 =~= seq![9u8] + (enc_u64(u1) + (enc_u64(n1) + r1)));
            assert(encoded(m2) + r2 =~= seq![9u8] + (enc_u64(u2) + (enc_u64(n2) + r2)));
            lemma_peel_tag(9u8, enc_u64(u1) + (enc_u64(n1) + r1), enc_u64(u2) + (enc_u64(n2) + r2));
            lemma_peel_u64(u1, enc_u64(n1) + r1, u2, enc_u64(n2) + r2);
            lemma_peel_u64(n1, r1, n2, r2);
        
        },
        _ => {
        },
    }
}

/// Splits the fields of two equally encoded signed envelopes; the inner
/// canonical bytes stay as an equation for the caller to recurse on.
#[verifier::rlimit(80)]
proof fn lemma_prefix_signed_parts(m1: PBFTMessage, m2: PBFTMessage, r1: Seq<u8>, r2: Seq<u8>)
    requires
        m1 is SignedMessage,
        encoded(m1) + r1 == encoded(m2) + r2,
        tag_of(m1) == tag_of(m2),
    ensures
        m2 is SignedMessage,
        m1->SignedMessage_sender_id == m2->SignedMessage_sender_id,
        m1->SignedMessage_signature@ == m2->SignedMessage_signature@,
        encoded(*m1->SignedMessage_message) + r1 == encoded(*m2->SignedMessage_message) + r2,
{
    match m1 {
        PBFTMessage::SignedMessage { message: i1, signature: g1, sender_id: n1 } => {

            assert(m2 is SignedMessage);
            let i2 = m2->SignedMessage_message;
            let g2 = m2->SignedMessage_signature;
            let n2 = m2->SignedMessage_sender_id;
            vstd::std_specs::vec::axiom_spec_len(&g1);
            vstd::std_specs::vec::axiom_spec_len(&g2);
            assert(encoded(m1) + r1 =~= seq![8u8] + (enc_u64(n1) + (enc_bytes(g1@) + (encoded(*i1)
                + r1))));
            assert(encoded(m2) + r2 =~= seq![8u8] + (enc_u64(n2) + (enc_bytes(g2@) + (encoded(*i2)
                + r2))));
            lemma_peel_tag(
                8u8,
                enc_u64(n1) + (enc_bytes(g1@) + (encoded(*i1) + r1)),
                enc_u64(n2) + (enc_bytes(g2@) + (encoded(*i2) + r2)),
            );
            lemma_peel_u64(
                n1,
                enc_bytes(g1@) + (encoded(*i1) + r1),
                n2,
                enc_bytes(g2@) + (encoded(*i2) + r2),
            );
            lemma_peel_bytes(g1@, encoded(*i1) + r1, g2@, encoded(*i2) + r2);
            
        },
        _ => {
        },
    }
}

/// Splits the fields of two equally encoded NewView messages; the list
/// bytes stay as an equation for the caller to recurse on.
#[verifier::rlimit(80)]
proof fn lemma_prefix_newview_parts(m1: PBFTMessage, m2: PBFTMessage, r1: Seq<u8>, r2: Seq<u8>)
    requires
        m1 is NewView,
        encoded(m1) + r1 == encoded(m2) + r2,
        tag_of(m1) == tag_of(m2),
    ensures
        m2 is NewView,
        m1->NewView_view == m2->NewView_view,
        m1->NewView_view_change_messages@.len() == m2->NewView_view_change_messages@.len(),
        enc_list(m1->NewView_view_change_messages@) + r1 == enc_list(
            m2->NewView_view_change_messages@,
        ) + r2,
{
    match m1 {
        PBFTMessage::NewView { view: v1, view_change_messages: l1 } => {

            assert(m2 is NewView);
            let v2 = m2->NewView_view;
            let l2 = m2->NewView_view_change_messages;
            vstd::std_specs::vec::axiom_spec_len(&l1);
            vstd::std_specs::vec::axiom_spec_len(&l2);
            assert(encoded(m1) + r1 =~= seq![6u8] + (enc_u64(v1) + (enc_u64(l1@.len() as u64) + (
            enc_list(l1@) + r1))));
            assert(encoded(m2) + r2 =~= seq![6u8] + (enc_u64(v2) + (enc_u64(l2@.len() as u64) + (
            enc_list(l2@) + r2))));
            lemma_peel_tag(
                6u8,
                enc_u64(v1) + (enc_u64(l1@.len() as u64) + (enc_list(l1@) + r1)),
                enc_u64(v2) + (enc_u64(l2@.len() as u64) + (enc_list(l2@) + r2)),
            );
            lemma_peel_u64(
                v1,
                enc_u64(l1@.len() as u64) + (enc_list(l1@) + r1),
                v2,
                enc_u64(l2@.len() as u64) + (enc_list(l2@) + r2),
            );
            lemma_peel_u64(
                l1@.len() as u64,
                enc_list(l1@) + r1,
                l2@.len() as u64,
                enc_list(l2@) + r2,
            );
            
        },
        _ => {
        },
    }
}

/// Canonical prefix determinism: if the bytes of one message followed by
/// anything equal the bytes of another followed by anything, the messages
/// carry the same content and the remainders are equal. This is why a
/// byte form has exactly one reading.
pub proof fn lemma_encoded_prefix(m1: PBFTMessage, m2: PBFTMessage, r1: Seq<u8>, r2: Seq<u8>)
    requires
        encoded(m1) + r1 == encoded(m2) + r2,
    ensures
        msg_eqv(m1, m2),
        r1 == r2,
    decreases m1, 0nat,
{
    lemma_tag(m1);
    lemma_tag(m2);
    assert((encoded(m1) + r1)[0] == tag_of(m1));
    assert((encoded(m2) + r2)[0] == tag_of(m2));
    assert(tag_of(m1) == tag_of(m2));
    match m1 {
        PBFTMessage::Request { .. } => {
            lemma_prefix_request(m1, m2, r1, r2);
        },
        PBFTMessage::PrePrepare { .. } => {
            lemma_prefix_preprepare(m1, m2, r1, r2);
        },
        PBFTMessage::Prepare { .. } => {
            lemma_prefix_prepare(m1, m2, r1, r2);
        },
        PBFTMessage::Commit { .. } => {
            lemma_prefix_commit(m1, m2, r1, r2);
        },
        PBFTMessage::ViewChange { .. } => {
            lemma_prefix_viewchange(m1, m2, r1, r2);
        },
        PBFTMessage::NewView { .. } => {
            lemma_prefix_newview_parts(m1, m2, r1, r2);
            assert(decreases_to!(m1 => m1->NewView_view_change_messages));
            assert(decreases_to!(
                m1->NewView_view_change_messages => m1->NewView_view_change_messages@));
            lemma_enc_list_prefix(
                m1->NewView_view_change_messages@,
                m2->NewView_view_change_messages@,
                r1,
                r2,
            );
        },
        PBFTMessage::PubKey { .. } => {
            lemma_prefix_pubkey(m1, m2, r1, r2);
        },
        PBFTMessage::SignedMessage { .. } => {
            lemma_prefix_signed_parts(m1, m2, r1, r2);
            assert(decreases_to!(m1 => *m1->SignedMessage_message));
            lemma_encoded_prefix(*m1->SignedMessage_message, *m2->SignedMessage_message, r1, r2);
        },
        PBFTMessage::ByzantineVote { .. } => {
            lemma_prefix_byzvote(m1, m2, r1, r2);
        },
    }
}

/// Prefix determinism for message lists of equal length.
proof fn lemma_enc_list_prefix(l1: Seq<PBFTMessage>, l2: Seq<PBFTMessage>, r1: Seq<u8>, r2: Seq<u8>)
    requires
        l1.len() == l2.len(),
        enc_list(l1) + r1 == enc_list(l2) + r2,
    ensures
        list_eqv(l1, l2),
        r1 == r2,
    decreases l1, 1nat,
{
    if l1.len() == 0 {
        assert(enc_list(l1) + r1 =~= r1);
        assert(enc_list(l2) + r2 =~= r2);
    } else {
        assert(enc_list(l1) + r1 =~= encoded(l1[0]) + (enc_list(l1.drop_first()) + r1));
        assert(enc_list(l2) + r2 =~= encoded(l2[0]) + (enc_list(l2.drop_first()) + r2));
        assert(decreases_to!(l1 => l1[0]));
        lemma_encoded_prefix(
            l1[0],
            l2[0],
            enc_list(l1.drop_first()) + r1,
            enc_list(l2.drop_first()) + r2,
        );
        lemma_enc_list_prefix(l1.drop_first(), l2.drop_first(), r1, r2);
    }
}

/// The canonical form is injective: bytes determine content. Together
/// with [`decode_message`]'s contract, a decoded message is the one that
/// was encoded.
pub proof fn lemma_encoded_injective(m1: PBFTMessage, m2: PBFTMessage)
    requires
        encoded(m1) == encoded(m2),
    ensures
        msg_eqv(m1, m2),
{
    assert(encoded(m1) + Seq::<u8>::empty() =~= encoded(m2) + Seq::<u8>::empty());
    lemma_encoded_prefix(m1, m2, Seq::empty(), Seq::empty());
}

/// The canonical bytes of `m` sit in `b` at position `pos`.
pub open spec fn canon_at(b: Seq<u8>, pos: int, m: PBFTMessage) -> bool {
    &&& 0 <= pos
    &&& pos + encoded(m).len() <= b.len()
    &&& b.subrange(pos, pos + encoded(m).len()) == encoded(m)
}

/// The canonical bytes of the message list `ls` sit in `b` at `pos`.
pub open spec fn list_canon_at(b: Seq<u8>, pos: int, ls: Seq<PBFTMessage>) -> bool {
    &&& 0 <= pos
    &&& pos + enc_list(ls).len() <= b.len()
    &&& b.subrange(pos, pos + enc_list(ls).len()) == enc_list(ls)
}

/// Reading back eight encoded bytes and encoding again restores them.
proof fn lemma_u64_enc_dec(b: Seq<u8>)
    requires
        b.len() == 8,
    ensures
        enc_u64(dec_u64(b)) == b,
{
    let b0 = b[0];
    let b1 = b[1];
    let b2 = b[2];
    let b3 = b[3];
    let b4 = b[4];
    let b5 = b[5];
    let b6 = b[6];
    let b7 = b[7];
    let x = dec_u64(b);
    assert(x == (((b0 as u64) << 56) | ((b1 as u64) << 48) | ((b2 as u64) << 40) | ((b3 as u64)
        << 32) | ((b4 as u64) << 24) | ((b5 as u64) << 16) | ((b6 as u64) << 8) | (b7 as u64)));
    assert({
        let y = (((b0 as u64) << 56) | ((b1 as u64) << 48) | ((b2 as u64) << 40) | ((b3 as u64)
            << 32) | ((b4 as u64) << 24) | ((b5 as u64) << 16) | ((b6 as u64) << 8) | (
        b7 as u64));
        (y >> 56) as u8 == b0 && (y >> 48) as u8 == b1 && (y >> 40) as u8 == b2 && (y >> 32) as u8
            == b3 && (y >> 24) as u8 == b4 && (y >> 16) as u8 == b5 && (y >> 8) as u8 == b6
            && y as u8 == b7
    }) by (bit_vector);
    assert(enc_u64(x) =~= b);
}

/// Two length-prefixed byte strings starting at the same place in the
/// same buffer are the same string, ending at the same place.
proof fn lemma_bytes_at_unique(b: Seq<u8>, start: int, d1: Seq<u8>, e1: int, d2: Seq<u8>, e2: int)
    requires
        0 <= start <= e1 <= b.len(),
        0 <= start <= e2 <= b.len(),
        d1.len() <= u64::MAX,
        d2.len() <= u64::MAX,
        b.subrange(start, e1) == enc_bytes(d1),
        b.subrange(start, e2) == enc_bytes(d2),
    ensures
        d1 == d2,
        e1 == e2,
{
    assert(b.subrange(start, b.len() as int) =~= enc_bytes(d1) + b.subrange(e1, b.len() as int));
    assert(b.subrange(start, b.len() as int) =~= enc_bytes(d2) + b.subrange(e2, b.len() as int));
    lemma_bytes_split(
        d1,
        b.subrange(e1, b.len() as int),
        d2,
        b.subrange(e2, b.len() as int),
    );
    assert(b.subrange(e1, b.len() as int).len() == b.subrange(e2, b.len() as int).len());
}

/// Where the canonical bytes of a Request sit, its parts sit.
proof fn lemma_shape_request(b: Seq<u8>, pos: int, mm: PBFTMessage)
    requires
        canon_at(b, pos, mm),
        mm is Request,
    ensures
        encoded(mm).len() == 9 + mm->Request_operation@.len(),
        b.subrange(pos + 1, pos + encoded(mm).len()) == enc_bytes(mm->Request_operation@),
{
    vstd::std_specs::vec::axiom_spec_len(&mm->Request_operation);
    let d = mm->Request_operation@;
    let l = pos + encoded(mm).len();
    assert(encoded(mm).len() == 9 + d.len());
    assert(b.subrange(pos, l) =~= b.subrange(pos + 0, pos + 1) + (b.subrange(pos + 1, l)));
    assert(encoded(mm) =~= seq![1u8] + (enc_bytes(d)));
    lemma_concat_split(b.subrange(pos + 0, pos + 1), b.subrange(pos + 1, l), seq![1u8], enc_bytes(d));
}

/// Where the canonical bytes of a PrePrepare sit, its parts sit.
proof fn lemma_shape_preprepare(b: Seq<u8>, pos: int, mm: PBFTMessage)
    requires
        canon_at(b, pos, mm),
        mm is PrePrepare,
    ensures
        encoded(mm).len() == 25 + mm->PrePrepare_digest@.len(),
        b.subrange(pos + 1, pos + 9) == enc_u64(mm->PrePrepare_view),
        b.subrange(pos + 9, pos + 17) == enc_u64(mm->PrePrepare_sequence_number),
        b.subrange(pos + 17, pos + encoded(mm).len()) == enc_bytes(mm->PrePrepare_digest@),
{
    vstd::std_specs::vec::axiom_spec_len(&mm->PrePrepare_digest);
    let d = mm->PrePrepare_digest@;
    let l = pos + encoded(mm).len();
    assert(encoded(mm).len() == 25 + d.len());
    assert(b.subrange(pos, l) =~= b.subrange(pos + 0, pos + 1) + (b.subrange(pos + 1, pos + 9) + (b.subrange(pos + 9, pos + 17) + (b.subrange(pos + 17, l)))));
    assert(encoded(mm) =~= seq![2u8] + (enc_u64(mm->PrePrepare_view) + (enc_u64(mm->PrePrepare_sequence_number) + (enc_bytes(d)))));
    lemma_concat_split(b.subrange(pos + 0, pos + 1), b.subrange(pos + 1, pos + 9) + (b.subrange(pos + 9, pos + 17) + (b.subrange(pos + 17, l))), seq![2u8], enc_u64(mm->PrePrepare_view) + (enc_u64(mm->PrePrepare_sequence_number) + (enc_bytes(d))));
    lemma_concat_split(b.subrange(pos + 1, pos + 9), b.subrange(pos + 9, pos + 17) + (b.subrange(pos + 17, l)), enc_u64(mm->PrePrepare_view), enc_u64(mm->PrePrepare_sequence_number) + (enc_bytes(d)));
    lemma_concat_split(b.subrange(pos + 9, pos + 17), b.subrange(pos + 17, l), enc_u64(mm->PrePrepare_sequence_number), enc_bytes(d));
}

/// Where the canonical bytes of a Prepare sit, its parts sit.
proof fn lemma_shape_prepare(b: Seq<u8>, pos: int, mm: PBFTMessage)
    requires
        canon_at(b, pos, mm),
        mm is Prepare,
    ensures
        encoded(mm).len() == 33 + mm->Prepare_digest@.len(),
        b.subrange(pos + 1, pos + 9) == enc_u64(mm->Prepare_view),
        b.subrange(pos + 9, pos + 17) == enc_u64(mm->Prepare_sequence_number),
        b.subrange(pos + 17, pos + 25) == enc_u64(mm->Prepare_sender_id),
        b.subrange(pos + 25, pos + encoded(mm).len()) == enc_bytes(mm->Prepare_digest@),
{
    vstd::std_specs::vec::axiom_spec_len(&mm->Prepare_digest);
    let d = mm->Prepare_digest@;
    let l = pos + encoded(mm).len();
    assert(encoded(mm).len() == 33 + d.len());
    assert(b.subrange(pos, l) =~= b.subrange(pos + 0, pos + 1) + (b.subrange(pos + 1, pos + 9) + (b.subrange(pos + 9, pos + 17) + (b.subrange(pos + 17, pos + 25) + (b.subrange(pos + 25, l))))));
    assert(encoded(mm) =~= seq![3u8] + (enc_u64(mm->Prepare_view) + (enc_u64(mm->Prepare_sequence_number) + (enc_u64(mm->Prepare_sender_id) + (enc_bytes(d))))));
    lemma_concat_split(b.subrange(pos + 0, pos + 1), b.subrange(pos + 1, pos + 9) + (b.subrange(pos + 9, pos + 17) + (b.subrange(pos + 17, pos + 25) + (b.subrange(pos + 25, l)))), seq![3u8], enc_u64(mm->Prepare_view) + (enc_u64(mm->Prepare_sequence_number) + (enc_u64(mm->Prepare_sender_id) + (enc_bytes(d)))));
    lemma_concat_split(b.subrange(pos + 1, pos + 9), b.subrange(pos + 9, pos + 17) + (b.subrange(pos + 17, pos + 25) + (b.subrange(pos + 25, l))), enc_u64(mm->Prepare_view), enc_u64(mm->Prepare_sequence_number) + (enc_u64(mm->Prepare_sender_id) + (enc_bytes(d))));
    lemma_concat_split(b.subrange(pos + 9, pos + 17), b.subrange(pos + 17, pos + 25) + (b.subrange(pos + 25, l)), enc_u64(mm->Prepare_sequence_number), enc_u64(mm->Prepare_sender_id) + (enc_bytes(d)));
    lemma_concat_split(b.subrange(pos + 17, pos + 25), b.subrange(pos + 25, l), enc_u64(mm->Prepare_sender_id), enc_bytes(d));
}

/// Where the canonical bytes of a Commit sit, its parts sit.
proof fn lemma_shape_commit(b: Seq<u8>, pos: int, mm: PBFTMessage)
    requires
        canon_at(b, pos, mm),
        mm is Commit,
    ensures
        encoded(mm).len() == 25 + mm->Commit_digest@.len(),
        b.subrange(pos + 1, pos + 9) == enc_u64(mm->Commit_view),
        b.subrange(pos + 9, pos + 17) == enc_u64(mm->Commit_sequence_number),
        b.subrange(pos + 17, pos + encoded(mm).len()) == enc_bytes(mm->Commit_digest@),
{
    vstd::std_specs::vec::axiom_spec_len(&mm->Commit_digest);
    let d = mm->Commit_digest@;
    let l = pos + encoded(mm).len();
    assert(encoded(mm).len() == 25 + d.len());
    assert(b.subrange(pos, l) =~= b.subrange(pos + 0, pos + 1) + (b.subrange(pos + 1, pos + 9) + (b.subrange(pos + 9, pos + 17) + (b.subrange(pos + 17, l)))));
    assert(encoded(mm) =~= seq![4u8] + (enc_u64(mm->Commit_view) + (enc_u64(mm->Commit_sequence_number) + (enc_bytes(d)))));
    lemma_concat_split(b.subrange(pos + 0, pos + 1), b.subrange(pos + 1, pos + 9) + (b.subrange(pos + 9, pos + 17) + (b.subrange(pos + 17, l))), seq![4u8], enc_u64(mm->Commit_view) + (enc_u64(mm->Commit_sequence_number) + (enc_bytes(d))));
    lemma_concat_split(b.subrange(pos + 1, pos + 9), b.subrange(pos + 9, pos + 17) + (b.subrange(pos + 17, l)), enc_u64(mm->Commit_view), enc_u64(mm->Commit_sequence_number) + (enc_bytes(d)));
    lemma_concat_split(b.subrange(pos + 9, pos + 17), b.subrange(pos + 17, l), enc_u64(mm->Commit_sequence_number), enc_bytes(d));
}

/// Where the canonical bytes of a ViewChange sit, its parts sit.
proof fn lemma_shape_viewchange(b: Seq<u8>, pos: int, mm: PBFTMessage)
    requires
        canon_at(b, pos, mm),
        mm is ViewChange,
    ensures
        encoded(mm).len() == 25,
        b.subrange(pos + 1, pos + 9) == enc_u64(mm->ViewChange_view),
        b.subrange(pos + 9, pos + 17) == enc_u64(mm->ViewChange_last_sequence_number),
        b.subrange(pos + 17, pos + 25) == enc_u64(mm->ViewChange_node_id),
{
    let l = pos + encoded(mm).len();
    assert(encoded(mm).len() == 25);
    assert(b.subrange(pos, l) =~= b.subrange(pos + 0, pos + 1) + (b.subrange(pos + 1, pos + 9) + (b.subrange(pos + 9, pos + 17) + (b.subrange(pos + 17, l)))));
    assert(encoded(mm) =~= seq![5u8] + (enc_u64(mm->ViewChange_view) + (enc_u64(mm->ViewChange_last_sequence_number) + (enc_u64(mm->ViewChange_node_id)))));
    lemma_concat_split(b.subrange(pos + 0, pos + 1), b.subrange(pos + 1, pos + 9) + (b.subrange(pos + 9, pos + 17) + (b.subrange(pos + 17, l))), seq![5u8], enc_u64(mm->ViewChange_view) + (enc_u64(mm->ViewChange_last_sequence_number) + (enc_u64(mm->ViewChange_node_id))));
    lemma_concat_split(b.subrange(pos + 1, pos + 9), b.subrange(pos + 9, pos + 17) + (b.subrange(pos + 17, l)), enc_u64(mm->ViewChange_view), enc_u64(mm->ViewChange_last_sequence_number) + (enc_u64(mm->ViewChange_node_id)));
    lemma_concat_split(b.subrange(pos + 9, pos + 17), b.subrange(pos + 17, l), enc_u64(mm->ViewChange_last_sequence_number), enc_u64(mm->ViewChange_node_id));
}

/// Where the canonical bytes of a PubKey sit, its parts sit.
proof fn lemma_shape_pubkey(b: Seq<u8>, pos: int, mm: PBFTMessage)
    requires
        canon_at(b, pos, mm),
        mm is PubKey,
    ensures
        encoded(mm).len() == 17 + mm->PubKey_public_key@.len(),
        b.subrange(pos + 1, pos + 9) == enc_u64(mm->PubKey_node_id),
        b.subrange(pos + 9, pos + encoded(mm).len()) == enc_bytes(mm->PubKey_public_key@),
{
    vstd::std_specs::vec::axiom_spec_len(&mm->PubKey_public_key);
    let d = mm->PubKey_public_key@;
    let l = pos + encoded(mm).len();
    assert(encoded(mm).len() == 17 + d.len());
    assert(b.subrange(pos, l) =~= b.subrange(pos + 0, pos + 1) + (b.subrange(pos + 1, pos + 9) + (b.subrange(pos + 9, l))));
    assert(encoded(mm) =~= seq![7u8] + (enc_u64(mm->PubKey_node_id) + (enc_bytes(d))));
    lemma_concat_split(b.subrange(pos + 0, pos + 1), b.subrange(pos + 1, pos + 9) + (b.subrange(pos + 9, l)), seq![7u8], enc_u64(mm->PubKey_node_id) + (enc_bytes(d)));
    lemma_concat_split(b.subrange(pos + 1, pos + 9), b.subrange(pos + 9, l), enc_u64(mm->PubKey_node_id), enc_bytes(d));
}

/// Where the canonical bytes of a ByzantineVote sit, its parts sit.
proof fn lemma_shape_byzvote(b: Seq<u8>, pos: int, mm: PBFTMessage)
    requires
        canon_at(b, pos, mm),
        mm is ByzantineVote,
    ensures
        encoded(mm).len() == 17,
        b.subrange(pos + 1, pos + 9) == enc_u64(mm->ByzantineVote_suspected_id),
        b.subrange(pos + 9, pos + 17) == enc_u64(mm->ByzantineVote_sender_id),
{
    let l = pos + encoded(mm).len();
    assert(encoded(mm).len() == 17);
    assert(b.subrange(pos, l) =~= b.subrange(pos + 0, pos + 1) + (b.subrange(pos + 1, pos + 9) + (b.subrange(pos + 9, l))));
    assert(encoded(mm) =~= seq![9u8] + (enc_u64(mm->ByzantineVote_suspected_id) + (enc_u64(mm->ByzantineVote_sender_id))));
    lemma_concat_split(b.subrange(pos + 0, pos + 1), b.subrange(pos + 1, pos + 9) + (b.subrange(pos + 9, l)), seq![9u8], enc_u64(mm->ByzantineVote_suspected_id) + (enc_u64(mm->ByzantineVote_sender_id)));
    lemma_concat_split(b.subrange(pos + 1, pos + 9), b.subrange(pos + 9, l), enc_u64(mm->ByzantineVote_suspected_id), enc_u64(mm->ByzantineVote_sender_id));
}

/// Where the canonical bytes of a signed envelope sit, its parts sit,
/// the inner message's canonical bytes following the signature.
proof fn lemma_shape_signed(b: Seq<u8>, pos: int, mm: PBFTMessage)
    requires
        canon_at(b, pos, mm),
        mm is SignedMessage,
    ensures
        encoded(mm).len() == 17 + mm->SignedMessage_signature@.len() + encoded(
            *mm->SignedMessage_message,
        ).len(),
        b.subrange(pos + 1, pos + 9) == enc_u64(mm->SignedMessage_sender_id),
        b.subrange(pos + 9, pos + 17 + mm->SignedMessage_signature@.len()) == enc_bytes(
            mm->SignedMessage_signature@,
        ),
        canon_at(b, pos + 17 + mm->SignedMessage_signature@.len(), *mm->SignedMessage_message),
{
    vstd::std_specs::vec::axiom_spec_len(&mm->SignedMessage_signature);
    let g = mm->SignedMessage_signature@;
    let inner = encoded(*mm->SignedMessage_message);
    let l = pos + encoded(mm).len();
    assert(encoded(mm).len() == 17 + g.len() + inner.len());
    assert(b.subrange(pos, l) =~= b.subrange(pos, pos + 1) + (b.subrange(pos + 1, pos + 9) + (
    b.subrange(pos + 9, pos + 17 + g.len()) + b.subrange(pos + 17 + g.len(), l))));
    assert(encoded(mm) =~= seq![8u8] + (enc_u64(mm->SignedMessage_sender_id) + (enc_bytes(g)
        + inner)));
    lemma_concat_split(
        b.subrange(pos, pos + 1),
        b.subrange(pos + 1, pos + 9) + (b.subrange(pos + 9, pos + 17 + g.len()) + b.subrange(
            pos + 17 + g.len(),
            l,
        )),
        seq![8u8],
        enc_u64(mm->SignedMessage_sender_id) + (enc_bytes(g) + inner),
    );
    lemma_concat_split(
        b.subrange(pos + 1, pos + 9),
        b.subrange(pos + 9, pos + 17 + g.len()) + b.subrange(pos + 17 + g.len(), l),
        enc_u64(mm->SignedMessage_sender_id),
        enc_bytes(g) + inner,
    );
    lemma_concat_split(
        b.subrange(pos + 9, pos + 17 + g.len()),
        b.subrange(pos + 17 + g.len(), l),
        enc_bytes(g),
        inner,
    );
}

/// Where the canonical bytes of a NewView sit, its parts sit, the list's
/// canonical bytes following the count.
proof fn lemma_shape_newview(b: Seq<u8>, pos: int, mm: PBFTMessage)
    requires
        canon_at(b, pos, mm),
        mm is NewView,
    ensures
        encoded(mm).len() == 17 + enc_list(mm->NewView_view_change_messages@).len(),
        b.subrange(pos + 1, pos + 9) == enc_u64(mm->NewView_view),
        b.subrange(pos + 9, pos + 17) == enc_u64(
            mm->NewView_view_change_messages@.len() as u64,
        ),
        list_canon_at(b, pos + 17, mm->NewView_view_change_messages@),
{
    let ls = mm->NewView_view_change_messages@;
    let l = pos + encoded(mm).len();
    assert(encoded(mm).len() == 17 + enc_list(ls).len());
    assert(b.subrange(pos, l) =~= b.subrange(pos, pos + 1) + (b.subrange(pos + 1, pos + 9) + (
    b.subrange(pos + 9, pos + 17) + b.subrange(pos + 17, l))));
    assert(encoded(mm) =~= seq![6u8] + (enc_u64(mm->NewView_view) + (enc_u64(ls.len() as u64)
        + enc_list(ls))));
    lemma_concat_split(
        b.subrange(pos, pos + 1),
        b.subrange(pos + 1, pos + 9) + (b.subrange(pos + 9, pos + 17) + b.subrange(pos + 17, l)),
        seq![6u8],
        enc_u64(mm->NewView_view) + (enc_u64(ls.len() as u64) + enc_list(ls)),
    );
    lemma_concat_split(
        b.subrange(pos + 1, pos + 9),
        b.subrange(pos + 9, pos + 17) + b.subrange(pos + 17, l),
        enc_u64(mm->NewView_view),
        enc_u64(ls.len() as u64) + enc_list(ls),
    );
    lemma_concat_split(
        b.subrange(pos + 9, pos + 17),
        b.subrange(pos + 17, l),
        enc_u64(ls.len() as u64),
        enc_list(ls),
    );
}

/// A length-prefixed byte string opens with its length, readable back.
proof fn lemma_canon_bytes_field(b: Seq<u8>, start: int, d: Seq<u8>, endpos: int)
    requires
        0 <= start,
        start + 8 + d.len() == endpos,
        endpos <= b.len(),
        d.len() <= u64::MAX,
        b.subrange(start, endpos) == enc_bytes(d),
    ensures
        b.subrange(start, start + 8) == enc_u64(d.len() as u64),
        dec_u64(b.subrange(start, start + 8)) == d.len() as u64,
{
    assert(b.subrange(start, endpos) =~= b.subrange(start, start + 8) + b.subrange(
        start + 8,
        endpos,
    ));
    lemma_concat_split(
        b.subrange(start, start + 8),
        b.subrange(start + 8, endpos),
        enc_u64(d.len() as u64),
        d,
    );
    lemma_u64_roundtrip(d.len() as u64);
}

/// Reads a big-endian `u64`.
fn read_u64_at(bytes: &Vec<u8>, pos: usize) -> (r: u64)
    requires
        pos + 8 <= bytes@.len(),
    ensures
        r == dec_u64(bytes@.subrange(pos as int, pos as int + 8)),
{
    let n = bytes.len();
    let r = ((bytes[pos] as u64) << 56) | ((bytes[pos + 1] as u64) << 48) | ((bytes[pos
        + 2] as u64) << 40) | ((bytes[pos + 3] as u64) << 32) | ((bytes[pos + 4] as u64) << 24) | (
    (bytes[pos + 5] as u64) << 16) | ((bytes[pos + 6] as u64) << 8) | (bytes[pos + 7] as u64);
    proof {
        let s = bytes@.subrange(pos as int, pos as int + 8);
        assert(s[0] == bytes@[pos as int]);
        assert(s[1] == bytes@[pos as int + 1]);
        assert(s[2] == bytes@[pos as int + 2]);
        assert(s[3] == bytes@[pos as int + 3]);
        assert(s[4] == bytes@[pos as int + 4]);
        assert(s[5] == bytes@[pos as int + 5]);
        assert(s[6] == bytes@[pos as int + 6]);
        assert(s[7] == bytes@[pos as int + 7]);
    }
    r
}

/// Reads a length-prefixed byte string.
fn read_bytes_at(bytes: &Vec<u8>, pos: usize) -> (r: Option<(Vec<u8>, usize)>)
    requires
        pos <= bytes@.len(),
    ensures
        r matches Some(p) ==> pos < p.1 <= bytes@.len() && p.1 == pos + 8 + p.0@.len()
            && bytes@.subrange(pos as int, p.1 as int) == enc_bytes(p.0@),
        r is None ==> bytes@.len() - pos < 8 || (dec_u64(
            bytes@.subrange(pos as int, pos as int + 8),
        ) as int) > bytes@.len() - pos - 8,
{
    if bytes.len() - pos < 8 {
        return Option::None;
    }
    let n = read_u64_at(bytes, pos);
    let rem = bytes.len() - (pos + 8);
    if n > rem as u64 {
        return Option::None;
    }
    let cnt = n as usize;
    let blen = bytes.len();
    let mut out: Vec<u8> = Vec::new();
    let mut i: usize = 0;
    while i < cnt
        invariant
            i <= cnt,
            pos + 8 + cnt <= bytes@.len(),
            bytes@.len() == blen,
            out@ == bytes@.subrange(pos as int + 8, pos as int + 8 + i),
        decreases cnt - i,
    {
        out.push(bytes[pos + 8 + i]);
        proof {
            assert(out@ =~= bytes@.subrange(pos as int + 8, pos as int + 8 + i + 1));
        }
        i = i + 1;
    }
    proof {
        lemma_u64_enc_dec(bytes@.subrange(pos as int, pos as int + 8));
        assert(out@.len() == n as usize);
        assert((out@.len() as u64) == n);
        assert(bytes@.subrange(pos as int, pos as int + 8 + cnt) =~= bytes@.subrange(
            pos as int,
            pos as int + 8,
        ) + out@);
        assert(bytes@.subrange(pos as int, pos as int + 8 + cnt) =~= enc_bytes(out@));
    }
    Option::Some((out, pos + 8 + cnt))
}

/// Reads one message from `pos` on. A successful read is pinned to the
/// canonical form: whenever some message's canonical bytes sit at `pos`,
/// the read succeeds, consumes exactly them, and yields a message with
/// those same canonical bytes.
#[verifier::rlimit(100)]
fn parse_message(bytes: &Vec<u8>, pos: usize) -> (r: Option<(PBFTMessage, usize)>)
    requires
        pos <= bytes@.len(),
    ensures
        r matches Some(p) ==> pos < p.1 <= bytes@.len(),
        (exists|mm: PBFTMessage| canon_at(bytes@, pos as int, mm)) ==> r is Some,
        r matches Some(p) ==> forall|mm: PBFTMessage|
            canon_at(bytes@, pos as int, mm) ==> encoded(p.0) == encoded(mm) && p.1 == pos
                + encoded(mm).len(),
    decreases bytes@.len() - pos, 0nat,
{
    let blen = bytes.len();
    if pos >= blen {
        proof {
            assert forall|mm: PBFTMessage| !canon_at(bytes@, pos as int, mm) by {
                lemma_tag(mm);
            }
        }
        return Option::None;
    }
    let tag = bytes[pos];
    proof {
        assert(bytes@[pos as int] == tag);
    }
    if tag == 1 {
        match read_bytes_at(bytes, pos + 1) {
            Option::Some((operation, end)) => {
                let m = PBFTMessage::Request { operation };
                proof {
                    vstd::std_specs::vec::axiom_spec_len(&m->Request_operation);
                    assert forall|mm: PBFTMessage|
                        canon_at(bytes@, pos as int, mm) implies encoded(m) == encoded(mm) && end
                        == pos + encoded(mm).len() by {
                        lemma_tag(mm);
                        assert(bytes@[pos as int] == tag_of(mm));
                        assert(mm is Request);
                        lemma_shape_request(bytes@, pos as int, mm);
                        vstd::std_specs::vec::axiom_spec_len(&mm->Request_operation);
                        lemma_bytes_at_unique(
                            bytes@,
                            pos as int + 1,
                            m->Request_operation@,
                            end as int,
                            mm->Request_operation@,
                            pos + encoded(mm).len(),
                        );
                    }
                }
                Option::Some((m, end))
            },
            Option::None => {
                proof {
                    assert forall|mm: PBFTMessage| !canon_at(bytes@, pos as int, mm) by {
                        if canon_at(bytes@, pos as int, mm) {
                            lemma_tag(mm);
                            assert(mm is Request);
                            lemma_shape_request(bytes@, pos as int, mm);
                            vstd::std_specs::vec::axiom_spec_len(&mm->Request_operation);
                            lemma_canon_bytes_field(
                                bytes@,
                                pos as int + 1,
                                mm->Request_operation@,
                                pos + encoded(mm).len(),
                            );
                        }
                    }
                }
                Option::None
            },
        }
    } else if tag == 2 || tag == 4 {
        if blen - pos < 17 {
            proof {
                assert forall|mm: PBFTMessage| !canon_at(bytes@, pos as int, mm) by {
                    if canon_at(bytes@, pos as int, mm) {
                        lemma_tag(mm);
                        if tag == 2 {
                            assert(mm is PrePrepare);
                            lemma_shape_preprepare(bytes@, pos as int, mm);
                        } else {
                            assert(mm is Commit);
                            lemma_shape_commit(bytes@, pos as int, mm);
                        }
                    }
                }
            }
            return Option::None;
        }
        let view = read_u64_at(bytes, pos + 1);
        let sequence_number = read_u64_at(bytes, pos + 9);
        match read_bytes_at(bytes, pos + 17) {
            Option::Some((digest, end)) => {
                let ghost dv = digest@;
                let m = if tag == 2 {
                    PBFTMessage::PrePrepare { view, sequence_number, digest }
                } else {
                    PBFTMessage::Commit { view, sequence_number, digest }
                };
                proof {
                    assert forall|mm: PBFTMessage|
                        canon_at(bytes@, pos as int, mm) implies encoded(m) == encoded(mm) && end
                        == pos + encoded(mm).len() by {
                        lemma_tag(mm);
                        assert(bytes@[pos as int] == tag_of(mm));
                        if tag == 2 {
                            assert(mm is PrePrepare);
                            lemma_shape_preprepare(bytes@, pos as int, mm);
                            lemma_u64_roundtrip(mm->PrePrepare_view);
                            lemma_u64_roundtrip(mm->PrePrepare_sequence_number);
                            vstd::std_specs::vec::axiom_spec_len(&mm->PrePrepare_digest);
                            lemma_bytes_at_unique(
                                bytes@,
                                pos as int + 17,
                                dv,
                                end as int,
                                mm->PrePrepare_digest@,
                                pos + encoded(mm).len(),
                            );
                        } else {
                            assert(mm is Commit);
                            lemma_shape_commit(bytes@, pos as int, mm);
                            lemma_u64_roundtrip(mm->Commit_view);
                            lemma_u64_roundtrip(mm->Commit_sequence_number);
                            vstd::std_specs::vec::axiom_spec_len(&mm->Commit_digest);
                            lemma_bytes_at_unique(
                                bytes@,
                                pos as int + 17,
                                dv,
                                end as int,
                                mm->Commit_digest@,
                                pos + encoded(mm).len(),
                            );
                        }
                    }
                }
                Option::Some((m, end))
            },
            Option::None => {
                proof {
                    assert forall|mm: PBFTMessage| !canon_at(bytes@, pos as int, mm) by {
                        if canon_at(bytes@, pos as int, mm) {
                            lemma_tag(mm);
                            if tag == 2 {
                                assert(mm is PrePrepare);
                                lemma_shape_preprepare(bytes@, pos as int, mm);
                                vstd::std_specs::vec::axiom_spec_len(&mm->PrePrepare_digest);
                                lemma_canon_bytes_field(
                                    bytes@,
                                    pos as int + 17,
                                    mm->PrePrepare_digest@,
                                    pos + encoded(mm).len(),
                                );
                            } else {
                                assert(mm is Commit);
                                lemma_shape_commit(bytes@, pos as int, mm);
                                vstd::std_specs::vec::axiom_spec_len(&mm->Commit_digest);
                                lemma_canon_bytes_field(
                                    bytes@,
                                    pos as int + 17,
                                    mm->Commit_digest@,
                                    pos + encoded(mm).len(),
                                );
                            }
                        }
                    }
                }
                Option::None
            },
        }
    } else if tag == 3 {
        if blen - pos < 25 {
            proof {
                assert forall|mm: PBFTMessage| !canon_at(bytes@, pos as int, mm) by {
                    if canon_at(bytes@, pos as int, mm) {
                        lemma_tag(mm);
                        assert(mm is Prepare);
                        lemma_shape_prepare(bytes@, pos as int, mm);
                    }
                }
            }
            return Option::None;
        }
        let view = read_u64_at(bytes, pos + 1);
        let sequence_number = read_u64_at(bytes, pos + 9);
        let sender_id = read_u64_at(bytes, pos + 17);
        match read_bytes_at(bytes, pos + 25) {
            Option::Some((digest, end)) => {
                let ghost dv = digest@;
                let m = PBFTMessage::Prepare { view, sequence_number, digest, sender_id };
                proof {
                    assert forall|mm: PBFTMessage|
                        canon_at(bytes@, pos as int, mm) implies encoded(m) == encoded(mm) && end
                        == pos + encoded(mm).len() by {
                        lemma_tag(mm);
                        assert(mm is Prepare);
                        lemma_shape_prepare(bytes@, pos as int, mm);
                        lemma_u64_roundtrip(mm->Prepare_view);
                        lemma_u64_roundtrip(mm->Prepare_sequence_number);
                        lemma_u64_roundtrip(mm->Prepare_sender_id);
                        vstd::std_specs::vec::axiom_spec_len(&mm->Prepare_digest);
                        lemma_bytes_at_unique(
                            bytes@,
                            pos as int + 25,
                            dv,
                            end as int,
                            mm->Prepare_digest@,
                            pos + encoded(mm).len(),
                        );
                    }
                }
                Option::Some((m, end))
            },
            Option::None => {
                proof {
                    assert forall|mm: PBFTMessage| !canon_at(bytes@, pos as int, mm) by {
                        if canon_at(bytes@, pos as int, mm) {
                            lemma_tag(mm);
                            assert(mm is Prepare);
                            lemma_shape_prepare(bytes@, pos as int, mm);
                            vstd::std_specs::vec::axiom_spec_len(&mm->Prepare_digest);
                            lemma_canon_bytes_field(
                                bytes@,
                                pos as int + 25,
                                mm->Prepare_digest@,
                                pos + encoded(mm).len(),
                            );
                        }
                    }
                }
                Option::None
            },
        }
    } else if tag == 5 {
        if blen - pos < 25 {
            proof {
                assert forall|mm: PBFTMessage| !canon_at(bytes@, pos as int, mm) by {
                    if canon_at(bytes@, pos as int, mm) {
                        lemma_tag(mm);
                        assert(mm is ViewChange);
                        lemma_shape_viewchange(bytes@, pos as int, mm);
                    }
                }
            }
            return Option::None;
        }
        let view = read_u64_at(bytes, pos + 1);
        let last_sequence_number = read_u64_at(bytes, pos + 9);
        let node_id = read_u64_at(bytes, pos + 17);
        let m = PBFTMessage::ViewChange { view, last_sequence_number, node_id };
        proof {
            assert forall|mm: PBFTMessage|
                canon_at(bytes@, pos as int, mm) implies encoded(m) == encoded(mm) && pos + 25
                == pos + encoded(mm).len() by {
                lemma_tag(mm);
                assert(mm is ViewChange);
                lemma_shape_viewchange(bytes@, pos as int, mm);
                lemma_u64_roundtrip(mm->ViewChange_view);
                lemma_u64_roundtrip(mm->ViewChange_last_sequence_number);
                lemma_u64_roundtrip(mm->ViewChange_node_id);
            }
        }
        Option::Some((m, pos + 25))
    } else if tag == 6 {
        if blen - pos < 17 {
            proof {
                assert forall|mm: PBFTMessage| !canon_at(bytes@, pos as int, mm) by {
                    if canon_at(bytes@, pos as int, mm) {
                        lemma_tag(mm);
                        assert(mm is NewView);
                        lemma_shape_newview(bytes@, pos as int, mm);
                    }
                }
            }
            return Option::None;
        }
        let view = read_u64_at(bytes, pos + 1);
        let count = read_u64_at(bytes, pos + 9);
        match parse_list(bytes, pos + 17, count) {
            Option::Some((view_change_messages, end)) => {
                let m = PBFTMessage::NewView { view, view_change_messages };
                proof {
                    vstd::std_specs::vec::axiom_spec_len(&m->NewView_view_change_messages);
                    assert forall|mm: PBFTMessage|
                        canon_at(bytes@, pos as int, mm) implies encoded(m) == encoded(mm) && end
                        == pos + encoded(mm).len() by {
                        lemma_tag(mm);
                        assert(mm is NewView);
                        lemma_shape_newview(bytes@, pos as int, mm);
                        lemma_u64_roundtrip(mm->NewView_view);
                        lemma_u64_roundtrip(mm->NewView_view_change_messages@.len() as u64);
                        vstd::std_specs::vec::axiom_spec_len(&mm->NewView_view_change_messages);
                        assert(count == mm->NewView_view_change_messages@.len() as u64);
                        assert(enc_list(m->NewView_view_change_messages@) == enc_list(
                            mm->NewView_view_change_messages@,
                        ) && end == pos + 17 + enc_list(mm->NewView_view_change_messages@).len());
                    }
                }
                Option::Some((m, end))
            },
            Option::None => {
                proof {
                    assert forall|mm: PBFTMessage| !canon_at(bytes@, pos as int, mm) by {
                        if canon_at(bytes@, pos as int, mm) {
                            lemma_tag(mm);
                            assert(mm is NewView);
                            lemma_shape_newview(bytes@, pos as int, mm);
                            lemma_u64_roundtrip(mm->NewView_view_change_messages@.len() as u64);
                            vstd::std_specs::vec::axiom_spec_len(
                                &mm->NewView_view_change_messages,
                            );
                            assert(count == mm->NewView_view_change_messages@.len() as u64);
                            assert(mm->NewView_view_change_messages@.len() == count
                                && list_canon_at(
                                bytes@,
                                pos as int + 17,
                                mm->NewView_view_change_messages@,
                            ));
                        }
                    }
                }
                Option::None
            },
        }
    } else if tag == 7 {
        if blen - pos < 9 {
            proof {
                assert forall|mm: PBFTMessage| !canon_at(bytes@, pos as int, mm) by {
                    if canon_at(bytes@, pos as int, mm) {
                        lemma_tag(mm);
                        assert(mm is PubKey);
                        lemma_shape_pubkey(bytes@, pos as int, mm);
                    }
                }
            }
            return Option::None;
        }
        let node_id = read_u64_at(bytes, pos + 1);
        match read_bytes_at(bytes, pos + 9) {
            Option::Some((public_key, end)) => {
                let ghost kv = public_key@;
                let m = PBFTMessage::PubKey { node_id, public_key };
                proof {
                    assert forall|mm: PBFTMessage|
                        canon_at(bytes@, pos as int, mm) implies encoded(m) == encoded(mm) && end
                        == pos + encoded(mm).len() by {
                        lemma_tag(mm);
                        assert(mm is PubKey);
                        lemma_shape_pubkey(bytes@, pos as int, mm);
                        lemma_u64_roundtrip(mm->PubKey_node_id);
                        vstd::std_specs::vec::axiom_spec_len(&mm->PubKey_public_key);
                        lemma_bytes_at_unique(
                            bytes@,
                            pos as int + 9,
                            kv,
                            end as int,
                            mm->PubKey_public_key@,
                            pos + encoded(mm).len(),
                        );
                    }
                }
                Option::Some((m, end))
            },
            Option::None => {
                proof {
                    assert forall|mm: PBFTMessage| !canon_at(bytes@, pos as int, mm) by {
                        if canon_at(bytes@, pos as int, mm) {
                            lemma_tag(mm);
                            assert(mm is PubKey);
                            lemma_shape_pubkey(bytes@, pos as int, mm);
                            vstd::std_specs::vec::axiom_spec_len(&mm->PubKey_public_key);
                            lemma_canon_bytes_field(
                                bytes@,
                                pos as int + 9,
                                mm->PubKey_public_key@,
                                pos + encoded(mm).len(),
                            );
                        }
                    }
                }
                Option::None
            },
        }
    } else if tag == 8 {
        if blen - pos < 9 {
            proof {
                assert forall|mm: PBFTMessage| !canon_at(bytes@, pos as int, mm) by {
                    if canon_at(bytes@, pos as int, mm) {
                        lemma_tag(mm);
                        assert(mm is SignedMessage);
                        lemma_shape_signed(bytes@, pos as int, mm);
                    }
                }
            }
            return Option::None;
        }
        let sender_id = read_u64_at(bytes, pos + 1);
        match read_bytes_at(bytes, pos + 9) {
            Option::Some((signature, mid)) => {
                let ghost gv = signature@;
                let inner_r = parse_message(bytes, mid);
                match inner_r {
                    Option::Some((inner, end)) => {
                        let m = PBFTMessage::SignedMessage {
                            message: Box::new(inner),
                            signature,
                            sender_id,
                        };
                        proof {
                            assert forall|mm: PBFTMessage|
                                canon_at(bytes@, pos as int, mm) implies encoded(m) == encoded(mm)
                                && end == pos + encoded(mm).len() by {
                                lemma_tag(mm);
                                assert(mm is SignedMessage);
                                lemma_shape_signed(bytes@, pos as int, mm);
                                lemma_u64_roundtrip(mm->SignedMessage_sender_id);
                                vstd::std_specs::vec::axiom_spec_len(&mm->SignedMessage_signature);
                                lemma_bytes_at_unique(
                                    bytes@,
                                    pos as int + 9,
                                    gv,
                                    mid as int,
                                    mm->SignedMessage_signature@,
                                    pos + 17 + mm->SignedMessage_signature@.len(),
                                );
                                assert(canon_at(bytes@, mid as int, *mm->SignedMessage_message));
                                assert(encoded(*m->SignedMessage_message) == encoded(
                                    *mm->SignedMessage_message,
                                ) && end == mid + encoded(*mm->SignedMessage_message).len());
                            }
                        }
                        Option::Some((m, end))
                    },
                    Option::None => {
                        proof {
                            assert forall|mm: PBFTMessage| !canon_at(bytes@, pos as int, mm) by {
                                if canon_at(bytes@, pos as int, mm) {
                                    lemma_tag(mm);
                                    assert(mm is SignedMessage);
                                    lemma_shape_signed(bytes@, pos as int, mm);
                                    vstd::std_specs::vec::axiom_spec_len(
                                        &mm->SignedMessage_signature,
                                    );
                                    lemma_bytes_at_unique(
                                        bytes@,
                                        pos as int + 9,
                                        gv,
                                        mid as int,
                                        mm->SignedMessage_signature@,
                                        pos + 17 + mm->SignedMessage_signature@.len(),
                                    );
                                    assert(canon_at(
                                        bytes@,
                                        mid as int,
                                        *mm->SignedMessage_message,
                                    ));
                                }
                            }
                        }
                        Option::None
                    },
                }
            },
            Option::None => {
                proof {
                    assert forall|mm: PBFTMessage| !canon_at(bytes@, pos as int, mm) by {
                        if canon_at(bytes@, pos as int, mm) {
                            lemma_tag(mm);
                            assert(mm is SignedMessage);
                            lemma_shape_signed(bytes@, pos as int, mm);
                            vstd::std_specs::vec::axiom_spec_len(&mm->SignedMessage_signature);
                            lemma_canon_bytes_field(
                                bytes@,
                                pos as int + 9,
                                mm->SignedMessage_signature@,
                                pos + 17 + mm->SignedMessage_signature@.len(),
                            );
                        }
                    }
                }
                Option::None
            },
        }
    } else if tag == 9 {
        if blen - pos < 17 {
            proof {
                assert forall|mm: PBFTMessage| !canon_at(bytes@, pos as int, mm) by {
                    if canon_at(bytes@, pos as int, mm) {
                        lemma_tag(mm);
                        assert(mm is ByzantineVote);
                        lemma_shape_byzvote(bytes@, pos as int, mm);
                    }
                }
            }
            return Option::None;
        }
        let suspected_id = read_u64_at(bytes, pos + 1);
        let sender_id = read_u64_at(bytes, pos + 9);
        let m = PBFTMessage::ByzantineVote { suspected_id, sender_id };
        proof {
            assert forall|mm: PBFTMessage|
                canon_at(bytes@, pos as int, mm) implies encoded(m) == encoded(mm) && pos + 17
                == pos + encoded(mm).len() by {
                lemma_tag(mm);
                assert(mm is ByzantineVote);
                lemma_shape_byzvote(bytes@, pos as int, mm);
                lemma_u64_roundtrip(mm->ByzantineVote_suspected_id);
                lemma_u64_roundtrip(mm->ByzantineVote_sender_id);
            }
        }
        Option::Some((m, pos + 17))
    } else {
        proof {
            assert forall|mm: PBFTMessage| !canon_at(bytes@, pos as int, mm) by {
                if canon_at(bytes@, pos as int, mm) {
                    lemma_tag(mm);
                    assert(bytes@[pos as int] == tag_of(mm));
                }
            }
        }
        Option::None
    }
}

/// Reads `count` consecutive messages, pinned to the canonical list form
/// the same way.
fn parse_list(bytes: &Vec<u8>, pos: usize, count: u64) -> (r: Option<(Vec<PBFTMessage>, usize)>)
    requires
        pos <= bytes@.len(),
    ensures
        r matches Some(p) ==> pos <= p.1 <= bytes@.len() && p.0@.len() == count,
        (exists|ls: Seq<PBFTMessage>|
            ls.len() == count && list_canon_at(bytes@, pos as int, ls)) ==> r is Some,
        r matches Some(p) ==> forall|ls: Seq<PBFTMessage>|
            ls.len() == count && list_canon_at(bytes@, pos as int, ls) ==> enc_list(p.0@)
                == enc_list(ls) && p.1 == pos + enc_list(ls).len(),
    decreases bytes@.len() - pos, 1nat + count,
{
    if count == 0 {
        let out: Vec<PBFTMessage> = Vec::new();
        proof {
            assert forall|ls: Seq<PBFTMessage>|
                ls.len() == 0 && list_canon_at(bytes@, pos as int, ls) implies enc_list(out@)
                == enc_list(ls) && pos as int == pos + enc_list(ls).len() by {
                assert(enc_list(ls) =~= Seq::<u8>::empty());
                assert(enc_list(out@) =~= Seq::<u8>::empty());
            }
        }
        return Option::Some((out, pos));
    }
    match parse_message(bytes, pos) {
        Option::Some((m, mid)) => {
            let ghost m_g = m;
            match parse_list(bytes, mid, count - 1) {
                Option::Some((rest, end)) => {
                    let ghost rest_g = rest@;
                    let mut out = rest;
                    out.insert(0, m);
                    proof {
                        assert(out@ =~= seq![m_g] + rest_g);
                        assert(out@[0] == m_g);
                        assert(out@.drop_first() =~= rest_g);
                        assert(enc_list(out@) == encoded(m_g) + enc_list(rest_g));
                        assert forall|ls: Seq<PBFTMessage>|
                            ls.len() == count && list_canon_at(bytes@, pos as int, ls) implies
                        enc_list(out@) == enc_list(ls) && end == pos + enc_list(ls).len() by {
                            assert(ls.len() >= 1);
                            assert(enc_list(ls) == encoded(ls[0]) + enc_list(ls.drop_first()));
                            lemma_tag(ls[0]);
                            assert(canon_at(bytes@, pos as int, ls[0])) by {
                                assert(bytes@.subrange(
                                    pos as int,
                                    pos + encoded(ls[0]).len(),
                                ) =~= bytes@.subrange(pos as int, pos + enc_list(ls).len())
                                    .subrange(0, encoded(ls[0]).len() as int));
                                assert(enc_list(ls).subrange(0, encoded(ls[0]).len() as int)
                                    =~= encoded(ls[0]));
                            }
                            assert(encoded(m_g) == encoded(ls[0]) && mid == pos + encoded(
                                ls[0],
                            ).len());
                            assert(list_canon_at(bytes@, mid as int, ls.drop_first())) by {
                                assert(bytes@.subrange(
                                    mid as int,
                                    mid + enc_list(ls.drop_first()).len(),
                                ) =~= bytes@.subrange(pos as int, pos + enc_list(ls).len())
                                    .subrange(
                                    encoded(ls[0]).len() as int,
                                    enc_list(ls).len() as int,
                                ));
                                assert(enc_list(ls).subrange(
                                    encoded(ls[0]).len() as int,
                                    enc_list(ls).len() as int,
                                ) =~= enc_list(ls.drop_first()));
                            }
                            assert(ls.drop_first().len() == count - 1);
                            assert(enc_list(rest_g) == enc_list(ls.drop_first()) && end == mid
                                + enc_list(ls.drop_first()).len());
                        }
                    }
                    Option::Some((out, end))
                },
                Option::None => {
                    proof {
                        assert forall|ls: Seq<PBFTMessage>|
                            !(ls.len() == count && list_canon_at(bytes@, pos as int, ls)) by {
                            if ls.len() == count && list_canon_at(bytes@, pos as int, ls) {
                                assert(enc_list(ls) == encoded(ls[0]) + enc_list(
                                    ls.drop_first(),
                                ));
                                assert(canon_at(bytes@, pos as int, ls[0])) by {
                                    assert(bytes@.subrange(
                                        pos as int,
                                        pos + encoded(ls[0]).len(),
                                    ) =~= bytes@.subrange(pos as int, pos + enc_list(ls).len())
                                        .subrange(0, encoded(ls[0]).len() as int));
                                    assert(enc_list(ls).subrange(0, encoded(ls[0]).len() as int)
                                        =~= encoded(ls[0]));
                                }
                                assert(encoded(m_g) == encoded(ls[0]) && mid == pos + encoded(
                                    ls[0],
                                ).len());
                                assert(list_canon_at(bytes@, mid as int, ls.drop_first())) by {
                                    assert(bytes@.subrange(
                                        mid as int,
                                        mid + enc_list(ls.drop_first()).len(),
                                    ) =~= bytes@.subrange(pos as int, pos + enc_list(ls).len())
                                        .subrange(
                                        encoded(ls[0]).len() as int,
                                        enc_list(ls).len() as int,
                                    ));
                                    assert(enc_list(ls).subrange(
                                        encoded(ls[0]).len() as int,
                                        enc_list(ls).len() as int,
                                    ) =~= enc_list(ls.drop_first()));
                                }
                                assert(ls.drop_first().len() == count - 1);
                            }
                        }
                    }
                    Option::None
                },
            }
        },
        Option::None => {
            proof {
                assert forall|ls: Seq<PBFTMessage>|
                    !(ls.len() == count && list_canon_at(bytes@, pos as int, ls)) by {
                    if ls.len() == count && list_canon_at(bytes@, pos as int, ls) {
                        assert(enc_list(ls) == encoded(ls[0]) + enc_list(ls.drop_first()));
                        assert(canon_at(bytes@, pos as int, ls[0])) by {
                            assert(bytes@.subrange(pos as int, pos + encoded(ls[0]).len())
                                =~= bytes@.subrange(pos as int, pos + enc_list(ls).len())
                                .subrange(0, encoded(ls[0]).len() as int));
                            assert(enc_list(ls).subrange(0, encoded(ls[0]).len() as int)
                                =~= encoded(ls[0]));
                        }
                    }
                }
            }
            Option::None
        },
    }
}

/// Decodes canonical bytes: succeeds exactly when the bytes are some
/// message's canonical form (checked by re-encoding), and then yields a
/// message carrying that form. With [`lemma_encoded_injective`], the
/// decoded message is the one whose encoding was given.
pub fn decode_message(bytes: &Vec<u8>) -> (r: Option<PBFTMessage>)
    ensures
        r matches Some(m) ==> encoded(m) == bytes@,
        forall|mm: PBFTMessage| bytes@ == encoded(mm) ==> r is Some,
{
    proof {
        assert forall|mm: PBFTMessage| bytes@ == encoded(mm) implies canon_at(bytes@, 0, mm) by {
            assert(bytes@.subrange(0, encoded(mm).len() as int) =~= encoded(mm));
        }
    }
    match parse_message(bytes, 0) {
        Option::Some((m, end)) => {
            if end == bytes.len() {
                let re = encode_message(&m);
                if bytes_eq(&re, bytes) {
                    Option::Some(m)
                } else {
                    Option::None
                }
            } else {
                proof {
                    assert forall|mm: PBFTMessage| bytes@ != encoded(mm) by {
                        if bytes@ == encoded(mm) {
                            assert(canon_at(bytes@, 0, mm));
                            assert(end == 0 + encoded(mm).len());
                        }
                    }
                }
                Option::None
            }
        },
        Option::None => {
            proof {
                assert forall|mm: PBFTMessage| bytes@ != encoded(mm) by {
                    if bytes@ == encoded(mm) {
                        assert(canon_at(bytes@, 0, mm));
                    }
                }
            }
            Option::None
        },
    }
}

} // verus!

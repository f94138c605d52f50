//! End-to-end protocol tests: a four-replica cluster driven by hand,
//! message by message, with real signing and the canonical codec.

use pbft_core::codec::{decode_message, encode_message};
use pbft_core::digest::compute_digest;
use pbft_core::msg::PBFTMessage;
use pbft_core::node::Node;
use pbft_core::sig::{derive_public_key, verify_bytes};
use pbft_core::state::NodeState;

fn secret(i: u64) -> Vec<u8> {
    vec![(i as u8) + 1; 32]
}

fn cluster(byzantine: &[u64]) -> Vec<Node> {
    let mut keys: Vec<(u64, Vec<u8>)> = Vec::new();
    for i in 0..4u64 {
        keys.push((i, derive_public_key(&secret(i))));
    }
    let mut nodes = Vec::new();
    for i in 0..4u64 {
        let ks: Vec<(u64, Vec<u8>)> = keys.iter().map(|(a, b)| (*a, b.clone())).collect();
        nodes.push(Node::new(
            i,
            0,
            secret(i),
            ks,
            NodeState::empty(),
            byzantine.contains(&i),
        ));
    }
    nodes
}

fn msg_clone(m: &PBFTMessage) -> PBFTMessage {
    decode_message(&encode_message(m)).expect("canonical bytes decode")
}

/// Delivers one broadcast envelope to every replica but the sender;
/// returns the further broadcasts as (origin, envelope) pairs.
fn fan_out(nodes: &mut Vec<Node>, from: usize, env: &PBFTMessage) -> Vec<(usize, PBFTMessage)> {
    let mut out = Vec::new();
    for i in 0..nodes.len() {
        if i != from {
            for e in nodes[i].handle_message(msg_clone(env)) {
                out.push((i, e));
            }
        }
    }
    out
}

/// Runs the cluster until no broadcasts remain; returns every broadcast
/// made, in delivery order.
fn run_cluster(
    nodes: &mut Vec<Node>,
    start: Vec<(usize, PBFTMessage)>,
) -> Vec<(usize, PBFTMessage)> {
    let mut pending = start;
    let mut log = Vec::new();
    let mut cursor = 0;
    while cursor < pending.len() {
        let (from, env) = (pending[cursor].0, msg_clone(&pending[cursor].1));
        let more = fan_out(nodes, from, &env);
        pending.extend(more);
        cursor += 1;
    }
    for (from, env) in pending {
        log.push((from, env));
    }
    log
}

fn inner_tag(env: &PBFTMessage) -> &'static str {
    match env {
        PBFTMessage::SignedMessage { message, .. } => match &**message {
            PBFTMessage::Request { .. } => "request",
            PBFTMessage::PrePrepare { .. } => "preprepare",
            PBFTMessage::Prepare { .. } => "prepare",
            PBFTMessage::Commit { .. } => "commit",
            PBFTMessage::ViewChange { .. } => "viewchange",
            PBFTMessage::NewView { .. } => "newview",
            PBFTMessage::ByzantineVote { .. } => "byzvote",
            _ => "other",
        },
        _ => "unsigned",
    }
}

fn has_pair(list: &Vec<(u64, Vec<u8>)>, s: u64, d: &[u8]) -> bool {
    list.iter().any(|(a, b)| *a == s && b.as_slice() == d)
}

#[test]
fn digest_exact_value() {
    let d = compute_digest(&b"op1".to_vec());
    assert_eq!(
        d,
        b"7d3c6b8d51ac8ec79a2adbf98045944f934c1279a57f689cd5ce997fc223b48e".to_vec()
    );
    let h = compute_digest(&b"hello".to_vec());
    assert_eq!(
        h,
        b"2cf24dba5fb0a30e26e83b2ac5b9e29e1b161e5c1fa7425e73043362938b9824".to_vec()
    );
}

#[test]
fn digest_deterministic() {
    let a = compute_digest(&b"the same operation".to_vec());
    let b = compute_digest(&b"the same operation".to_vec());
    assert_eq!(a, b);
    assert_eq!(a.len(), 64);
}

#[test]
fn codec_round_trip_every_variant() {
    let samples = vec![
        PBFTMessage::Request { operation: b"op1".to_vec() },
        PBFTMessage::PrePrepare { view: 7, sequence_number: 9, digest: b"abcd".to_vec() },
        PBFTMessage::Prepare {
            view: 1,
            sequence_number: 2,
            digest: b"dd".to_vec(),
            sender_id: 3,
        },
        PBFTMessage::Commit { view: 0, sequence_number: 1, digest: vec![] },
        PBFTMessage::ViewChange { view: 5, last_sequence_number: 0, node_id: 2 },
        PBFTMessage::NewView {
            view: 5,
            view_change_messages: vec![
                PBFTMessage::ViewChange { view: 5, last_sequence_number: 0, node_id: 1 },
                PBFTMessage::ViewChange { view: 5, last_sequence_number: 0, node_id: 2 },
            ],
        },
        PBFTMessage::PubKey { node_id: 1, public_key: vec![9u8; 32] },
        PBFTMessage::SignedMessage {
            message: Box::new(PBFTMessage::Commit {
                view: 1,
                sequence_number: 1,
                digest: b"xy".to_vec(),
            }),
            signature: vec![7u8; 64],
            sender_id: 2,
        },
        PBFTMessage::ByzantineVote { suspected_id: 2, sender_id: 0 },
    ];
    for m in &samples {
        let bytes = encode_message(m);
        let back = decode_message(&bytes).expect("round trip");
        assert_eq!(encode_message(&back), bytes);
    }
    // a field survives in the clear
    let m = PBFTMessage::Prepare {
        view: 11,
        sequence_number: 22,
        digest: b"zz".to_vec(),
        sender_id: 33,
    };
    match decode_message(&encode_message(&m)).unwrap() {
        PBFTMessage::Prepare { view, sequence_number, digest, sender_id } => {
            assert_eq!(view, 11);
            assert_eq!(sequence_number, 22);
            assert_eq!(digest, b"zz".to_vec());
            assert_eq!(sender_id, 33);
        },
        _ => panic!("wrong variant"),
    }
}

#[test]
fn decode_rejects_noise() {
    assert!(decode_message(&vec![]).is_none());
    assert!(decode_message(&vec![0u8, 1, 2]).is_none());
    assert!(decode_message(&vec![99u8; 40]).is_none());
    let mut bytes = encode_message(&PBFTMessage::ByzantineVote { suspected_id: 1, sender_id: 2 });
    bytes.push(0);
    assert!(decode_message(&bytes).is_none());
}

#[test]
fn primary_rule() {
    let nodes = cluster(&[]);
    assert!(nodes[0].is_primary());
    assert!(!nodes[1].is_primary());
    assert!(!nodes[2].is_primary());
    assert!(!nodes[3].is_primary());
}

#[test]
fn broadcast_signature_verifies() {
    let nodes = cluster(&[]);
    let env = nodes[1].broadcast(PBFTMessage::Commit {
        view: 0,
        sequence_number: 1,
        digest: b"dd".to_vec(),
    });
    match &env {
        PBFTMessage::SignedMessage { message, signature, sender_id } => {
            assert_eq!(*sender_id, 1);
            let bytes = encode_message(message);
            let pk = derive_public_key(&secret(1));
            assert!(verify_bytes(&pk, &bytes, signature));
            // a different key does not accept it
            let other = derive_public_key(&secret(2));
            assert!(!verify_bytes(&other, &bytes, signature));
        },
        _ => panic!("broadcast must be signed"),
    }
}

#[test]
fn happy_path_all_commit() {
    let mut nodes = cluster(&[]);
    let outs = nodes[0].handle_request(PBFTMessage::Request { operation: b"op1".to_vec() });
    assert_eq!(outs.len(), 1);
    let start: Vec<(usize, PBFTMessage)> = outs.into_iter().map(|e| (0usize, e)).collect();
    let log = run_cluster(&mut nodes, start);
    let d = compute_digest(&b"op1".to_vec());
    for n in nodes.iter() {
        assert!(has_pair(&n.state.committed, 1, &d), "node {} missing commit", n.id);
        // everything committed is prepared
        for (s, dg) in n.state.committed.iter() {
            assert!(has_pair(&n.state.prepared, *s, dg));
        }
    }
    let preprepares = log.iter().filter(|(_, e)| inner_tag(e) == "preprepare").count();
    let prepares = log.iter().filter(|(_, e)| inner_tag(e) == "prepare").count();
    let commits = log.iter().filter(|(_, e)| inner_tag(e) == "commit").count();
    assert_eq!(preprepares, 1);
    assert_eq!(prepares, 3);
    assert_eq!(commits, 4);
}

#[test]
fn one_byzantine_prepare() {
    let mut nodes = cluster(&[2]);
    let outs = nodes[0].handle_request(PBFTMessage::Request { operation: b"op1".to_vec() });
    let start: Vec<(usize, PBFTMessage)> = outs.into_iter().map(|e| (0usize, e)).collect();
    let log = run_cluster(&mut nodes, start);
    let d = compute_digest(&b"op1".to_vec());
    for i in [0usize, 1, 3] {
        assert!(
            has_pair(&nodes[i].state.committed, 1, &d),
            "honest node {} missing commit",
            i
        );
    }
    // votes against the equivocator went out
    let votes = log.iter().filter(|(_, e)| inner_tag(e) == "byzvote").count();
    assert!(votes > 0);
    // an honest replica that saw the disagreement suspects replica 2
    assert!(nodes.iter().any(|n| n.suspected_nodes.contains(&2)));
    // no honest replica is suspected by anyone who is honest
    for i in [0usize, 1, 3] {
        for s in nodes[i].suspected_nodes.iter() {
            assert_eq!(*s, 2);
        }
    }
}

#[test]
fn primary_silent_view_change() {
    let mut nodes = cluster(&[]);
    let mut start: Vec<(usize, PBFTMessage)> = Vec::new();
    for i in [1usize, 2, 3] {
        for e in nodes[i].handle_timeout() {
            start.push((i, e));
        }
        assert_eq!(nodes[i].view, 1);
        assert!(nodes[i].view_change_in_progress);
    }
    let log = run_cluster(&mut nodes, start);
    let newviews = log.iter().filter(|(_, e)| inner_tag(e) == "newview").count();
    assert!(newviews >= 1);
    for i in [1usize, 2, 3] {
        assert_eq!(nodes[i].view, 1, "node {} did not adopt view 1", i);
        assert!(!nodes[i].view_change_in_progress);
    }
    assert_eq!(nodes[0].view, 1);
}

#[test]
fn duplicate_commit_is_idempotent() {
    let mut nodes = cluster(&[]);
    let outs = nodes[0].handle_request(PBFTMessage::Request { operation: b"op1".to_vec() });
    let start: Vec<(usize, PBFTMessage)> = outs.into_iter().map(|e| (0usize, e)).collect();
    let log = run_cluster(&mut nodes, start);
    // take one Commit envelope from the run and deliver it to node 1 again
    let commit_env = log
        .iter()
        .find(|(from, e)| *from != 1 && inner_tag(e) == "commit")
        .map(|(_, e)| msg_clone(e))
        .expect("a commit was broadcast");
    let committed_before = nodes[1].state.committed.len();
    let messages_before = nodes[1].state.messages.len();
    let out1 = nodes[1].handle_message(msg_clone(&commit_env));
    let out2 = nodes[1].handle_message(commit_env);
    assert!(out1.is_empty() && out2.is_empty());
    assert_eq!(nodes[1].state.messages.len(), messages_before);
    assert!(nodes[1].state.committed.len() <= committed_before + 1);
}

#[test]
fn blacklist_activation() {
    let mut nodes = cluster(&[]);
    // three replicas, node 0's own vote among them, accuse replica 2
    let v0 = nodes[0].broadcast(PBFTMessage::ByzantineVote { suspected_id: 2, sender_id: 0 });
    let v1 = nodes[1].broadcast(PBFTMessage::ByzantineVote { suspected_id: 2, sender_id: 1 });
    let v3 = nodes[3].broadcast(PBFTMessage::ByzantineVote { suspected_id: 2, sender_id: 3 });
    nodes[0].handle_message(v0);
    nodes[0].handle_message(v1);
    assert!(!nodes[0].blacklist.contains(&2));
    nodes[0].handle_message(v3);
    assert!(nodes[0].blacklist.contains(&2));
    // a later message from replica 2 is dropped before any accounting
    let messages_before = nodes[0].state.messages.len();
    let bad = nodes[2].broadcast(PBFTMessage::Prepare {
        view: 0,
        sequence_number: 0,
        digest: b"dd".to_vec(),
        sender_id: 2,
    });
    let out = nodes[0].handle_message(bad);
    assert!(out.is_empty());
    assert_eq!(nodes[0].state.messages.len(), messages_before);
}

#[test]
fn restart_resumes_commit_collection() {
    // durable state of a replica that had prepared (5, D)
    let d = compute_digest(&b"op5".to_vec());
    let mut stored = NodeState::empty();
    stored.prepared.push((5, d.clone()));
    let mut keys: Vec<(u64, Vec<u8>)> = Vec::new();
    for i in 0..4u64 {
        keys.push((i, derive_public_key(&secret(i))));
    }
    let mut node = Node::new(1, 0, secret(1), keys, stored, false);
    assert!(has_pair(&node.state.prepared, 5, &d));
    // resume the slot in flight and collect commits; no Prepare goes out
    node.sequence_number = 5;
    node.digest = d.clone();
    let peers = cluster(&[]);
    let mut broadcasts = 0;
    for i in [0usize, 2, 3] {
        let env = peers[i].broadcast(PBFTMessage::Commit {
            view: 0,
            sequence_number: 5,
            digest: d.clone(),
        });
        broadcasts += node.handle_message(env).len();
    }
    assert_eq!(broadcasts, 0);
    assert!(has_pair(&node.state.committed, 5, &d));
}

#[test]
fn view_change_increments_view() {
    let mut nodes = cluster(&[]);
    let before = nodes[2].view;
    let outs = nodes[2].handle_timeout();
    assert_eq!(nodes[2].view, before + 1);
    assert_eq!(outs.len(), 1);
    assert_eq!(inner_tag(&outs[0]), "viewchange");
    // a second timeout while the change is under way does nothing
    let outs2 = nodes[2].handle_timeout();
    assert!(outs2.is_empty());
    assert_eq!(nodes[2].view, before + 1);
}

#[test]
fn unknown_sender_is_dropped() {
    let mut nodes = cluster(&[]);
    // an envelope claiming an unregistered sender id
    let rogue = Node::new(3, 0, vec![99u8; 32], Vec::new(), NodeState::empty(), false);
    let env = match rogue.broadcast(PBFTMessage::Commit {
        view: 0,
        sequence_number: 1,
        digest: b"dd".to_vec(),
    }) {
        PBFTMessage::SignedMessage { message, signature, .. } => PBFTMessage::SignedMessage {
            message,
            signature,
            sender_id: 9,
        },
        other => other,
    };
    let messages_before = nodes[0].state.messages.len();
    let out = nodes[0].handle_message(env);
    assert!(out.is_empty());
    assert_eq!(nodes[0].state.messages.len(), messages_before);
}

#[test]
fn bad_signature_is_dropped() {
    let mut nodes = cluster(&[]);
    let env = match nodes[2].broadcast(PBFTMessage::Commit {
        view: 0,
        sequence_number: 1,
        digest: b"dd".to_vec(),
    }) {
        PBFTMessage::SignedMessage { message, signature: _, sender_id } => {
            PBFTMessage::SignedMessage { message, signature: vec![0u8; 64], sender_id }
        },
        other => other,
    };
    let messages_before = nodes[0].state.messages.len();
    let out = nodes[0].handle_message(env);
    assert!(out.is_empty());
    assert_eq!(nodes[0].state.messages.len(), messages_before);
}

#[test]
fn durable_state_is_sanitized_on_load() {
    let d = compute_digest(&b"op1".to_vec());
    let other = compute_digest(&b"op2".to_vec());
    // duplicates, a committed pair never prepared, a non-protocol message
    // blob, and duplicate accusers
    let prepared = vec![(1u64, d.clone()), (1u64, d.clone())];
    let committed = vec![(1u64, d.clone()), (2u64, other.clone())];
    let messages = vec![
        (
            3u64,
            encode_message(&PBFTMessage::Commit {
                view: 0,
                sequence_number: 1,
                digest: d.clone(),
            }),
        ),
        (3u64, encode_message(&PBFTMessage::Request { operation: b"x".to_vec() })),
        (4u64, vec![0u8, 1, 2]),
    ];
    let vcs = vec![encode_message(&PBFTMessage::ViewChange {
        view: 1,
        last_sequence_number: 0,
        node_id: 2,
    })];
    let votes = vec![(2u64, vec![0u64, 0u64, 1u64])];
    let st = pbft_core::store::from_parts(&prepared, &committed, &messages, &vcs, &votes);
    assert_eq!(st.prepared.len(), 1);
    assert_eq!(st.committed.len(), 1);
    assert!(has_pair(&st.committed, 1, &d));
    assert!(!has_pair(&st.committed, 2, &other));
    assert_eq!(st.messages.len(), 1);
    assert_eq!(st.view_change_messages.len(), 1);
    assert_eq!(st.byzantine_votes.len(), 1);
    assert_eq!(st.byzantine_votes[0].1, vec![0u64, 1u64]);
}

#[test]
fn lost_new_view_cascades() {
    let mut nodes = cluster(&[]);
    let outs = nodes[2].handle_timeout();
    assert_eq!(outs.len(), 1);
    assert_eq!(nodes[2].view, 1);
    assert!(nodes[2].new_view_timer_armed);
    // the NewView never arrives; the armed timer fires
    let outs2 = nodes[2].handle_new_view_timeout();
    assert_eq!(outs2.len(), 1);
    assert_eq!(inner_tag(&outs2[0]), "viewchange");
    assert_eq!(nodes[2].view, 2);
    assert!(nodes[2].new_view_timer_armed);
}

#[test]
fn conflicting_preprepare_is_ignored() {
    let mut nodes = cluster(&[]);
    let d1 = compute_digest(&b"op1".to_vec());
    let d2 = compute_digest(&b"op2".to_vec());
    let env1 = nodes[0].broadcast(PBFTMessage::PrePrepare {
        view: 0,
        sequence_number: 1,
        digest: d1.clone(),
    });
    let outs1 = nodes[1].handle_message(env1);
    assert_eq!(outs1.len(), 1);
    // an equivocating primary proposes a different digest for the same slot
    let env2 = nodes[0].broadcast(PBFTMessage::PrePrepare {
        view: 0,
        sequence_number: 1,
        digest: d2.clone(),
    });
    let outs2 = nodes[1].handle_message(env2);
    assert!(outs2.is_empty(), "no second Prepare for the same (view, seq)");
    // the in-flight digest is still the first proposal's
    assert_eq!(nodes[1].digest, d1);
}

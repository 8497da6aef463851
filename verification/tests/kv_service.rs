use meta_kv::key::DatabaseNameKey;
use meta_kv::key::Key;
use meta_kv::kv::MatchSeq;
use meta_kv::kv::Operation;
use meta_kv::kv::SeqCondition;
use meta_kv::kv::SeqV;
use meta_kv::kv::TxnCondition;
use meta_kv::kv::TxnOp;
use meta_kv::kv::TxnOpResponse;
use meta_kv::kv::TxnRequest;
use meta_kv::kv::UpsertKVReq;
use meta_kv::meta_node::MetaNode;

fn put(key: &str, value: &[u8], seq: MatchSeq) -> UpsertKVReq {
    UpsertKVReq {
        key: key.to_string(),
        seq,
        value: Operation::Update(value.to_vec()),
        value_meta: None,
    }
}

#[test]
fn cas_on_absent_key() {
    // An upsert conditioned on "must be present" is a no-op replying
    // (None, None) and leaves the store unchanged.
    let mut node = MetaNode::new();
    let reply = node.upsert_kv(put("k", b"v", MatchSeq::GE(1))).unwrap();
    assert_eq!(reply.prev, None);
    assert_eq!(reply.result, None);
    assert_eq!(node.get_kv("k").unwrap(), None);

    // An upsert conditioned on "must be absent" succeeds with seq 1.
    let reply = node.upsert_kv(put("k", b"v", MatchSeq::Exact(0))).unwrap();
    assert_eq!(reply.prev, None);
    assert_eq!(
        reply.result,
        Some(SeqV { seq: 1, meta: None, data: b"v".to_vec() })
    );
}

#[test]
fn upsert_seq_gating_scenario() {
    let mut node = MetaNode::new();

    let r1 = node.upsert_kv(put("k1", b"v1", MatchSeq::Exact(0))).unwrap();
    assert_eq!(r1.prev, None);
    assert_eq!(r1.result, Some(SeqV { seq: 1, meta: None, data: b"v1".to_vec() }));
    assert_eq!(
        node.get_kv("k1").unwrap(),
        Some(SeqV { seq: 1, meta: None, data: b"v1".to_vec() })
    );

    let r2 = node.upsert_kv(put("k1", b"v2", MatchSeq::Exact(1))).unwrap();
    assert_eq!(r2.prev, Some(SeqV { seq: 1, meta: None, data: b"v1".to_vec() }));
    assert_eq!(r2.result, Some(SeqV { seq: 2, meta: None, data: b"v2".to_vec() }));

    // A stale writer conditioned on the old seq is a no-op returning the
    // current value unchanged.
    let r3 = node.upsert_kv(put("k1", b"v3", MatchSeq::Exact(1))).unwrap();
    let cur = Some(SeqV { seq: 2, meta: None, data: b"v2".to_vec() });
    assert_eq!(r3.prev, cur);
    assert_eq!(r3.result, cur);
    assert_eq!(node.get_kv("k1").unwrap(), cur);
}

#[test]
fn upsert_delete_removes_the_key() {
    let mut node = MetaNode::new();
    node.upsert_kv(put("k", b"v", MatchSeq::Any)).unwrap();
    let reply = node
        .upsert_kv(UpsertKVReq {
            key: "k".to_string(),
            seq: MatchSeq::Any,
            value: Operation::Delete,
            value_meta: None,
        })
        .unwrap();
    assert_eq!(reply.prev, Some(SeqV { seq: 1, meta: None, data: b"v".to_vec() }));
    assert_eq!(reply.result, None);
    assert_eq!(node.get_kv("k").unwrap(), None);
}

#[test]
fn mget_keeps_order_and_length() {
    let mut node = MetaNode::new();
    node.upsert_kv(put("a", b"1", MatchSeq::Any)).unwrap();
    node.upsert_kv(put("c", b"3", MatchSeq::Any)).unwrap();
    let keys = vec!["a".to_string(), "b".to_string(), "c".to_string()];
    let got = node.mget_kv(&keys).unwrap();
    assert_eq!(got.len(), 3);
    assert_eq!(got[0], Some(SeqV { seq: 1, meta: None, data: b"1".to_vec() }));
    assert_eq!(got[1], None);
    assert_eq!(got[2], Some(SeqV { seq: 1, meta: None, data: b"3".to_vec() }));
}

#[test]
fn prefix_list_returns_exactly_the_matching_keys() {
    let mut node = MetaNode::new();
    node.upsert_kv(put("t/1", b"a", MatchSeq::Any)).unwrap();
    node.upsert_kv(put("t/2", b"b", MatchSeq::Any)).unwrap();
    node.upsert_kv(put("u/1", b"c", MatchSeq::Any)).unwrap();
    let mut got = node.prefix_list_kv("t/").unwrap();
    got.sort_by(|x, y| x.0.cmp(&y.0));
    assert_eq!(got.len(), 2);
    assert_eq!(got[0].0, "t/1".to_string());
    assert_eq!(got[0].1.data, b"a".to_vec());
    assert_eq!(got[1].0, "t/2".to_string());
    assert_eq!(got[1].1.data, b"b".to_vec());
    assert_eq!(node.prefix_list_kv("zzz").unwrap(), vec![]);
}

#[test]
fn structured_keys_flow_through_the_service() {
    let mut node = MetaNode::new();
    for name in ["db one", "db_two"] {
        let key = DatabaseNameKey { db_name: name.to_string() }.to_string_key();
        node.upsert_kv(put(&key, name.as_bytes(), MatchSeq::Exact(0))).unwrap();
    }
    let mut listed = node.prefix_list_kv("__fd_db/").unwrap();
    listed.sort_by(|x, y| x.0.cmp(&y.0));
    assert_eq!(listed.len(), 2);
    let decoded = DatabaseNameKey::from_str_key(&listed[0].0).unwrap();
    assert_eq!(decoded.db_name, "db one".to_string());
    assert_eq!(listed[0].1.data, b"db one".to_vec());
}

#[test]
fn transaction_failed_condition_runs_only_the_else_branch() {
    let mut node = MetaNode::new();
    let txn = TxnRequest {
        condition: vec![TxnCondition {
            key: "gate".to_string(),
            expected: SeqCondition::Present,
        }],
        if_then: vec![
            TxnOp::Put { key: "x".to_string(), value: b"x1".to_vec(), value_meta: None },
            TxnOp::Put { key: "y".to_string(), value: b"y1".to_vec(), value_meta: None },
        ],
        else_then: vec![TxnOp::Put {
            key: "z".to_string(),
            value: b"z1".to_vec(),
            value_meta: None,
        }],
    };
    let reply = node.transaction(txn).unwrap();
    assert!(!reply.success);
    assert_eq!(reply.responses.len(), 1);
    // None of the "then" branch's operations are visible.
    assert_eq!(node.get_kv("x").unwrap(), None);
    assert_eq!(node.get_kv("y").unwrap(), None);
    assert_eq!(
        node.get_kv("z").unwrap(),
        Some(SeqV { seq: 1, meta: None, data: b"z1".to_vec() })
    );
}

#[test]
fn transaction_held_condition_applies_the_whole_then_branch() {
    let mut node = MetaNode::new();
    node.upsert_kv(put("gate", b"open", MatchSeq::Any)).unwrap();
    let txn = TxnRequest {
        condition: vec![
            TxnCondition { key: "gate".to_string(), expected: SeqCondition::Present },
            TxnCondition { key: "gate".to_string(), expected: SeqCondition::SeqEq(1) },
        ],
        if_then: vec![
            TxnOp::Put { key: "x".to_string(), value: b"x1".to_vec(), value_meta: None },
            TxnOp::Put { key: "y".to_string(), value: b"y1".to_vec(), value_meta: None },
            TxnOp::Get { key: "x".to_string() },
        ],
        else_then: vec![],
    };
    let reply = node.transaction(txn).unwrap();
    assert!(reply.success);
    assert_eq!(reply.responses.len(), 3);
    assert_eq!(
        reply.responses[0],
        TxnOpResponse::Put { key: "x".to_string(), prev: None }
    );
    // Both puts of the committed transaction are visible together.
    let x = SeqV { seq: 1, meta: None, data: b"x1".to_vec() };
    let y = SeqV { seq: 1, meta: None, data: b"y1".to_vec() };
    assert_eq!(node.get_kv("x").unwrap(), Some(x.clone()));
    assert_eq!(node.get_kv("y").unwrap(), Some(y));
    // The get inside the branch saw the put that preceded it.
    assert_eq!(
        reply.responses[2],
        TxnOpResponse::Get { key: "x".to_string(), value: Some(x) }
    );
}

#[test]
fn transaction_delete_reports_what_it_removed() {
    let mut node = MetaNode::new();
    node.upsert_kv(put("d", b"v", MatchSeq::Any)).unwrap();
    let txn = TxnRequest {
        condition: vec![],
        if_then: vec![
            TxnOp::Delete { key: "d".to_string() },
            TxnOp::Delete { key: "missing".to_string() },
        ],
        else_then: vec![],
    };
    let reply = node.transaction(txn).unwrap();
    assert!(reply.success);
    assert_eq!(
        reply.responses[0],
        TxnOpResponse::Delete {
            key: "d".to_string(),
            deleted: true,
            prev: Some(SeqV { seq: 1, meta: None, data: b"v".to_vec() }),
        }
    );
    assert_eq!(
        reply.responses[1],
        TxnOpResponse::Delete { key: "missing".to_string(), deleted: false, prev: None }
    );
    assert_eq!(node.get_kv("d").unwrap(), None);
}

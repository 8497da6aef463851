//! The key-value state machine: the map from flat string key to stored
//! value that log entries are applied to.
//!
//! The map is mutated exclusively by applying commands, conceptually in
//! commit order; every successful write stamps the key's next sequence
//! number, and a conditional write whose condition does not hold is a
//! successful no-op, not an error.

use vstd::prelude::*;
use vstd::pervasive::VecAdditionalExecFns;
use vstd::string::StrSliceExecFns;
use vstd::string::StringSliceAdditionalSpecFns;

use crate::key::str_eq;
use crate::kv::KVMeta;
use crate::kv::MatchSeq;
use crate::kv::Operation;
use crate::kv::OperationModel;
use crate::kv::SeqV;
use crate::kv::SeqVModel;
use crate::kv::SeqCondition;
use crate::kv::TxnCondition;
use crate::kv::TxnConditionModel;
use crate::kv::TxnOp;
use crate::kv::TxnOpModel;
use crate::kv::TxnOpResponse;
use crate::kv::TxnOpResponseModel;
use crate::kv::TxnReply;
use crate::kv::TxnRequest;
use crate::kv::TxnRequestModel;
use crate::kv::UpsertKV;
use crate::kv::UpsertKVModel;
use crate::kv::UpsertKVReply;
use crate::kv::UpsertKVReplyModel;
use crate::kv::copy_bytes;
use crate::kv::duplicate_opt;
use crate::kv::seq_matches;
use crate::kv::seq_of;
use crate::kv::view_opt;

verus! {

/// The stored entries have pairwise distinct keys.
pub open spec fn wf_entries(entries: Seq<(String, SeqV)>) -> bool {
    forall|i: int, j: int| 0 <= i < j < entries.len() ==> entries[i].0@ != entries[j].0@
}

/// The value stored under a key in an entry list, if any.
pub open spec fn seq_lookup(entries: Seq<(String, SeqV)>, k: Seq<char>) -> Option<SeqVModel>
    decreases entries.len(),
{
    if entries.len() == 0 {
        None
    } else if entries.last().0@ == k {
        Some(entries.last().1@)
    } else {
        seq_lookup(entries.drop_last(), k)
    }
}

/// The value stored under a key in the map, if any.
pub open spec fn lookup(m: Map<Seq<char>, SeqVModel>, k: Seq<char>) -> Option<SeqVModel> {
    if m.contains_key(k) {
        Some(m[k])
    } else {
        None
    }
}

proof fn lemma_lookup_absent(entries: Seq<(String, SeqV)>, k: Seq<char>)
    requires
        forall|j: int| 0 <= j < entries.len() ==> entries[j].0@ != k,
    ensures
        seq_lookup(entries, k) is None,
    decreases entries.len(),
{
    if entries.len() > 0 {
        lemma_lookup_absent(entries.drop_last(), k);
    }
}

proof fn lemma_lookup_at(entries: Seq<(String, SeqV)>, i: int)
    requires
        wf_entries(entries),
        0 <= i < entries.len(),
    ensures
        seq_lookup(entries, entries[i].0@) == Some(entries[i].1@),
    decreases entries.len(),
{
    if i == entries.len() - 1 {
    } else {
        assert(entries.last().0@ != entries[i].0@);
        lemma_lookup_at(entries.drop_last(), i);
    }
}

proof fn lemma_lookup_some_index(entries: Seq<(String, SeqV)>, k: Seq<char>)
    requires
        seq_lookup(entries, k) is Some,
    ensures
        exists|j: int| 0 <= j < entries.len() && (#[trigger] entries[j]).0@ == k,
    decreases entries.len(),
{
    if entries.last().0@ == k {
        assert(entries[entries.len() - 1].0@ == k);
    } else {
        lemma_lookup_some_index(entries.drop_last(), k);
        let j = choose|j: int|
            0 <= j < entries.drop_last().len() && (#[trigger] entries.drop_last()[j]).0@ == k;
        assert(entries[j].0@ == k);
    }
}

proof fn lemma_lookup_update(entries: Seq<(String, SeqV)>, i: int, e: (String, SeqV))
    requires
        wf_entries(entries),
        0 <= i < entries.len(),
        entries[i].0@ == e.0@,
    ensures
        wf_entries(entries.update(i, e)),
        forall|k: Seq<char>|
            #[trigger] seq_lookup(entries.update(i, e), k) == (if k == e.0@ {
                Some(e.1@)
            } else {
                seq_lookup(entries, k)
            }),
    decreases entries.len(),
{
    let upd = entries.update(i, e);
    assert(wf_entries(upd));
    if i == entries.len() - 1 {
        assert(upd.drop_last() =~= entries.drop_last());
        assert forall|k: Seq<char>|
            #[trigger] seq_lookup(upd, k) == (if k == e.0@ {
                Some(e.1@)
            } else {
                seq_lookup(entries, k)
            }) by {
            assert(upd.last() == e);
        }
    } else {
        assert(entries.drop_last()[i] == entries[i]);
        lemma_lookup_update(entries.drop_last(), i, e);
        let updd = entries.drop_last().update(i, e);
        assert(upd.drop_last() =~= updd);
        assert forall|k: Seq<char>|
            #[trigger] seq_lookup(upd, k) == (if k == e.0@ {
                Some(e.1@)
            } else {
                seq_lookup(entries, k)
            }) by {
            assert(upd.last() == entries.last());
            assert(entries.last() == entries[entries.len() - 1]);
            assert(entries.last().0@ != e.0@);
            if k == entries.last().0@ {
                assert(seq_lookup(upd, k) == Some(entries.last().1@));
                assert(seq_lookup(entries, k) == Some(entries.last().1@));
            } else {
                assert(seq_lookup(upd, k) == seq_lookup(updd, k));
                assert(seq_lookup(entries, k) == seq_lookup(entries.drop_last(), k));
                assert(seq_lookup(updd, k) == (if k == e.0@ {
                    Some(e.1@)
                } else {
                    seq_lookup(entries.drop_last(), k)
                }));
            }
        }
    }
}

proof fn lemma_lookup_push(entries: Seq<(String, SeqV)>, e: (String, SeqV))
    requires
        wf_entries(entries),
        forall|j: int| 0 <= j < entries.len() ==> entries[j].0@ != e.0@,
    ensures
        wf_entries(entries.push(e)),
        forall|k: Seq<char>|
            #[trigger] seq_lookup(entries.push(e), k) == (if k == e.0@ {
                Some(e.1@)
            } else {
                seq_lookup(entries, k)
            }),
{
    let p = entries.push(e);
    assert(forall|j: int| 0 <= j < entries.len() ==> p[j] == entries[j]);
    assert(wf_entries(p));
    assert(p.drop_last() =~= entries);
}

proof fn lemma_lookup_remove(entries: Seq<(String, SeqV)>, i: int)
    requires
        wf_entries(entries),
        0 <= i < entries.len(),
    ensures
        wf_entries(entries.remove(i)),
        forall|k: Seq<char>|
            #[trigger] seq_lookup(entries.remove(i), k) == (if k == entries[i].0@ {
                None
            } else {
                seq_lookup(entries, k)
            }),
    decreases entries.len(),
{
    let rem = entries.remove(i);
    assert(forall|j: int| 0 <= j < i ==> rem[j] == entries[j]);
    assert(forall|j: int| i <= j < rem.len() ==> rem[j] == entries[j + 1]);
    assert(wf_entries(rem));
    if i == entries.len() - 1 {
        assert(rem =~= entries.drop_last());
        assert forall|k: Seq<char>|
            #[trigger] seq_lookup(rem, k) == (if k == entries[i].0@ {
                None
            } else {
                seq_lookup(entries, k)
            }) by {
            if k == entries[i].0@ {
                assert(forall|j: int| 0 <= j < rem.len() ==> rem[j].0@ != k);
                lemma_lookup_absent(rem, k);
            }
        }
    } else {
        assert(entries.drop_last()[i] == entries[i]);
        lemma_lookup_remove(entries.drop_last(), i);
        let remd = entries.drop_last().remove(i);
        assert(rem.drop_last() =~= remd);
        assert forall|k: Seq<char>|
            #[trigger] seq_lookup(rem, k) == (if k == entries[i].0@ {
                None
            } else {
                seq_lookup(entries, k)
            }) by {
            assert(rem.last() == entries.last());
            assert(entries.last() == entries[entries.len() - 1]);
            assert(entries.last().0@ != entries[i].0@);
            if k == entries.last().0@ {
                assert(seq_lookup(rem, k) == Some(entries.last().1@));
                assert(seq_lookup(entries, k) == Some(entries.last().1@));
            } else {
                assert(seq_lookup(rem, k) == seq_lookup(remd, k));
                assert(seq_lookup(entries, k) == seq_lookup(entries.drop_last(), k));
                assert(seq_lookup(remd, k) == (if k == entries[i].0@ {
                    None
                } else {
                    seq_lookup(entries.drop_last(), k)
                }));
            }
        }
    }
}

/// Whether one byte sequence starts with another.
pub open spec fn starts_with_bytes(a: Seq<u8>, p: Seq<u8>) -> bool {
    a.len() >= p.len() && a.take(p.len() as int) == p
}

/// Whether the string form of one text starts with the string form of
/// another.
fn str_has_prefix(a: &str, p: &str) -> (r: bool)
    ensures
        r == starts_with_bytes(
            vstd::utf8::encode_utf8(a@),
            vstd::utf8::encode_utf8(p@),
        ),
{
    let av = a.as_bytes_vec();
    let pv = p.as_bytes_vec();
    let m = pv.len();
    if av.len() < m {
        return false;
    }
    let mut i: usize = 0;
    while i < m
        invariant
            i <= m,
            m == pv@.len(),
            m <= av@.len(),
            av@ == a.spec_bytes(),
            pv@ == p.spec_bytes(),
            forall|k: int| 0 <= k < i ==> av@[k] == pv@[k],
        decreases m - i,
    {
        if av[i] != pv[i] {
            proof {
                assert(av@.take(m as int)[i as int] != pv@[i as int]);
            }
            return false;
        }
        i += 1;
    }
    proof {
        assert(av@.take(m as int) =~= pv@);
    }
    true
}

/// The sequence number stamped after a write over the given current one:
/// the next number, saturating at the largest representable stamp.
pub open spec fn next_seq(s: u64) -> u64 {
    if s == u64::MAX {
        u64::MAX
    } else {
        (s + 1) as u64
    }
}

/// What an upsert leaves in the map: unchanged when the condition does
/// not hold; otherwise the new value under the key's next sequence
/// number, or the key removed.
pub open spec fn spec_upsert_state(m: Map<Seq<char>, SeqVModel>, u: UpsertKVModel) -> Map<
    Seq<char>,
    SeqVModel,
> {
    let prev = lookup(m, u.key);
    if !seq_matches(u.seq, seq_of(prev)) {
        m
    } else {
        match u.value {
            OperationModel::Update(data) => m.insert(
                u.key,
                SeqVModel { seq: next_seq(seq_of(prev)), meta: u.value_meta, data },
            ),
            OperationModel::Delete => m.remove(u.key),
        }
    }
}

/// What an upsert replies: the previous value, and the value after the
/// write; when the condition does not hold both are the previous value.
pub open spec fn spec_upsert_reply(m: Map<Seq<char>, SeqVModel>, u: UpsertKVModel)
    -> UpsertKVReplyModel {
    let prev = lookup(m, u.key);
    if !seq_matches(u.seq, seq_of(prev)) {
        UpsertKVReplyModel { prev, result: prev }
    } else {
        match u.value {
            OperationModel::Update(data) => UpsertKVReplyModel {
                prev,
                result: Some(
                    SeqVModel { seq: next_seq(seq_of(prev)), meta: u.value_meta, data },
                ),
            },
            OperationModel::Delete => UpsertKVReplyModel { prev, result: None },
        }
    }
}

/// Whether one transaction condition holds of the map.
pub open spec fn spec_cond_holds(m: Map<Seq<char>, SeqVModel>, c: TxnConditionModel) -> bool {
    match c.expected {
        SeqCondition::Absent => lookup(m, c.key) is None,
        SeqCondition::Present => lookup(m, c.key) is Some,
        SeqCondition::SeqEq(n) => seq_of(lookup(m, c.key)) == n,
    }
}

/// Whether all conditions of a transaction hold of the map.
pub open spec fn spec_conds_hold(m: Map<Seq<char>, SeqVModel>, conds: Seq<TxnConditionModel>)
    -> bool {
    forall|i: int| 0 <= i < conds.len() ==> spec_cond_holds(m, #[trigger] conds[i])
}

/// What one transaction operation leaves in the map.
pub open spec fn spec_apply_op_state(m: Map<Seq<char>, SeqVModel>, op: TxnOpModel) -> Map<
    Seq<char>,
    SeqVModel,
> {
    match op {
        TxnOpModel::Put { key, value, value_meta } => m.insert(
            key,
            SeqVModel { seq: next_seq(seq_of(lookup(m, key))), meta: value_meta, data: value },
        ),
        TxnOpModel::Delete { key } => m.remove(key),
        TxnOpModel::Get { key } => m,
    }
}

/// What one transaction operation replies, against the map it ran on.
pub open spec fn spec_op_response(m: Map<Seq<char>, SeqVModel>, op: TxnOpModel)
    -> TxnOpResponseModel {
    match op {
        TxnOpModel::Put { key, value, value_meta } => TxnOpResponseModel::Put {
            key,
            prev: lookup(m, key),
        },
        TxnOpModel::Delete { key } => TxnOpResponseModel::Delete {
            key,
            deleted: lookup(m, key) is Some,
            prev: lookup(m, key),
        },
        TxnOpModel::Get { key } => TxnOpResponseModel::Get { key, value: lookup(m, key) },
    }
}

/// The map after the first `i` operations of a branch.
pub open spec fn spec_state_at(
    m: Map<Seq<char>, SeqVModel>,
    ops: Seq<TxnOpModel>,
    i: int,
) -> Map<Seq<char>, SeqVModel>
    decreases i,
{
    if i <= 0 {
        m
    } else {
        spec_apply_op_state(spec_state_at(m, ops, i - 1), ops[i - 1])
    }
}

/// The branch a transaction executes: "then" when all conditions hold,
/// "else" otherwise.
pub open spec fn chosen_branch(t: TxnRequestModel, success: bool) -> Seq<TxnOpModel> {
    if success {
        t.if_then
    } else {
        t.else_then
    }
}

/// The map a whole transaction leaves behind.
pub open spec fn spec_txn_state(m: Map<Seq<char>, SeqVModel>, t: TxnRequestModel) -> Map<
    Seq<char>,
    SeqVModel,
> {
    let ops = chosen_branch(t, spec_conds_hold(m, t.condition));
    spec_state_at(m, ops, ops.len() as int)
}

/// Whether one operation writes the given key.
pub open spec fn op_writes(op: TxnOpModel, k: Seq<char>) -> bool {
    match op {
        TxnOpModel::Put { key, .. } => key == k,
        TxnOpModel::Delete { key } => key == k,
        TxnOpModel::Get { key } => false,
    }
}

/// Whether any of the operations writes the given key.
pub open spec fn ops_touch(ops: Seq<TxnOpModel>, k: Seq<char>) -> bool {
    exists|j: int| 0 <= j < ops.len() && op_writes(#[trigger] ops[j], k)
}

/// A key that none of the operations between two points writes keeps
/// its value across them.
pub proof fn lemma_ops_untouched_range(
    m: Map<Seq<char>, SeqVModel>,
    ops: Seq<TxnOpModel>,
    k: Seq<char>,
    i1: int,
    i2: int,
)
    requires
        0 <= i1 <= i2 <= ops.len(),
        forall|j: int| i1 <= j < i2 ==> !op_writes(#[trigger] ops[j], k),
    ensures
        lookup(spec_state_at(m, ops, i2), k) == lookup(spec_state_at(m, ops, i1), k),
    decreases i2 - i1,
{
    if i2 > i1 {
        lemma_ops_untouched_range(m, ops, k, i1, i2 - 1);
        match ops[i2 - 1] {
            TxnOpModel::Put { key, value, value_meta } => {
                assert(key != k);
            },
            TxnOpModel::Delete { key } => {
                assert(key != k);
            },
            TxnOpModel::Get { key } => {},
        }
    }
}

/// A key that no operation of the branch writes keeps its value.
pub proof fn lemma_ops_untouched(m: Map<Seq<char>, SeqVModel>, ops: Seq<TxnOpModel>, k: Seq<
    char,
>, i: int)
    requires
        0 <= i <= ops.len(),
        !ops_touch(ops, k),
    ensures
        lookup(spec_state_at(m, ops, i), k) == lookup(m, k),
{
    assert(forall|j: int| 0 <= j < i ==> !op_writes(#[trigger] ops[j], k));
    lemma_ops_untouched_range(m, ops, k, 0, i);
}

/// A put of a committed branch is visible afterwards: unless a later
/// operation of the same branch writes the key again, the key holds the
/// put's payload and metadata once the whole branch has applied.
pub proof fn lemma_put_visible(m: Map<Seq<char>, SeqVModel>, ops: Seq<TxnOpModel>, j: int)
    requires
        0 <= j < ops.len(),
        ops[j] matches TxnOpModel::Put { key, .. },
        forall|l: int|
            j < l < ops.len() ==> !op_writes(
                #[trigger] ops[l],
                ops[j]->Put_key,
            ),
    ensures
        match ops[j] {
            TxnOpModel::Put { key, value, value_meta } => {
                let stored = lookup(spec_state_at(m, ops, ops.len() as int), key);
                stored matches Some(v) && v.data == value && v.meta == value_meta
            },
            _ => true,
        },
{
    match ops[j] {
        TxnOpModel::Put { key, value, value_meta } => {
            assert(spec_state_at(m, ops, j + 1) == spec_apply_op_state(
                spec_state_at(m, ops, j),
                ops[j],
            ));
            assert(lookup(spec_state_at(m, ops, j + 1), key) matches Some(v) && v.data
                == value && v.meta == value_meta);
            lemma_ops_untouched_range(m, ops, key, j + 1, ops.len() as int);
        },
        _ => {},
    }
}

/// Transaction atomicity: exactly one branch runs, chosen by whether all
/// conditions hold of the single pre-state snapshot; and when the
/// conditions fail, a key untouched by the else branch - in particular
/// one only the then branch writes - still holds its old value.
pub proof fn lemma_txn_atomicity(m: Map<Seq<char>, SeqVModel>, t: TxnRequestModel, k: Seq<char>)
    ensures
        spec_conds_hold(m, t.condition) ==> spec_txn_state(m, t) == spec_state_at(
            m,
            t.if_then,
            t.if_then.len() as int,
        ),
        !spec_conds_hold(m, t.condition) ==> spec_txn_state(m, t) == spec_state_at(
            m,
            t.else_then,
            t.else_then.len() as int,
        ),
        !spec_conds_hold(m, t.condition) && !ops_touch(t.else_then, k) ==> lookup(
            spec_txn_state(m, t),
            k,
        ) == lookup(m, k),
{
    if !spec_conds_hold(m, t.condition) && !ops_touch(t.else_then, k) {
        lemma_ops_untouched(m, t.else_then, k, t.else_then.len() as int);
    }
}

/// Conditional-write semantics on an absent key: a write gated on "must
/// be present" is a no-op replying `(None, None)`; a write gated on
/// "must be absent" stores the value under sequence number 1.
pub proof fn lemma_cas_semantics(m: Map<Seq<char>, SeqVModel>, u: UpsertKVModel)
    requires
        lookup(m, u.key) is None,
    ensures
        u.seq == MatchSeq::GE(1) ==> spec_upsert_state(m, u) == m && spec_upsert_reply(m, u)
            == (UpsertKVReplyModel { prev: None, result: None }),
        u.seq == MatchSeq::Exact(0) ==> match u.value {
            OperationModel::Update(data) => {
                let stored = SeqVModel { seq: 1, meta: u.value_meta, data };
                spec_upsert_state(m, u) == m.insert(u.key, stored) && spec_upsert_reply(m, u)
                    == (UpsertKVReplyModel { prev: None, result: Some(stored) })
            },
            OperationModel::Delete => true,
        },
{
}

/// The map from flat string key to stored value, held as a list of
/// entries with pairwise distinct keys.
pub struct StateMachine {
    kv: Vec<(String, SeqV)>,
}

impl View for StateMachine {
    type V = Map<Seq<char>, SeqVModel>;

    closed spec fn view(&self) -> Map<Seq<char>, SeqVModel> {
        Map::new(
            |k: Seq<char>| seq_lookup(self.kv@, k) is Some,
            |k: Seq<char>| seq_lookup(self.kv@, k).unwrap(),
        )
    }
}

impl StateMachine {
    /// The stored entries hold pairwise distinct keys.
    pub closed spec fn wf(&self) -> bool {
        wf_entries(self.kv@)
    }

    proof fn lemma_view_lookup(&self)
        ensures
            forall|k: Seq<char>| #[trigger] lookup(self@, k) == seq_lookup(self.kv@, k),
    {
        assert forall|k: Seq<char>| #[trigger]
            lookup(self@, k) == seq_lookup(self.kv@, k) by {
            if seq_lookup(self.kv@, k) is Some {
                assert(self@.contains_key(k));
            } else {
                assert(!self@.contains_key(k));
            }
        }
    }

    /// An empty store.
    pub fn new() -> (r: StateMachine)
        ensures
            r.wf(),
            r@ == Map::<Seq<char>, SeqVModel>::empty(),
    {
        let r = StateMachine { kv: Vec::new() };
        proof {
            assert(r@ =~= Map::<Seq<char>, SeqVModel>::empty());
        }
        r
    }

    /// The index of the entry holding the key, if any.
    #[verifier::loop_isolation(false)]
    fn find_key(&self, key: &str) -> (r: Option<usize>)
        ensures
            match r {
                Some(i) => i < self.kv@.len() && self.kv@[i as int].0@ == key@,
                None => forall|j: int| 0 <= j < self.kv@.len() ==> self.kv@[j].0@ != key@,
            },
    {
        let n = self.kv.len();
        let mut i: usize = 0;
        while i < n
            invariant
                i <= n,
                forall|j: int| 0 <= j < i ==> self.kv@[j].0@ != key@,
            decreases n - i,
        {
            if str_eq(self.kv[i].0.as_str(), key) {
                return Some(i);
            }
            i += 1;
        }
        None
    }

    /// Read one key from the store.
    pub fn get_kv(&self, key: &str) -> (r: Option<SeqV>)
        requires
            self.wf(),
        ensures
            view_opt(r) == lookup(self@, key@),
    {
        proof {
            self.lemma_view_lookup();
        }
        match self.find_key(key) {
            Some(i) => {
                proof {
                    lemma_lookup_at(self.kv@, i as int);
                }
                Some(self.kv[i].1.duplicate())
            },
            None => {
                proof {
                    lemma_lookup_absent(self.kv@, key@);
                }
                None
            },
        }
    }

    /// Read an ordered list of keys; the reply has the same order and
    /// length as the request.
    #[verifier::loop_isolation(false)]
    pub fn mget_kv(&self, keys: &Vec<String>) -> (r: Vec<Option<SeqV>>)
        requires
            self.wf(),
        ensures
            r@.len() == keys@.len(),
            forall|i: int|
                0 <= i < keys@.len() ==> view_opt(#[trigger] r@[i]) == lookup(
                    self@,
                    keys@[i]@,
                ),
    {
        let n = keys.len();
        let mut r: Vec<Option<SeqV>> = Vec::new();
        let mut i: usize = 0;
        while i < n
            invariant
                i <= n,
                r@.len() == i,
                forall|j: int|
                    0 <= j < i ==> view_opt(#[trigger] r@[j]) == lookup(self@, keys@[j]@),
            decreases n - i,
        {
            r.push(self.get_kv(keys[i].as_str()));
            i += 1;
        }
        r
    }

    /// Apply a conditional write, stamping the key's next sequence
    /// number on success; a condition mismatch leaves the store
    /// unchanged and replies with the current value.
    pub fn upsert_kv(&mut self, req: UpsertKV) -> (r: UpsertKVReply)
        requires
            old(self).wf(),
        ensures
            final(self).wf(),
            final(self)@ == spec_upsert_state(old(self)@, req@),
            r@ == spec_upsert_reply(old(self)@, req@),
    {
        proof {
            self.lemma_view_lookup();
        }
        let idx = self.find_key(req.key.as_str());
        let prev: Option<SeqV> = match idx {
            Some(i) => {
                proof {
                    lemma_lookup_at(self.kv@, i as int);
                }
                Some(self.kv[i].1.duplicate())
            },
            None => {
                proof {
                    lemma_lookup_absent(self.kv@, req.key@);
                }
                None
            },
        };
        let prev_seq: u64 = match &prev {
            Some(v) => v.seq,
            None => 0,
        };
        let cond = match req.seq {
            MatchSeq::Any => true,
            MatchSeq::Exact(n) => prev_seq == n,
            MatchSeq::GE(n) => prev_seq >= n,
        };
        if !cond {
            let result = duplicate_opt(&prev);
            return UpsertKVReply { prev, result };
        }
        match req.value {
            Operation::Update(data) => {
                let new_seq: u64 = if prev_seq == u64::MAX {
                    u64::MAX
                } else {
                    prev_seq + 1
                };
                let nv = SeqV { seq: new_seq, meta: req.value_meta, data };
                let result = Some(nv.duplicate());
                let ghost entries0 = self.kv@;
                match idx {
                    Some(i) => {
                        self.kv.set(i, (req.key, nv));
                        proof {
                            lemma_lookup_update(entries0, i as int, self.kv@[i as int]);
                        }
                    },
                    None => {
                        self.kv.push((req.key, nv));
                        proof {
                            lemma_lookup_push(entries0, self.kv@.last());
                        }
                    },
                }
                proof {
                    assert(self@ =~= spec_upsert_state(old(self)@, req@));
                }
                UpsertKVReply { prev, result }
            },
            Operation::Delete => {
                match idx {
                    Some(i) => {
                        let ghost entries0 = self.kv@;
                        self.kv.remove(i);
                        proof {
                            lemma_lookup_remove(entries0, i as int);
                            assert(self@ =~= spec_upsert_state(old(self)@, req@));
                        }
                    },
                    None => {
                        proof {
                            assert(self@ =~= spec_upsert_state(old(self)@, req@));
                        }
                    },
                }
                UpsertKVReply { prev, result: None }
            },
        }
    }

    /// List every stored key whose string form starts with the prefix,
    /// with its value; the order carries no meaning beyond being stable
    /// for this one snapshot.
    #[verifier::loop_isolation(false)]
    #[verifier::rlimit(50)]
    pub fn prefix_list_kv(&self, prefix: &str) -> (r: Vec<(String, SeqV)>)
        requires
            self.wf(),
        ensures
            forall|x: int|
                0 <= x < r@.len() ==> starts_with_bytes(
                    vstd::utf8::encode_utf8((#[trigger] r@[x]).0@),
                    vstd::utf8::encode_utf8(prefix@),
                ) && lookup(self@, r@[x].0@) == Some(r@[x].1@),
            forall|x1: int, x2: int| 0 <= x1 < x2 < r@.len() ==> r@[x1].0@ != r@[x2].0@,
            forall|k: Seq<char>|
                #[trigger] self@.contains_key(k) && starts_with_bytes(
                    vstd::utf8::encode_utf8(k),
                    vstd::utf8::encode_utf8(prefix@),
                ) ==> exists|x: int| 0 <= x < r@.len() && (#[trigger] r@[x]).0@ == k,
    {
        proof {
            self.lemma_view_lookup();
        }
        let n = self.kv.len();
        let mut r: Vec<(String, SeqV)> = Vec::new();
        let mut i: usize = 0;
        while i < n
            invariant
                i <= n,
                forall|x: int|
                    0 <= x < r@.len() ==> exists|j: int|
                        0 <= j < i && (#[trigger] r@[x]).0@ == self.kv@[j].0@ && r@[x].1@
                            == self.kv@[j].1@,
                forall|x: int|
                    0 <= x < r@.len() ==> starts_with_bytes(
                        vstd::utf8::encode_utf8((#[trigger] r@[x]).0@),
                        vstd::utf8::encode_utf8(prefix@),
                    ),
                forall|x1: int, x2: int| 0 <= x1 < x2 < r@.len() ==> r@[x1].0@ != r@[x2].0@,
                forall|j: int|
                    0 <= j < i && starts_with_bytes(
                        vstd::utf8::encode_utf8((#[trigger] self.kv@[j]).0@),
                        vstd::utf8::encode_utf8(prefix@),
                    ) ==> exists|x: int| 0 <= x < r@.len() && (#[trigger] r@[x]).0@
                        == self.kv@[j].0@,
            decreases n - i,
        {
            if str_has_prefix(self.kv[i].0.as_str(), prefix) {
                let ghost r0 = r@;
                r.push((self.kv[i].0.clone(), self.kv[i].1.duplicate()));
                proof {
                    assert(r@[r@.len() - 1].0@ == self.kv@[i as int].0@);
                    assert forall|x1: int, x2: int|
                        0 <= x1 < x2 < r@.len() implies r@[x1].0@ != r@[x2].0@ by {
                        if x2 == r@.len() - 1 {
                            let j = choose|j: int|
                                0 <= j < i && (#[trigger] r0[x1]).0@ == self.kv@[j].0@
                                    && r0[x1].1@ == self.kv@[j].1@;
                            assert(self.kv@[j].0@ != self.kv@[i as int].0@);
                        }
                    }
                    assert forall|j: int|
                        0 <= j < i + 1 && starts_with_bytes(
                            vstd::utf8::encode_utf8((#[trigger] self.kv@[j]).0@),
                            vstd::utf8::encode_utf8(prefix@),
                        ) implies exists|x: int| 0 <= x < r@.len() && (#[trigger] r@[x]).0@
                        == self.kv@[j].0@ by {
                        if j < i {
                            let x = choose|x: int|
                                0 <= x < r0.len() && (#[trigger] r0[x]).0@ == self.kv@[j].0@;
                            assert(r@[x] == r0[x]);
                        } else {
                            let x = r@.len() - 1;
                            assert(r@[x].0@ == self.kv@[j].0@);
                        }
                    }
                }
            }
            i += 1;
        }
        proof {
            assert forall|x: int|
                0 <= x < r@.len() implies lookup(self@, (#[trigger] r@[x]).0@) == Some(
                r@[x].1@,
            ) by {
                let j = choose|j: int|
                    0 <= j < n && (#[trigger] r@[x]).0@ == self.kv@[j].0@ && r@[x].1@
                        == self.kv@[j].1@;
                lemma_lookup_at(self.kv@, j);
            }
            assert forall|k: Seq<char>|
                #[trigger] self@.contains_key(k) && starts_with_bytes(
                    vstd::utf8::encode_utf8(k),
                    vstd::utf8::encode_utf8(prefix@),
                ) implies exists|x: int| 0 <= x < r@.len() && (#[trigger] r@[x]).0@ == k by {
                lemma_lookup_some_index(self.kv@, k);
                let j = choose|j: int|
                    0 <= j < self.kv@.len() && (#[trigger] self.kv@[j]).0@ == k;
                assert(starts_with_bytes(
                    vstd::utf8::encode_utf8(self.kv@[j].0@),
                    vstd::utf8::encode_utf8(prefix@),
                ));
            }
        }
        r
    }

    /// Whether one transaction condition holds of the current store.
    fn eval_cond(&self, c: &TxnCondition) -> (r: bool)
        requires
            self.wf(),
        ensures
            r == spec_cond_holds(self@, c@),
    {
        proof {
            self.lemma_view_lookup();
        }
        let idx = self.find_key(c.key.as_str());
        let cur_seq: u64 = match idx {
            Some(i) => {
                proof {
                    lemma_lookup_at(self.kv@, i as int);
                }
                self.kv[i].1.seq
            },
            None => {
                proof {
                    lemma_lookup_absent(self.kv@, c.key@);
                }
                0
            },
        };
        let present = idx.is_some();
        match c.expected {
            SeqCondition::Absent => !present,
            SeqCondition::Present => present,
            SeqCondition::SeqEq(n) => cur_seq == n,
        }
    }

    /// Apply one operation of the chosen branch, unconditionally.
    fn txn_apply_op(&mut self, op: &TxnOp) -> (resp: TxnOpResponse)
        requires
            old(self).wf(),
        ensures
            final(self).wf(),
            final(self)@ == spec_apply_op_state(old(self)@, op@),
            resp@ == spec_op_response(old(self)@, op@),
    {
        proof {
            self.lemma_view_lookup();
        }
        match op {
            TxnOp::Put { key, value, value_meta } => {
                let idx = self.find_key(key.as_str());
                let prev: Option<SeqV> = match idx {
                    Some(i) => {
                        proof {
                            lemma_lookup_at(self.kv@, i as int);
                        }
                        Some(self.kv[i].1.duplicate())
                    },
                    None => {
                        proof {
                            lemma_lookup_absent(self.kv@, key@);
                        }
                        None
                    },
                };
                let prev_seq: u64 = match &prev {
                    Some(v) => v.seq,
                    None => 0,
                };
                let new_seq: u64 = if prev_seq == u64::MAX {
                    u64::MAX
                } else {
                    prev_seq + 1
                };
                let nv = SeqV { seq: new_seq, meta: *value_meta, data: copy_bytes(value) };
                let ghost entries0 = self.kv@;
                match idx {
                    Some(i) => {
                        self.kv.set(i, (key.clone(), nv));
                        proof {
                            lemma_lookup_update(entries0, i as int, self.kv@[i as int]);
                        }
                    },
                    None => {
                        self.kv.push((key.clone(), nv));
                        proof {
                            lemma_lookup_push(entries0, self.kv@.last());
                        }
                    },
                }
                proof {
                    assert(self@ =~= spec_apply_op_state(old(self)@, op@));
                }
                TxnOpResponse::Put { key: key.clone(), prev }
            },
            TxnOp::Delete { key } => {
                let idx = self.find_key(key.as_str());
                let prev: Option<SeqV> = match idx {
                    Some(i) => {
                        proof {
                            lemma_lookup_at(self.kv@, i as int);
                        }
                        Some(self.kv[i].1.duplicate())
                    },
                    None => {
                        proof {
                            lemma_lookup_absent(self.kv@, key@);
                        }
                        None
                    },
                };
                let deleted = match idx {
                    Some(i) => {
                        let ghost entries0 = self.kv@;
                        self.kv.remove(i);
                        proof {
                            lemma_lookup_remove(entries0, i as int);
                            assert(self@ =~= spec_apply_op_state(old(self)@, op@));
                        }
                        true
                    },
                    None => {
                        proof {
                            assert(self@ =~= spec_apply_op_state(old(self)@, op@));
                        }
                        false
                    },
                };
                TxnOpResponse::Delete { key: key.clone(), deleted, prev }
            },
            TxnOp::Get { key } => {
                let value = self.get_kv(key.as_str());
                proof {
                    assert(self@ =~= spec_apply_op_state(old(self)@, op@));
                }
                TxnOpResponse::Get { key: key.clone(), value }
            },
        }
    }

    /// Apply a transaction: all conditions are evaluated against one
    /// consistent snapshot, and exactly the chosen branch runs,
    /// atomically; no operation executes outside that branch.
    #[verifier::loop_isolation(false)]
    pub fn transaction(&mut self, req: TxnRequest) -> (r: TxnReply)
        requires
            old(self).wf(),
        ensures
            final(self).wf(),
            r@.success == spec_conds_hold(old(self)@, req@.condition),
            final(self)@ == spec_state_at(
                old(self)@,
                chosen_branch(req@, r@.success),
                chosen_branch(req@, r@.success).len() as int,
            ),
            r@.responses.len() == chosen_branch(req@, r@.success).len(),
            forall|i: int|
                0 <= i < r@.responses.len() ==> #[trigger] r@.responses[i] == spec_op_response(
                    spec_state_at(old(self)@, chosen_branch(req@, r@.success), i),
                    chosen_branch(req@, r@.success)[i],
                ),
    {
        let nc = req.condition.len();
        let mut ok = true;
        let mut ci: usize = 0;
        while ci < nc
            invariant
                ci <= nc,
                ok == (forall|j: int|
                    0 <= j < ci ==> spec_cond_holds(old(self)@, #[trigger] req@.condition[j])),
            decreases nc - ci,
        {
            let c = self.eval_cond(&req.condition[ci]);
            let ok0 = ok;
            ok = ok0 && c;
            proof {
                assert(req@.condition[ci as int] == req.condition@[ci as int]@);
                if ok {
                    assert forall|j: int|
                        0 <= j < ci + 1 implies spec_cond_holds(
                        old(self)@,
                        #[trigger] req@.condition[j],
                    ) by {}
                }
            }
            ci += 1;
        }
        let branch: &Vec<TxnOp> = if ok {
            &req.if_then
        } else {
            &req.else_then
        };
        let ghost bm = chosen_branch(req@, ok);
        proof {
            assert(bm =~= branch.deep_view());
        }
        let n = branch.len();
        let mut responses: Vec<TxnOpResponse> = Vec::new();
        let mut i: usize = 0;
        while i < n
            invariant
                i <= n,
                self.wf(),
                self@ == spec_state_at(old(self)@, bm, i as int),
                responses@.len() == i,
                forall|j: int|
                    0 <= j < i ==> #[trigger] responses.deep_view()[j] == spec_op_response(
                        spec_state_at(old(self)@, bm, j),
                        bm[j],
                    ),
            decreases n - i,
        {
            let ghost responses0 = responses.deep_view();
            let resp = self.txn_apply_op(&branch[i]);
            responses.push(resp);
            proof {
                assert(branch@[i as int]@ == bm[i as int]);
                assert(responses.deep_view() =~= responses0.push(resp@));
            }
            i += 1;
        }
        TxnReply { success: ok, responses }
    }
}

} // verus!

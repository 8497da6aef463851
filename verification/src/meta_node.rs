//! Binding of the key-value service contract to a log of committed
//! writes, enforcing the write/read asymmetry of the consistency model.
//!
//! A write is wrapped as a log entry (transaction id and timestamp left
//! for the log layer to assign), submitted, and its tagged applied-state
//! result unwrapped into the operation's reply; a tag that does not
//! match the command is a fatal internal-consistency violation, not a
//! recoverable condition. A read is answered from the node's local
//! state-machine replica without going through the log, so it may lag
//! writes already acknowledged to other callers.

use vstd::prelude::*;

use crate::kv::AppliedState;
use crate::kv::AppliedStateModel;
use crate::kv::Cmd;
use crate::kv::CmdModel;
use crate::kv::KVAppError;
use crate::kv::LogEntry;
use crate::kv::SeqV;
use crate::kv::SeqVModel;
use crate::kv::TxnReply;
use crate::kv::TxnReplyModel;
use crate::kv::TxnRequest;
use crate::kv::UpsertKV;
use crate::kv::UpsertKVReply;
use crate::kv::UpsertKVReq;
use crate::kv::view_opt;
use crate::state_machine::StateMachine;
use crate::state_machine::chosen_branch;
use crate::state_machine::lookup;
use crate::state_machine::spec_conds_hold;
use crate::state_machine::spec_op_response;
use crate::state_machine::spec_state_at;
use crate::state_machine::spec_txn_state;
use crate::state_machine::spec_upsert_reply;
use crate::state_machine::spec_upsert_state;
use crate::state_machine::starts_with_bytes;

verus! {

/// The map a committed command leaves in the state machine.
pub open spec fn spec_applied_state(
    m: Map<Seq<char>, SeqVModel>,
    cmd: CmdModel,
) -> Map<Seq<char>, SeqVModel> {
    match cmd {
        CmdModel::UpsertKV(u) => spec_upsert_state(m, u),
        CmdModel::Transaction(t) => spec_txn_state(m, t),
    }
}

/// The tagged result applying a committed command reports.
pub open spec fn spec_applied_reply(m: Map<Seq<char>, SeqVModel>, cmd: CmdModel)
    -> AppliedStateModel {
    match cmd {
        CmdModel::UpsertKV(u) => AppliedStateModel::KV(spec_upsert_reply(m, u)),
        CmdModel::Transaction(t) => {
            let success = spec_conds_hold(m, t.condition);
            let ops = chosen_branch(t, success);
            AppliedStateModel::TxnReply(
                TxnReplyModel {
                    success,
                    responses: Seq::new(
                        ops.len(),
                        |i: int| spec_op_response(spec_state_at(m, ops, i), ops[i]),
                    ),
                },
            )
        },
    }
}

/// A node of the service: its local replica of the state machine.
pub struct MetaNode {
    sm: StateMachine,
}

impl View for MetaNode {
    type V = Map<Seq<char>, SeqVModel>;

    closed spec fn view(&self) -> Map<Seq<char>, SeqVModel> {
        self.sm@
    }
}

impl MetaNode {
    /// The local replica is well formed.
    pub closed spec fn wf(&self) -> bool {
        self.sm.wf()
    }

    /// A fresh node over an empty store.
    pub fn new() -> (r: MetaNode)
        ensures
            r.wf(),
            r@ == Map::<Seq<char>, SeqVModel>::empty(),
    {
        MetaNode { sm: StateMachine::new() }
    }

    /// Submit a log entry for replication and apply it once committed.
    /// Entries are applied strictly in commit order; this is the only
    /// mutation authority over the state machine.
    pub fn write(&mut self, ent: LogEntry) -> (r: AppliedState)
        requires
            old(self).wf(),
        ensures
            final(self).wf(),
            final(self)@ == spec_applied_state(old(self)@, ent@.cmd),
            r@ == spec_applied_reply(old(self)@, ent@.cmd),
    {
        match ent.cmd {
            Cmd::UpsertKV(u) => AppliedState::KV(self.sm.upsert_kv(u)),
            Cmd::Transaction(t) => {
                let ghost t0 = t@;
                let reply = self.sm.transaction(t);
                proof {
                    let ops = chosen_branch(t0, reply@.success);
                    assert(reply@.responses =~= Seq::new(
                        ops.len(),
                        |i: int| spec_op_response(spec_state_at(old(self)@, ops, i), ops[i]),
                    ));
                }
                AppliedState::TxnReply(reply)
            },
        }
    }

    /// A conditional write, linearized through the log: build the log
    /// entry, submit it, and unwrap the applied result.
    pub fn upsert_kv(&mut self, act: UpsertKVReq) -> (r: Result<UpsertKVReply, KVAppError>)
        requires
            old(self).wf(),
        ensures
            final(self).wf(),
            final(self)@ == spec_upsert_state(old(self)@, act@),
            r matches Ok(reply) && reply@ == spec_upsert_reply(old(self)@, act@),
    {
        let ent = LogEntry {
            txid: None,
            time_ms: None,
            cmd: Cmd::UpsertKV(
                UpsertKV {
                    key: act.key,
                    seq: act.seq,
                    value: act.value,
                    value_meta: act.value_meta,
                },
            ),
        };
        let rst = self.write(ent);
        match rst {
            AppliedState::KV(x) => Ok(x),
            _ => Err(KVAppError::InternalContractViolation),
        }
    }

    /// An atomic transaction, linearized through the log.
    pub fn transaction(&mut self, txn: TxnRequest) -> (r: Result<TxnReply, KVAppError>)
        requires
            old(self).wf(),
        ensures
            final(self).wf(),
            final(self)@ == spec_txn_state(old(self)@, txn@),
            r matches Ok(reply) && AppliedStateModel::TxnReply(reply@) == spec_applied_reply(
                old(self)@,
                CmdModel::Transaction(txn@),
            ),
    {
        let ent = LogEntry { txid: None, time_ms: None, cmd: Cmd::Transaction(txn) };
        let rst = self.write(ent);
        match rst {
            AppliedState::TxnReply(x) => Ok(x),
            _ => Err(KVAppError::InternalContractViolation),
        }
    }

    /// Read one key from the local replica, bypassing the log. The
    /// reply reflects some committed prefix of the log, not necessarily
    /// the latest write acknowledged elsewhere.
    pub fn get_kv(&self, key: &str) -> (r: Result<Option<SeqV>, KVAppError>)
        requires
            self.wf(),
        ensures
            r matches Ok(v) && view_opt(v) == lookup(self@, key@),
    {
        Ok(self.sm.get_kv(key))
    }

    /// Read an ordered list of keys from the local replica; the reply
    /// has the same order and length as the request.
    pub fn mget_kv(&self, keys: &Vec<String>) -> (r: Result<Vec<Option<SeqV>>, KVAppError>)
        requires
            self.wf(),
        ensures
            r matches Ok(v) && v@.len() == keys@.len() && forall|i: int|
                0 <= i < keys@.len() ==> view_opt(#[trigger] v@[i]) == lookup(
                    self@,
                    keys@[i]@,
                ),
    {
        Ok(self.sm.mget_kv(keys))
    }

    /// List every key starting with the prefix, from the local replica.
    pub fn prefix_list_kv(&self, prefix: &str) -> (r: Result<
        Vec<(String, SeqV)>,
        KVAppError,
    >)
        requires
            self.wf(),
        ensures
            r matches Ok(v) && {
                &&& forall|x: int|
                    0 <= x < v@.len() ==> starts_with_bytes(
                        vstd::utf8::encode_utf8((#[trigger] v@[x]).0@),
                        vstd::utf8::encode_utf8(prefix@),
                    ) && lookup(self@, v@[x].0@) == Some(v@[x].1@)
                &&& forall|x1: int, x2: int| 0 <= x1 < x2 < v@.len() ==> v@[x1].0@ != v@[x2].0@
                &&& forall|k: Seq<char>|
                    #[trigger] self@.contains_key(k) && starts_with_bytes(
                        vstd::utf8::encode_utf8(k),
                        vstd::utf8::encode_utf8(prefix@),
                    ) ==> exists|x: int| 0 <= x < v@.len() && (#[trigger] v@[x]).0@ == k
            },
    {
        Ok(self.sm.prefix_list_kv(prefix))
    }
}

} // verus!

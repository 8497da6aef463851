//! The request, reply and log-entry types of the key-value service
//! contract: sequence-number-gated upserts, reads, and atomic multi-key
//! transactions, together with their mathematical models.

use vstd::prelude::*;

verus! {

/// Optional metadata stored beside a value, such as an expiration stamp.
#[derive(Debug, Clone, Copy, PartialEq, Eq)]
pub struct KVMeta {
    pub expire_at: Option<u64>,
}

/// A stored value: an opaque byte payload, its metadata, and the
/// sequence number stamped by the state machine on the write that put it
/// there.
#[derive(Debug, Clone, PartialEq, Eq)]
pub struct SeqV {
    pub seq: u64,
    pub meta: Option<KVMeta>,
    pub data: Vec<u8>,
}

/// Mathematical model of a [`SeqV`].
pub struct SeqVModel {
    pub seq: u64,
    pub meta: Option<KVMeta>,
    pub data: Seq<u8>,
}

impl View for SeqV {
    type V = SeqVModel;

    open spec fn view(&self) -> SeqVModel {
        SeqVModel { seq: self.seq, meta: self.meta, data: self.data@ }
    }
}

/// Copy a byte vector.
pub fn copy_bytes(v: &Vec<u8>) -> (r: Vec<u8>)
    ensures
        r@ == v@,
{
    let mut r: Vec<u8> = Vec::new();
    let n = v.len();
    let mut i: usize = 0;
    while i < n
        invariant
            i <= n,
            n == v@.len(),
            r@ == v@.take(i as int),
        decreases n - i,
    {
        r.push(v[i]);
        proof {
            assert(v@.take(i + 1) =~= v@.take(i as int).push(v@[i as int]));
        }
        i += 1;
    }
    proof {
        assert(v@.take(n as int) =~= v@);
    }
    r
}

impl SeqV {
    /// An equal copy of this stored value.
    pub fn duplicate(&self) -> (r: SeqV)
        ensures
            r@ == self@,
    {
        SeqV { seq: self.seq, meta: self.meta, data: copy_bytes(&self.data) }
    }
}

/// An equal copy of an optional stored value.
pub fn duplicate_opt(v: &Option<SeqV>) -> (r: Option<SeqV>)
    ensures
        view_opt(r) == view_opt(*v),
{
    match v {
        Some(x) => Some(x.duplicate()),
        None => None,
    }
}

/// The model of an optional stored value.
pub open spec fn view_opt(v: Option<SeqV>) -> Option<SeqVModel> {
    match v {
        Some(x) => Some(x@),
        None => None,
    }
}

/// The write condition of a conditional upsert: unconditional, an exact
/// sequence number (0 meaning "must be absent"), or at least a sequence
/// number (1 meaning "must be present").
#[derive(Debug, Clone, Copy, PartialEq, Eq)]
pub enum MatchSeq {
    Any,
    Exact(u64),
    GE(u64),
}

/// The sequence number an absent key presents: zero.
pub open spec fn seq_of(prev: Option<SeqVModel>) -> u64 {
    match prev {
        None => 0,
        Some(v) => v.seq,
    }
}

/// Whether a write condition holds of the current sequence number.
pub open spec fn seq_matches(cond: MatchSeq, seq: u64) -> bool {
    match cond {
        MatchSeq::Any => true,
        MatchSeq::Exact(n) => seq == n,
        MatchSeq::GE(n) => seq >= n,
    }
}

/// What an upsert does to the value: store a new payload, or delete.
#[derive(Debug, Clone, PartialEq, Eq)]
pub enum Operation {
    Update(Vec<u8>),
    Delete,
}

/// Mathematical model of an [`Operation`].
pub enum OperationModel {
    Update(Seq<u8>),
    Delete,
}

impl View for Operation {
    type V = OperationModel;

    open spec fn view(&self) -> OperationModel {
        match self {
            Operation::Update(data) => OperationModel::Update(data@),
            Operation::Delete => OperationModel::Delete,
        }
    }
}

/// Mathematical model of an upsert: key, condition, operation, metadata.
pub struct UpsertKVModel {
    pub key: Seq<char>,
    pub seq: MatchSeq,
    pub value: OperationModel,
    pub value_meta: Option<KVMeta>,
}

/// A conditional write request, as callers of the service send it.
#[derive(Debug, Clone, PartialEq, Eq)]
pub struct UpsertKVReq {
    pub key: String,
    pub seq: MatchSeq,
    pub value: Operation,
    pub value_meta: Option<KVMeta>,
}

impl View for UpsertKVReq {
    type V = UpsertKVModel;

    open spec fn view(&self) -> UpsertKVModel {
        UpsertKVModel {
            key: self.key@,
            seq: self.seq,
            value: self.value@,
            value_meta: self.value_meta,
        }
    }
}

/// A conditional write, as carried inside a log entry.
#[derive(Debug, Clone, PartialEq, Eq)]
pub struct UpsertKV {
    pub key: String,
    pub seq: MatchSeq,
    pub value: Operation,
    pub value_meta: Option<KVMeta>,
}

impl View for UpsertKV {
    type V = UpsertKVModel;

    open spec fn view(&self) -> UpsertKVModel {
        UpsertKVModel {
            key: self.key@,
            seq: self.seq,
            value: self.value@,
            value_meta: self.value_meta,
        }
    }
}

/// The reply to an upsert: the previous value, and the value after the
/// write (equal to the previous one when the condition did not hold).
#[derive(Debug, Clone, PartialEq, Eq)]
pub struct UpsertKVReply {
    pub prev: Option<SeqV>,
    pub result: Option<SeqV>,
}

/// Mathematical model of an [`UpsertKVReply`].
pub struct UpsertKVReplyModel {
    pub prev: Option<SeqVModel>,
    pub result: Option<SeqVModel>,
}

impl View for UpsertKVReply {
    type V = UpsertKVReplyModel;

    open spec fn view(&self) -> UpsertKVReplyModel {
        UpsertKVReplyModel { prev: view_opt(self.prev), result: view_opt(self.result) }
    }
}

/// A predicate one transaction condition puts on a key's sequence number
/// or existence.
#[derive(Debug, Clone, Copy, PartialEq, Eq)]
pub enum SeqCondition {
    Absent,
    Present,
    SeqEq(u64),
}

/// One transaction condition: a key and a predicate on it.
#[derive(Debug, Clone, PartialEq, Eq)]
pub struct TxnCondition {
    pub key: String,
    pub expected: SeqCondition,
}

/// Mathematical model of a [`TxnCondition`].
pub struct TxnConditionModel {
    pub key: Seq<char>,
    pub expected: SeqCondition,
}

impl View for TxnCondition {
    type V = TxnConditionModel;

    open spec fn view(&self) -> TxnConditionModel {
        TxnConditionModel { key: self.key@, expected: self.expected }
    }
}

/// One operation of a transaction branch.
#[derive(Debug, Clone, PartialEq, Eq)]
pub enum TxnOp {
    Put { key: String, value: Vec<u8>, value_meta: Option<KVMeta> },
    Delete { key: String },
    Get { key: String },
}

/// Mathematical model of a [`TxnOp`].
pub enum TxnOpModel {
    Put { key: Seq<char>, value: Seq<u8>, value_meta: Option<KVMeta> },
    Delete { key: Seq<char> },
    Get { key: Seq<char> },
}

impl View for TxnOp {
    type V = TxnOpModel;

    open spec fn view(&self) -> TxnOpModel {
        match self {
            TxnOp::Put { key, value, value_meta } => TxnOpModel::Put {
                key: key@,
                value: value@,
                value_meta: *value_meta,
            },
            TxnOp::Delete { key } => TxnOpModel::Delete { key: key@ },
            TxnOp::Get { key } => TxnOpModel::Get { key: key@ },
        }
    }
}

/// An atomic transaction: ordered conditions and two ordered branches,
/// of which exactly one executes.
#[derive(Debug, Clone, PartialEq, Eq)]
pub struct TxnRequest {
    pub condition: Vec<TxnCondition>,
    pub if_then: Vec<TxnOp>,
    pub else_then: Vec<TxnOp>,
}

/// Mathematical model of a [`TxnRequest`].
pub struct TxnRequestModel {
    pub condition: Seq<TxnConditionModel>,
    pub if_then: Seq<TxnOpModel>,
    pub else_then: Seq<TxnOpModel>,
}

impl View for TxnRequest {
    type V = TxnRequestModel;

    open spec fn view(&self) -> TxnRequestModel {
        TxnRequestModel {
            condition: self.condition.deep_view(),
            if_then: self.if_then.deep_view(),
            else_then: self.else_then.deep_view(),
        }
    }
}

impl DeepView for TxnCondition {
    type V = TxnConditionModel;

    open spec fn deep_view(&self) -> TxnConditionModel {
        self.view()
    }
}

impl DeepView for TxnOp {
    type V = TxnOpModel;

    open spec fn deep_view(&self) -> TxnOpModel {
        self.view()
    }
}

/// The reply to one transaction operation.
#[derive(Debug, Clone, PartialEq, Eq)]
pub enum TxnOpResponse {
    Put { key: String, prev: Option<SeqV> },
    Delete { key: String, deleted: bool, prev: Option<SeqV> },
    Get { key: String, value: Option<SeqV> },
}

/// Mathematical model of a [`TxnOpResponse`].
pub enum TxnOpResponseModel {
    Put { key: Seq<char>, prev: Option<SeqVModel> },
    Delete { key: Seq<char>, deleted: bool, prev: Option<SeqVModel> },
    Get { key: Seq<char>, value: Option<SeqVModel> },
}

impl View for TxnOpResponse {
    type V = TxnOpResponseModel;

    open spec fn view(&self) -> TxnOpResponseModel {
        match self {
            TxnOpResponse::Put { key, prev } => TxnOpResponseModel::Put {
                key: key@,
                prev: view_opt(*prev),
            },
            TxnOpResponse::Delete { key, deleted, prev } => TxnOpResponseModel::Delete {
                key: key@,
                deleted: *deleted,
                prev: view_opt(*prev),
            },
            TxnOpResponse::Get { key, value } => TxnOpResponseModel::Get {
                key: key@,
                value: view_opt(*value),
            },
        }
    }
}

impl DeepView for TxnOpResponse {
    type V = TxnOpResponseModel;

    open spec fn deep_view(&self) -> TxnOpResponseModel {
        self.view()
    }
}

/// The reply to a transaction: which branch executed, and the replies of
/// that branch's operations, in order.
#[derive(Debug, Clone, PartialEq, Eq)]
pub struct TxnReply {
    pub success: bool,
    pub responses: Vec<TxnOpResponse>,
}

/// Mathematical model of a [`TxnReply`].
pub struct TxnReplyModel {
    pub success: bool,
    pub responses: Seq<TxnOpResponseModel>,
}

impl View for TxnReply {
    type V = TxnReplyModel;

    open spec fn view(&self) -> TxnReplyModel {
        TxnReplyModel { success: self.success, responses: self.responses.deep_view() }
    }
}

/// The command a log entry carries.
#[derive(Debug, Clone, PartialEq, Eq)]
pub enum Cmd {
    UpsertKV(UpsertKV),
    Transaction(TxnRequest),
}

/// Mathematical model of a [`Cmd`].
pub enum CmdModel {
    UpsertKV(UpsertKVModel),
    Transaction(TxnRequestModel),
}

impl View for Cmd {
    type V = CmdModel;

    open spec fn view(&self) -> CmdModel {
        match self {
            Cmd::UpsertKV(u) => CmdModel::UpsertKV(u@),
            Cmd::Transaction(t) => CmdModel::Transaction(t@),
        }
    }
}

/// A write wrapped for the consensus log: transaction id and timestamp
/// are left empty for the log layer to assign.
#[derive(Debug, Clone, PartialEq, Eq)]
pub struct LogEntry {
    pub txid: Option<u64>,
    pub time_ms: Option<u64>,
    pub cmd: Cmd,
}

/// Mathematical model of a [`LogEntry`].
pub struct LogEntryModel {
    pub txid: Option<u64>,
    pub time_ms: Option<u64>,
    pub cmd: CmdModel,
}

impl View for LogEntry {
    type V = LogEntryModel;

    open spec fn view(&self) -> LogEntryModel {
        LogEntryModel { txid: self.txid, time_ms: self.time_ms, cmd: self.cmd@ }
    }
}

/// The result of applying one committed log entry: tagged by the kind of
/// command it came from.
#[derive(Debug, Clone, PartialEq, Eq)]
pub enum AppliedState {
    KV(UpsertKVReply),
    TxnReply(TxnReply),
}

/// Mathematical model of an [`AppliedState`].
pub enum AppliedStateModel {
    KV(UpsertKVReplyModel),
    TxnReply(TxnReplyModel),
}

impl View for AppliedState {
    type V = AppliedStateModel;

    open spec fn view(&self) -> AppliedStateModel {
        match self {
            AppliedState::KV(r) => AppliedStateModel::KV(r@),
            AppliedState::TxnReply(r) => AppliedStateModel::TxnReply(r@),
        }
    }
}

/// Errors of the service layer. Codec errors never appear here: the
/// retryable kinds come from the consensus log, and the contract
/// violation marks an applied-state tag that does not match its command
/// - a fatal programming error, not a recoverable condition.
#[derive(Debug, Clone, Copy, PartialEq, Eq)]
pub enum KVAppError {
    NotLeader,
    Unavailable,
    InternalContractViolation,
}

} // verus!

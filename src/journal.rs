use vstd::prelude::*;

verus! {

/// The kind of a metadata mutation written to the replicated log.
#[derive(Clone, Copy, Debug, PartialEq, Eq, Structural)]
pub enum StorageDataType {
    JournalCreateShard,
    JournalDeleteShard,
    JournalCreateSegment,
    JournalDeleteSegment,
}

/// An entry of the replicated log: the mutation kind and the encoded request.
pub struct StorageData {
    pub data_type: StorageDataType,
    pub value: Vec<u8>,
}

impl StorageData {
    pub fn new(data_type: StorageDataType, value: Vec<u8>) -> (r: Self)
        ensures
            r.data_type == data_type,
            r.value@ == value@,
    {
        StorageData { data_type, value }
    }
}

/// The status an RPC fails with: cancelled, with the cause.
pub struct RpcStatus {
    pub message: String,
}

/// The empty reply of a successful write.
#[derive(Clone, Copy, Debug, PartialEq, Eq, Structural)]
pub struct CommonReply {}

/// The reply to a shard query.
pub struct GetShardReply {
    pub shards: Vec<u8>,
}

/// Funnels shard and segment mutations through the replicated log.
pub struct GrpcEngineService {}

impl GrpcEngineService {
    pub fn new() -> (r: Self) {
        GrpcEngineService {}
    }

    /// The log entry for a create-shard request.
    pub fn create_shard(&self, request: Vec<u8>) -> (r: StorageData)
        ensures
            r.data_type == StorageDataType::JournalCreateShard,
            r.value@ == request@,
    {
        StorageData::new(StorageDataType::JournalCreateShard, request)
    }

    /// The log entry for a delete-shard request.
    pub fn delete_shard(&self, request: Vec<u8>) -> (r: StorageData)
        ensures
            r.data_type == StorageDataType::JournalDeleteShard,
            r.value@ == request@,
    {
        StorageData::new(StorageDataType::JournalDeleteShard, request)
    }

    /// The log entry for a create-segment request.
    pub fn create_segment(&self, request: Vec<u8>) -> (r: StorageData)
        ensures
            r.data_type == StorageDataType::JournalCreateSegment,
            r.value@ == request@,
    {
        StorageData::new(StorageDataType::JournalCreateSegment, request)
    }

    /// The log entry for a delete-segment request.
    pub fn delete_segment(&self, request: Vec<u8>) -> (r: StorageData)
        ensures
            r.data_type == StorageDataType::JournalDeleteSegment,
            r.value@ == request@,
    {
        StorageData::new(StorageDataType::JournalDeleteSegment, request)
    }

    /// Shard queries are answered from the local cache, which holds no shard
    /// description yet: the reply is empty.
    pub fn get_shard(&self) -> (r: GetShardReply)
        ensures
            r.shards@.len() == 0,
    {
        GetShardReply { shards: Vec::new() }
    }

    /// The reply once the log has answered a write: empty on commit, else a
    /// cancellation carrying the log's error.
    pub fn write_reply(&self, committed: Result<(), String>) -> (r: Result<CommonReply, RpcStatus>)
        ensures
            committed is Ok <==> r is Ok,
            committed matches Err(e) ==> r matches Err(s) && s.message@ == e@,
    {
        match committed {
            Ok(()) => Ok(CommonReply {}),
            Err(e) => Err(RpcStatus { message: e }),
        }
    }
}

} // verus!

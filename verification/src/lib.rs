//! Synchronization core for keeping a named AAS submodel's value view
//! eventually consistent across co-equal replicas.
//!
//! The crate provides the replication core: hybrid logical clocks and their
//! total order, an observed-remove map of canonical element paths to
//! last-writer-wins values together with its delta form, the canonical path
//! grammar, the wire codec and topic scheme, the durable delta log, the
//! event and poll adapters' pure logic, and the agent's state transitions.

#![verifier::loop_isolation(false)]

pub mod agent;
pub mod assoc;
pub mod bytes_be;
pub mod codec;
pub mod crdt;
pub mod diff;
pub mod document;
pub mod encoding;
pub mod events;
pub mod hlc;
pub mod json;
pub mod messages;
pub mod log;
pub mod path;
pub mod strutil;
pub mod topics;

pub use agent::{
    AasClientConfig, AdapterConfig, AgentConfig, BasyxSubscriberConfig, DocumentState,
    PersistenceConfig, ReplicationConfig, SubscriptionConfig,
};
pub use crdt::{Delta, LwwRegister, MapEntry, OrMap, RegisterDelta};
pub use diff::{FaaastPollerConfig, PollerError};
pub use document::{hash_doc_id, CrdtDocument, DocId, ViewKind};
pub use encoding::{
    decode_id_base64url, decode_idshort_path, encode_id_base64url, encode_idshort_path,
    EncodingError,
};
pub use events::{BasyxEvent, ElementEvent, EventParseError, EventType};
pub use hlc::{Hlc, Timestamp, TimestampError};
pub use json::JsonValue;
pub use log::{DeltaLog, DeltaRow, LogError};
pub use messages::{
    AgentHello, AntiEntropyRequest, AntiEntropyResponse, DeltaRange, DocDelta, MessageError,
};
pub use path::{CanonicalPath, ElementType, MergeStrategy, PathSegment};
pub use topics::{MessageType, TopicScheme};

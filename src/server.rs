use vstd::prelude::*;

use crate::config::SyncConfig;
use crate::entry::{entries_after, filter_entries_since_timestamp, log_view, ClipboardHistoryEntry};
use crate::history::{merge_clipboard_history, stored_merge};
use crate::merge::ConflictResolutionStrategy;
use crate::sync::{create_sync_message, SyncData, SyncMessage, SyncMessageType, Watermarks};
use crate::text::{parse_i64, parse_i64_spec};

verus! {

/// Why the peer service refused a request.
#[derive(Debug, Clone, Copy, PartialEq, Eq, Structural)]
pub enum ServerError {
    /// A `ClipboardSync` envelope without entries.
    InvalidSyncData,
    /// The local log could not be read.
    LogUnavailable,
    /// A message type that the service does not answer.
    UnsupportedMessageType,
}

/// The answer to one request.
#[derive(Debug, Clone, PartialEq, Eq)]
pub enum SyncReply {
    Message(SyncMessage),
    Error(ServerError),
}

/// The answer to a `POST /sync` request, and the log to store, if any.
#[derive(Debug)]
pub struct SyncOutcome {
    pub reply: SyncReply,
    pub store: Option<Vec<ClipboardHistoryEntry>>,
}

/// The `since` of a history query: the parameter read as an `i64`, or 0
/// when it is missing or unreadable.
pub open spec fn since_of(param: Option<Seq<char>>) -> int {
    match param {
        Some(s) => match parse_i64_spec(s) {
            Some(v) => v,
            None => 0,
        },
        None => 0,
    }
}

/// Reads the `since` parameter of a history query.
pub fn parse_since(param: Option<&str>) -> (r: i64)
    ensures
        r == since_of(
            match param {
                Some(s) => Some(s@),
                None => None,
            },
        ),
{
    match param {
        Some(s) => match parse_i64(s) {
            Some(v) => v,
            None => 0,
        },
        None => 0,
    }
}

/// The entries that `GET /history?since=..` answers with: those of the log
/// newer than `since`. Fails when the log could not be read.
pub fn handle_history_request(since: Option<&str>, log: Option<&Vec<ClipboardHistoryEntry>>) -> (r:
    Result<Vec<ClipboardHistoryEntry>, ServerError>)
    ensures
        match log {
            None => r == Err::<Vec<ClipboardHistoryEntry>, ServerError>(ServerError::LogUnavailable),
            Some(l) => r matches Ok(v) && log_view(v@) == entries_after(
                log_view(l@),
                since_of(
                    match since {
                        Some(s) => Some(s@),
                        None => None,
                    },
                ) as i64,
            ),
        },
{
    let t = parse_since(since);
    match log {
        None => Err(ServerError::LogUnavailable),
        Some(l) => Ok(filter_entries_since_timestamp(l, t)),
    }
}

/// The server side of the sync protocol: answers peers' envelopes and
/// records when each peer last pushed.
#[derive(Debug)]
pub struct SyncServer {
    config: SyncConfig,
    sync_state: Watermarks,
    strategy: ConflictResolutionStrategy,
}

impl SyncServer {
    pub closed spec fn config_spec(&self) -> SyncConfig {
        self.config
    }

    pub closed spec fn strategy_spec(&self) -> ConflictResolutionStrategy {
        self.strategy
    }

    /// When the peer `k` last pushed, by its own clock.
    pub closed spec fn pushed_at(&self, k: Seq<char>) -> Option<i64> {
        self.sync_state.get_spec(k)
    }

    /// A service that settles conflicts by keeping the newest entry.
    pub fn new(config: SyncConfig) -> (r: Self)
        ensures
            r.config_spec() == config,
            r.strategy_spec() == ConflictResolutionStrategy::KeepNewest,
            forall|k: Seq<char>| r.pushed_at(k) is None,
    {
        Self::with_strategy(config, ConflictResolutionStrategy::KeepNewest)
    }

    /// A service that settles conflicts by `strategy`.
    pub fn with_strategy(config: SyncConfig, strategy: ConflictResolutionStrategy) -> (r: Self)
        ensures
            r.config_spec() == config,
            r.strategy_spec() == strategy,
            forall|k: Seq<char>| r.pushed_at(k) is None,
    {
        SyncServer { config, sync_state: Watermarks::new(), strategy }
    }

    pub fn listen_port(&self) -> (r: u16)
        ensures
            r == self.config_spec().listen_port,
    {
        self.config.listen_port
    }

    pub fn peer_id(&self) -> (r: &String)
        ensures
            *r == self.config_spec().peer_id,
    {
        &self.config.peer_id
    }

    /// Answers a `POST /sync` envelope, given the local log (`None` when it
    /// could not be read); replies are stamped `now`.
    ///
    /// A handshake is acknowledged with this device's identity. A push of
    /// entries is merged into the log, which is then to be stored in
    /// timestamp order, and the
    /// sender's timestamp is recorded; without entries it is refused, and
    /// without a readable log it is refused and nothing is stored. A history
    /// request is answered with the entries newer than its timestamp (all of
    /// them without one). Other types are refused.
    pub fn handle_sync_request(
        &mut self,
        message: &SyncMessage,
        log: Option<&Vec<ClipboardHistoryEntry>>,
        now: i64,
    ) -> (r: SyncOutcome)
        ensures
            r.reply matches SyncReply::Message(m) ==> m.timestamp == now,
            final(self).config_spec() == old(self).config_spec(),
            final(self).strategy_spec() == old(self).strategy_spec(),
            !(message.message_type == SyncMessageType::ClipboardSync && r.store is Some)
                ==> forall|k: Seq<char>| final(self).pushed_at(k) == old(self).pushed_at(k),
            match message.message_type {
                SyncMessageType::Handshake => {
                    &&& r.store is None
                    &&& r.reply matches SyncReply::Message(m)
                    &&& m.message_type == SyncMessageType::Handshake
                    &&& m.peer_id == old(self).config_spec().peer_id
                    &&& m.data is None
                },
                SyncMessageType::ClipboardSync => match (message.data, log) {
                    (Some(SyncData::ClipboardEntries(es)), Some(l)) => {
                        &&& r.reply matches SyncReply::Message(m)
                        &&& m.message_type == SyncMessageType::ClipboardSync
                        &&& m.peer_id == old(self).config_spec().peer_id
                        &&& m.data is None
                        &&& r.store matches Some(s) && log_view(s@) == stored_merge(
                            log_view(l@),
                            log_view(es@),
                            old(self).strategy_spec(),
                            old(self).config_spec().peer_id@,
                        )
                        &&& final(self).pushed_at(message.peer_id@) == Some(message.timestamp)
                        &&& forall|k: Seq<char>|
                            k != message.peer_id@ ==> final(self).pushed_at(k) == old(
                                self,
                            ).pushed_at(k)
                    },
                    (Some(SyncData::ClipboardEntries(_)), None) => r.store is None && r.reply
                        == SyncReply::Error(ServerError::LogUnavailable),
                    _ => r.store is None && r.reply == SyncReply::Error(
                        ServerError::InvalidSyncData,
                    ),
                },
                SyncMessageType::HistoryRequest => {
                    &&& r.store is None
                    &&& match log {
                        None => r.reply == SyncReply::Error(ServerError::LogUnavailable),
                        Some(l) => {
                            &&& r.reply matches SyncReply::Message(m)
                            &&& m.message_type == SyncMessageType::HistoryResponse
                            &&& m.peer_id == old(self).config_spec().peer_id
                            &&& m.data matches Some(SyncData::ClipboardEntries(es))
                            &&& log_view(es@) == entries_after(
                                log_view(l@),
                                match message.data {
                                    Some(SyncData::Timestamp(t)) => t,
                                    _ => 0,
                                },
                            )
                        },
                    }
                },
                _ => r.store is None && r.reply == SyncReply::Error(
                    ServerError::UnsupportedMessageType,
                ),
            },
    {
        match message.message_type {
            SyncMessageType::Handshake => {
                let m = create_sync_message(
                    SyncMessageType::Handshake,
                    self.config.peer_id.clone(),
                    None,
                    now,
                );
                SyncOutcome { reply: SyncReply::Message(m), store: None }
            },
            SyncMessageType::ClipboardSync => match &message.data {
                Some(SyncData::ClipboardEntries(es)) => match log {
                    Some(l) => {
                        let merged_log = merge_clipboard_history(
                            l,
                            es,
                            &self.strategy,
                            &self.config.peer_id,
                        );
                        self.sync_state.set(message.peer_id.clone(), message.timestamp);
                        let m = create_sync_message(
                            SyncMessageType::ClipboardSync,
                            self.config.peer_id.clone(),
                            None,
                            now,
                        );
                        SyncOutcome { reply: SyncReply::Message(m), store: Some(merged_log) }
                    },
                    None => SyncOutcome {
                        reply: SyncReply::Error(ServerError::LogUnavailable),
                        store: None,
                    },
                },
                _ => SyncOutcome { reply: SyncReply::Error(ServerError::InvalidSyncData), store: None },
            },
            SyncMessageType::HistoryRequest => {
                let since = match &message.data {
                    Some(SyncData::Timestamp(t)) => *t,
                    _ => 0,
                };
                match log {
                    None => SyncOutcome {
                        reply: SyncReply::Error(ServerError::LogUnavailable),
                        store: None,
                    },
                    Some(l) => {
                        let es = filter_entries_since_timestamp(l, since);
                        let m = create_sync_message(
                            SyncMessageType::HistoryResponse,
                            self.config.peer_id.clone(),
                            Some(SyncData::ClipboardEntries(es)),
                            now,
                        );
                        SyncOutcome { reply: SyncReply::Message(m), store: None }
                    },
                }
            },
            _ => SyncOutcome {
                reply: SyncReply::Error(ServerError::UnsupportedMessageType),
                store: None,
            },
        }
    }
}

} // verus!

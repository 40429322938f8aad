//! What a node answers to the calls of its service: statements to execute,
//! and the calls of replication.
//!
//! The server owns the node. Transport, clock and background tasks are the
//! caller's: it hands in the time of a statement and the function that
//! compares numbers, and sends what the answers tell it to send.

use crate::database::{names, Database};
use crate::digest::checksum_of;
use crate::executor::{executed, executed_with, judged_text, kept, text_asks_order};
use crate::query::{compares_numbers, ordered_by, NumOrder};
use crate::replication::{
    events_view,
    judged_replay,
    queries,
    no_repeat,
    unseen,
    with_address,
    NodeSpec,
    ReplicationConfig,
    ReplicationError,
    ReplicationEvent,
    ReplicationManager,
    Written,
};
use crate::table::name_view;
use crate::text::texts;
use vstd::prelude::*;

verus! {

/// The answer to a statement.
#[derive(Debug)]
pub struct QueryResponse {
    pub success: bool,
    pub message: String,
    pub rows: Option<Vec<Vec<String>>>,
}

/// The server of a node.
#[derive(Debug)]
pub struct RpcServer {
    replication_manager: ReplicationManager,
}

impl View for RpcServer {
    type V = NodeSpec;

    closed spec fn view(&self) -> NodeSpec {
        self.replication_manager@
    }
}

/// The state of the node that a server starts with: the given
/// configuration, or that of a primary without replicas, an empty log and an
/// empty database.
pub open spec fn fresh_node(config: Option<ReplicationConfig>) -> NodeSpec {
    match config {
        Some(c) => NodeSpec {
            is_primary: c.is_primary,
            primary_url: name_view(c.primary_url),
            replicas: texts(c.replicas@),
            sync_interval: c.sync_interval,
            log: Seq::empty(),
            db: Seq::empty(),
        },
        None => NodeSpec {
            is_primary: true,
            primary_url: None,
            replicas: Seq::empty(),
            sync_interval: 5,
            log: Seq::empty(),
            db: Seq::empty(),
        },
    }
}

impl RpcServer {
    /// A server of a node with an empty database and an empty log. Without a
    /// configuration the node is a primary without replicas.
    pub fn new(config: Option<ReplicationConfig>) -> (r: Self)
        ensures
            r@ == fresh_node(config),
            forall|order: spec_fn(Seq<char>, Seq<char>) -> NumOrder| r@.in_step(order),
    {
        let db = Database::new();
        let node = match config {
            Some(c) => ReplicationManager::new(c, db),
            None => {
                let c = ReplicationConfig::new_primary();
                assert(texts(c.replicas@) =~= Seq::empty());
                ReplicationManager::new(c, db)
            },
        };
        RpcServer { replication_manager: node }
    }

    /// Whether the node is the primary.
    pub fn is_primary(&self) -> (r: bool)
        ensures
            r == self@.is_primary,
    {
        self.replication_manager.is_primary()
    }

    /// The node of the server.
    pub fn node(&self) -> (r: &ReplicationManager)
        ensures
            r@ == self@,
    {
        &self.replication_manager
    }

    /// Executes a statement at the time `timestamp`. A replica refuses and
    /// says so in its answer; a primary executes the statement, records it
    /// where it is a write statement that was carried out, and answers that
    /// it has executed it. The second part of the result is what the primary
    /// made of the statement: its outcome and, where it was recorded, its
    /// event and the addresses to which the event is to be sent.
    pub fn execute<F: Fn(&str, &str) -> NumOrder>(
        &mut self,
        query: String,
        timestamp: u64,
        float_order: &F,
    ) -> (r: (QueryResponse, Option<Written>))
        requires
            compares_numbers(*float_order),
        ensures
            r.0.success == old(self)@.is_primary,
            r.0.rows is None,
            r.0.message@ == if old(self)@.is_primary {
                "Query executed successfully"@
            } else {
                "This is a replica server. Write operations are only allowed on the primary server."@
            },
            (r.1 is Some) == old(self)@.is_primary,
            !old(self)@.is_primary ==> final(self)@ == old(self)@,
            old(self)@.is_primary ==> r.1->Some_0.records(query@, timestamp, old(self)@.replicas),
            old(self)@.is_primary ==> exists|marks: Seq<bool>| #[trigger]
                judged_text(*float_order, old(self)@.db, query@, marks) && r.1->Some_0.outcome@
                    == executed_with(old(self)@.db, query@, marks).1 && final(self)@ == old(self)@.after_with(query@, timestamp, marks),
            forall|order: spec_fn(Seq<char>, Seq<char>) -> NumOrder| #[trigger]
                ordered_by(*float_order, order) && old(self)@.is_primary ==> r.1->Some_0.outcome@
                    == executed(old(self)@.db, query@, order).1 && final(self)@ == old(self)@.after(
                    query@,
                    timestamp,
                    order,
                ),
            forall|order: spec_fn(Seq<char>, Seq<char>) -> NumOrder|
                !text_asks_order(old(self)@.db, query@) && old(self)@.is_primary
                    ==> r.1->Some_0.outcome@ == executed(old(self)@.db, query@, order).1 && final(self)@ == #[trigger] old(self)@.after(query@, timestamp, order),
            forall|order: spec_fn(Seq<char>, Seq<char>) -> NumOrder| #[trigger]
                ordered_by(*float_order, order) && old(self)@.in_step(order)
                    ==> final(self)@.in_step(order),
            kept(old(self)@.db, final(self)@.db),
    {
        match self.replication_manager.execute(query, timestamp, float_order) {
            Ok(written) => (
                QueryResponse {
                    success: true,
                    message: String::from_str("Query executed successfully"),
                    rows: None,
                },
                Some(written),
            ),
            Err(_) => (
                QueryResponse {
                    success: false,
                    message: String::from_str(
                        "This is a replica server. Write operations are only allowed on the primary server.",
                    ),
                    rows: None,
                },
                None,
            ),
        }
    }

    /// The answer to a call that asks whether the server is there.
    pub fn ping(&self) -> (r: String)
        ensures
            r@ == "pong"@,
    {
        String::from_str("pong")
    }

    /// The names of the tables of the database.
    pub fn list_tables(&self) -> (r: Vec<String>)
        ensures
            texts(r@) == names(self@.db),
    {
        self.replication_manager.database().tables.keys()
    }

    /// The log of the node.
    pub fn replication_get_events(&self) -> (r: Vec<ReplicationEvent>)
        ensures
            events_view(r@) == self@.log,
    {
        self.replication_manager.get_events()
    }

    /// The checksum of the node's database.
    pub fn replication_checksum(&self) -> (r: String)
        ensures
            r@ == checksum_of(self@.db),
    {
        self.replication_manager.checksum()
    }

    /// Hands the node events to apply. A replica applies those that it has
    /// not seen and answers `true`; a primary refuses.
    pub fn replication_apply_events<F: Fn(&str, &str) -> NumOrder>(
        &mut self,
        events: Vec<ReplicationEvent>,
        float_order: &F,
    ) -> (r: Result<bool, ReplicationError>)
        requires
            compares_numbers(*float_order),
        ensures
            old(self)@.is_primary ==> r == Err::<bool, ReplicationError>(
                ReplicationError::RoleViolation,
            ) && final(self)@ == old(self)@,
            !old(self)@.is_primary ==> r == Ok::<bool, ReplicationError>(true) && final(self)@.log
                == old(self)@.log + unseen(events_view(events@), old(self)@.log.len() as int),
            !old(self)@.is_primary ==> exists|marks: Seq<Seq<bool>>| #[trigger]
                judged_replay(
                    *float_order,
                    old(self)@.db,
                    queries(unseen(events_view(events@), old(self)@.log.len() as int)),
                    unseen(events_view(events@), old(self)@.log.len() as int).len() as int,
                    marks,
                ) && final(self)@ == old(self)@.applied_with(events_view(events@), marks),
            forall|order: spec_fn(Seq<char>, Seq<char>) -> NumOrder| #[trigger]
                ordered_by(*float_order, order) && !old(self)@.is_primary ==> final(self)@
                    == old(self)@.applied(events_view(events@), order),
            forall|order: spec_fn(Seq<char>, Seq<char>) -> NumOrder| #[trigger]
                ordered_by(*float_order, order) && old(self)@.in_step(order)
                    ==> final(self)@.in_step(order),
            kept(old(self)@.db, final(self)@.db),
    {
        match self.replication_manager.apply_events(events, float_order) {
            Ok(_) => Ok(true),
            Err(e) => Err(e),
        }
    }

    /// Registers a replica with a primary, and tells whether it did: a
    /// replica registers none.
    pub fn replication_register_replica(&mut self, url: String) -> (r: bool)
        ensures
            r == old(self)@.is_primary,
            final(self)@ == if r {
                NodeSpec { replicas: with_address(old(self)@.replicas, url@), ..old(self)@ }
            } else {
                old(self)@
            },
            no_repeat(old(self)@.replicas) ==> no_repeat(final(self)@.replicas),
    {
        if !self.replication_manager.is_primary() {
            return false;
        }
        self.replication_manager.add_replica(url);
        true
    }
}

} // verus!

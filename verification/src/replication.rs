//! Replication: a primary keeps a log of the write statements that it
//! accepted, and a replica replays the statements that it has not seen yet.
//!
//! A node is a primary or a replica for as long as it lives. A replica takes
//! the list of events that it is handed to be the log it has, grown at its
//! end: it counts the events it has applied and replays what lies beyond.

use crate::database::{lemma_entry_facts, Catalog, Database};
use crate::digest::{checksum, checksum_of};
use crate::executor::{
    effect,
    execute_sql,
    executed,
    executed_with,
    judged_text,
    kept,
    text_asks_order,
    Outcome,
    OutcomeSpec,
};
use crate::query::{compares_numbers, ordered_by, NumOrder};
use crate::sql::parsed;
use crate::table::{name_view, InsertOutcome, UpdateOutcome};
use crate::text::{clone_texts, str_eq, texts};
use vstd::prelude::*;

verus! {

/// How a node takes part in replication.
#[derive(Debug)]
pub struct ReplicationConfig {
    /// Whether the node is the primary.
    pub is_primary: bool,
    /// Where a replica finds its primary.
    pub primary_url: Option<String>,
    /// Where a primary finds its replicas; no address stands twice.
    pub replicas: Vec<String>,
    /// The time between two tries of a replica to catch up, in seconds.
    pub sync_interval: u64,
}

/// A statement that the primary accepted, with the time at which it did, in
/// seconds since the start of 1970.
#[derive(Debug)]
pub struct ReplicationEvent {
    pub timestamp: u64,
    pub query: String,
}

/// An event, as contracts see it.
pub struct EventSpec {
    pub timestamp: u64,
    pub query: Seq<char>,
}

/// A node's state, as contracts see it.
pub struct NodeSpec {
    pub is_primary: bool,
    pub primary_url: Option<Seq<char>>,
    pub replicas: Seq<Seq<char>>,
    pub sync_interval: u64,
    pub log: Seq<EventSpec>,
    pub db: Catalog,
}

/// What a node cannot do.
#[derive(Clone, Copy, Debug, PartialEq, Eq, Structural)]
pub enum ReplicationError {
    /// A primary was handed events to apply, or a replica a statement to
    /// execute.
    RoleViolation,
}

/// The node of a database in replication: its role, its log of events,
/// and the database.
#[derive(Debug)]
pub struct ReplicationManager {
    config: ReplicationConfig,
    events: Vec<ReplicationEvent>,
    db: Database,
}

/// What a primary made of a statement: the outcome of the statement and,
/// where it was recorded, its event and the addresses of the replicas to
/// which the event is to be sent.
#[derive(Debug)]
pub struct Written {
    pub outcome: Outcome,
    pub recorded: Option<ReplicationEvent>,
    pub targets: Vec<String>,
}

impl Written {
    /// The event is there where the statement is a write statement that was
    /// carried out, and only there; it is the event of `query` at the time
    /// `timestamp`, and the targets are `replicas`. Where no event is there,
    /// there are no targets.
    pub open spec fn records(
        self,
        query: Seq<char>,
        timestamp: u64,
        replicas: Seq<Seq<char>>,
    ) -> bool {
        match self.recorded {
            Some(event) => is_accepted(self.outcome@) && event@ == (EventSpec { timestamp, query })
                && texts(self.targets@) == replicas,
            None => !is_accepted(self.outcome@) && self.targets@.len() == 0,
        }
    }
}

/// What a replica needs to catch up: where its primary is, and how long to
/// wait between two tries, in seconds.
#[derive(Debug)]
pub struct SyncPlan {
    pub primary_url: String,
    pub interval: u64,
}

impl View for ReplicationEvent {
    type V = EventSpec;

    open spec fn view(&self) -> EventSpec {
        EventSpec { timestamp: self.timestamp, query: self.query@ }
    }
}

/// The events of a list, as contracts see them.
pub open spec fn events_view(events: Seq<ReplicationEvent>) -> Seq<EventSpec> {
    Seq::new(events.len(), |i: int| events[i]@)
}

/// The statements of a list of events, in order.
pub open spec fn queries(events: Seq<EventSpec>) -> Seq<Seq<char>> {
    Seq::new(events.len(), |i: int| events[i].query)
}

impl View for ReplicationManager {
    type V = NodeSpec;

    closed spec fn view(&self) -> NodeSpec {
        NodeSpec {
            is_primary: self.config.is_primary,
            primary_url: name_view(self.config.primary_url),
            replicas: texts(self.config.replicas@),
            sync_interval: self.config.sync_interval,
            log: events_view(self.events@),
            db: self.db@,
        }
    }
}

/// No address stands twice in the list.
pub open spec fn no_repeat(list: Seq<Seq<char>>) -> bool {
    forall|i: int, j: int| 0 <= i < j < list.len() ==> list[i] != list[j]
}

/// A write statement that was carried out.
pub open spec fn is_accepted(outcome: OutcomeSpec) -> bool {
    ||| outcome == OutcomeSpec::Created
    ||| outcome == OutcomeSpec::Insert(InsertOutcome::Inserted)
    ||| outcome == OutcomeSpec::Update(UpdateOutcome::Updated)
    ||| outcome == OutcomeSpec::Deleted
}

/// The database after the first `count` statements were executed on `db`,
/// one after the other.
pub open spec fn replayed(
    db: Catalog,
    statements: Seq<Seq<char>>,
    count: int,
    order: spec_fn(Seq<char>, Seq<char>) -> NumOrder,
) -> Catalog
    decreases count,
{
    if count <= 0 {
        db
    } else {
        executed(replayed(db, statements, count - 1, order), statements[count - 1], order).0
    }
}

/// The database after the first `count` statements were executed on `db`,
/// one after the other, where `marks` has for each statement the marks that
/// it gave to the rows of its table.
pub open spec fn replayed_with(
    db: Catalog,
    statements: Seq<Seq<char>>,
    count: int,
    marks: Seq<Seq<bool>>,
) -> Catalog
    decreases count,
{
    if count <= 0 {
        db
    } else {
        executed_with(
            replayed_with(db, statements, count - 1, marks),
            statements[count - 1],
            marks[count - 1],
        ).0
    }
}

/// `marks` has for each of the first `count` statements marks that the
/// statement gave to the rows of its table, on the database as the
/// statements before it left it, where it asked `f` for the order of
/// numbers.
pub open spec fn judged_replay<F: Fn(&str, &str) -> NumOrder>(
    f: F,
    db: Catalog,
    statements: Seq<Seq<char>>,
    count: int,
    marks: Seq<Seq<bool>>,
) -> bool
    decreases count,
{
    if count <= 0 {
        true
    } else {
        &&& judged_replay(f, db, statements, count - 1, marks)
        &&& judged_text(
            f,
            replayed_with(db, statements, count - 1, marks),
            statements[count - 1],
            marks[count - 1],
        )
    }
}

/// The replay of the first statements looks at the marks of no later one.
pub proof fn lemma_replay_marks<F: Fn(&str, &str) -> NumOrder>(
    f: F,
    db: Catalog,
    statements: Seq<Seq<char>>,
    count: int,
    a: Seq<Seq<bool>>,
    b: Seq<Seq<bool>>,
)
    requires
        0 <= count <= a.len(),
        count <= b.len(),
        forall|k: int| 0 <= k < count ==> a[k] == b[k],
    ensures
        replayed_with(db, statements, count, a) == replayed_with(db, statements, count, b),
        judged_replay(f, db, statements, count, a) == judged_replay(f, db, statements, count, b),
    decreases count,
{
    if count > 0 {
        lemma_replay_marks(f, db, statements, count - 1, a, b);
    }
}

/// Statements that were replayed with marks that they were given by a
/// function that computes an order leave the database that their replay
/// for that order leaves.
pub proof fn lemma_judged_replay<F: Fn(&str, &str) -> NumOrder>(
    f: F,
    db: Catalog,
    statements: Seq<Seq<char>>,
    count: int,
    marks: Seq<Seq<bool>>,
    order: spec_fn(Seq<char>, Seq<char>) -> NumOrder,
)
    requires
        judged_replay(f, db, statements, count, marks),
        ordered_by(f, order),
    ensures
        replayed_with(db, statements, count, marks) == replayed(db, statements, count, order),
    decreases count,
{
    if count > 0 {
        lemma_judged_replay(f, db, statements, count - 1, marks, order);
        crate::executor::lemma_judged_executed(
            f,
            replayed(db, statements, count - 1, order),
            statements[count - 1],
            marks[count - 1],
            order,
        );
    }
}

/// The events of `events` that a node with `applied` events has not seen.
pub open spec fn unseen(events: Seq<EventSpec>, applied: int) -> Seq<EventSpec> {
    if 0 <= applied < events.len() {
        events.skip(applied)
    } else {
        Seq::empty()
    }
}

/// `a` is the start of `b`.
pub open spec fn is_prefix(a: Seq<EventSpec>, b: Seq<EventSpec>) -> bool {
    a.len() <= b.len() && b.take(a.len() as int) == a
}

impl NodeSpec {
    /// The database is what the replay of the log on an empty database
    /// gives.
    pub open spec fn in_step(self, order: spec_fn(Seq<char>, Seq<char>) -> NumOrder) -> bool {
        self.db == replayed(Seq::empty(), queries(self.log), self.log.len() as int, order)
    }

    /// A primary after the statement that `query` states was executed at the
    /// time `timestamp`: the database is what the statement made of it, and
    /// the log has the event of the statement at its end where it is a write
    /// statement that was carried out.
    pub open spec fn after(
        self,
        query: Seq<char>,
        timestamp: u64,
        order: spec_fn(Seq<char>, Seq<char>) -> NumOrder,
    ) -> NodeSpec {
        let done = executed(self.db, query, order);
        self.with(
            if is_accepted(done.1) {
                self.log.push(EventSpec { timestamp, query })
            } else {
                self.log
            },
            done.0,
        )
    }

    /// A primary after the statement that `query` states was executed at the
    /// time `timestamp`, where `marks` are the marks that the statement gave
    /// to the rows of its table.
    pub open spec fn after_with(self, query: Seq<char>, timestamp: u64, marks: Seq<bool>)
        -> NodeSpec {
        let done = executed_with(self.db, query, marks);
        self.with(
            if is_accepted(done.1) {
                self.log.push(EventSpec { timestamp, query })
            } else {
                self.log
            },
            done.0,
        )
    }

    /// A replica after it was handed `events`: the events that it had not
    /// seen are replayed on its database and stand at the end of its log.
    pub open spec fn applied(
        self,
        events: Seq<EventSpec>,
        order: spec_fn(Seq<char>, Seq<char>) -> NumOrder,
    ) -> NodeSpec {
        let fresh = unseen(events, self.log.len() as int);
        self.with(
            self.log + fresh,
            replayed(self.db, queries(fresh), fresh.len() as int, order),
        )
    }

    /// A replica after it was handed `events`, where `marks` has for each
    /// event that it had not seen the marks that the event's statement gave
    /// to the rows of its table.
    pub open spec fn applied_with(self, events: Seq<EventSpec>, marks: Seq<Seq<bool>>)
        -> NodeSpec {
        let fresh = unseen(events, self.log.len() as int);
        self.with(
            self.log + fresh,
            replayed_with(self.db, queries(fresh), fresh.len() as int, marks),
        )
    }

    /// The node with another log and database.
    pub open spec fn with(self, log: Seq<EventSpec>, db: Catalog) -> NodeSpec {
        NodeSpec { log, db, ..self }
    }
}

/// A statement that was not accepted has changed nothing.
pub proof fn lemma_rejected_changes_nothing(
    db: Catalog,
    sql: Seq<char>,
    order: spec_fn(Seq<char>, Seq<char>) -> NumOrder,
)
    requires
        !is_accepted(executed(db, sql, order).1),
    ensures
        executed(db, sql, order).0 == db,
{
    lemma_entry_facts(db);
    match parsed(sql) {
        Some(statement) => {
            assert(effect(db, statement, order).0 =~= db);
        },
        None => {},
    }
}

/// Whatever statements are executed one after the other, none breaks what
/// the database holds: where no primary key and no value of a unique column
/// occurred twice before, none does after any of them.
pub proof fn lemma_replay_keeps(
    db: Catalog,
    statements: Seq<Seq<char>>,
    count: int,
    order: spec_fn(Seq<char>, Seq<char>) -> NumOrder,
)
    ensures
        kept(db, replayed(db, statements, count, order)),
    decreases count,
{
    if count > 0 {
        lemma_replay_keeps(db, statements, count - 1, order);
        crate::executor::lemma_executed_keeps(
            replayed(db, statements, count - 1, order),
            statements[count - 1],
            order,
        );
    }
}

/// A replica that is handed a start of the primary's log has, after it
/// applied it, a start of the primary's log as its own log: its own log as
/// it was, where it was handed no more than it had, and else all that it
/// was handed.
pub proof fn lemma_applied_prefix(
    log: Seq<EventSpec>,
    shipped: Seq<EventSpec>,
    primary_log: Seq<EventSpec>,
)
    requires
        is_prefix(log, primary_log),
        is_prefix(shipped, primary_log),
    ensures
        is_prefix(log + unseen(shipped, log.len() as int), primary_log),
        shipped.len() >= log.len() ==> log + unseen(shipped, log.len() as int) == shipped,
        shipped.len() < log.len() ==> log + unseen(shipped, log.len() as int) == log,
{
    let after = log + unseen(shipped, log.len() as int);
    if shipped.len() >= log.len() {
        assert(after =~= shipped);
    } else {
        assert(after =~= log);
    }
}

/// A primary whose database is the replay of its log stays so when it
/// executes a statement, and its log only grows at its end.
pub proof fn lemma_after_in_step(
    node: NodeSpec,
    query: Seq<char>,
    timestamp: u64,
    order: spec_fn(Seq<char>, Seq<char>) -> NumOrder,
)
    ensures
        is_prefix(node.log, node.after(query, timestamp, order).log),
        node.in_step(order) ==> node.after(query, timestamp, order).in_step(order),
{
    let done = executed(node.db, query, order);
    let event = EventSpec { timestamp, query };
    if is_accepted(done.1) {
        let log = node.log.push(event);
        assert(log.take(node.log.len() as int) =~= node.log);
        if node.in_step(order) {
            assert(queries(node.log).take(node.log.len() as int) =~= queries(log).take(
                node.log.len() as int,
            ));
            lemma_replay_prefix(
                Seq::empty(),
                queries(node.log),
                queries(log),
                node.log.len() as int,
                order,
            );
            assert(queries(log)[node.log.len() as int] == query);
        }
    } else {
        assert(node.log.take(node.log.len() as int) == node.log);
        lemma_rejected_changes_nothing(node.db, query, order);
    }
}

/// A replica whose database is the replay of its log stays so when it
/// applies events.
pub proof fn lemma_applied_in_step(
    node: NodeSpec,
    events: Seq<EventSpec>,
    order: spec_fn(Seq<char>, Seq<char>) -> NumOrder,
)
    requires
        node.in_step(order),
    ensures
        node.applied(events, order).in_step(order),
{
    let fresh = unseen(events, node.log.len() as int);
    lemma_replay_append(
        Seq::empty(),
        queries(node.log),
        queries(fresh),
        fresh.len() as int,
        order,
    );
    assert(queries(node.log + fresh) =~= queries(node.log) + queries(fresh));
}

/// What happens in a run of a primary and one of its replicas.
pub enum Step {
    /// The primary executes a statement at a time.
    Write { query: Seq<char>, timestamp: u64 },
    /// The replica is handed the first `count` events of the primary's log,
    /// or the whole log where it has fewer.
    Sync { count: nat },
}

/// The first `count` events of a log, or the whole log where it has fewer.
pub open spec fn shipped(log: Seq<EventSpec>, count: nat) -> Seq<EventSpec> {
    if count <= log.len() {
        log.take(count as int)
    } else {
        log
    }
}

/// The primary and the replica after the first `count` steps of a run.
pub open spec fn run(
    primary: NodeSpec,
    replica: NodeSpec,
    steps: Seq<Step>,
    count: int,
    order: spec_fn(Seq<char>, Seq<char>) -> NumOrder,
) -> (NodeSpec, NodeSpec)
    decreases count,
{
    if count <= 0 {
        (primary, replica)
    } else {
        let before = run(primary, replica, steps, count - 1, order);
        match steps[count - 1] {
            Step::Write { query, timestamp } => (
                before.0.after(query, timestamp, order),
                before.1,
            ),
            Step::Sync { count: upto } => (
                before.0,
                before.1.applied(shipped(before.0.log, upto), order),
            ),
        }
    }
}

/// Whatever a primary executes, and whenever its replica is handed however
/// much of the primary's log as it stands then: where both began with an
/// empty log and an empty database, the log of the replica is a start of
/// the log of the primary at every point, and once the replica has all of
/// the log it has the database of the primary, and with it the primary's
/// checksum.
pub proof fn lemma_replicas_converge(
    primary: NodeSpec,
    replica: NodeSpec,
    steps: Seq<Step>,
    count: int,
    order: spec_fn(Seq<char>, Seq<char>) -> NumOrder,
)
    requires
        primary.log.len() == 0 && primary.db.len() == 0,
        replica.log.len() == 0 && replica.db.len() == 0,
        0 <= count <= steps.len(),
    ensures
        ({
            let after = run(primary, replica, steps, count, order);
            &&& after.0.in_step(order)
            &&& after.1.in_step(order)
            &&& is_prefix(after.1.log, after.0.log)
            &&& after.1.log.len() == after.0.log.len() ==> after.1.db == after.0.db
                && checksum_of(after.1.db) == checksum_of(after.0.db)
        }),
    decreases count,
{
    if count > 0 {
        lemma_replicas_converge(primary, replica, steps, count - 1, order);
        let before = run(primary, replica, steps, count - 1, order);
        match steps[count - 1] {
            Step::Write { query, timestamp } => {
                lemma_after_in_step(before.0, query, timestamp, order);
                let grown = before.0.after(query, timestamp, order).log;
                assert(grown.take(before.1.log.len() as int) =~= before.0.log.take(
                    before.1.log.len() as int,
                ));
            },
            Step::Sync { count: upto } => {
                let handed = shipped(before.0.log, upto);
                assert(is_prefix(handed, before.0.log)) by {
                    if upto > before.0.log.len() {
                        assert(before.0.log.take(before.0.log.len() as int) == before.0.log);
                    }
                }
                lemma_applied_in_step(before.1, handed, order);
                lemma_applied_prefix(before.1.log, handed, before.0.log);
            },
        }
        let after = run(primary, replica, steps, count, order);
        if after.1.log.len() == after.0.log.len() {
            assert(after.1.log =~= after.0.log);
        }
    } else {
        assert(primary.db =~= Seq::empty());
        assert(replica.db =~= Seq::empty());
        assert(primary.log.take(0) =~= replica.log);
    }
}

/// A replica that is handed the whole log of its primary has the whole log
/// after it applied it, where its own log was a start of it.
pub proof fn lemma_caught_up(
    primary: NodeSpec,
    replica: NodeSpec,
    order: spec_fn(Seq<char>, Seq<char>) -> NumOrder,
)
    requires
        is_prefix(replica.log, primary.log),
    ensures
        replica.applied(primary.log, order).log == primary.log,
{
    assert(primary.log.take(primary.log.len() as int) == primary.log);
    lemma_applied_prefix(replica.log, primary.log, primary.log);
}

/// Two nodes whose databases are the replay of their logs hold the same
/// database, and so have the same checksum, once their logs are the same.
pub proof fn lemma_convergence(
    primary: NodeSpec,
    replica: NodeSpec,
    order: spec_fn(Seq<char>, Seq<char>) -> NumOrder,
)
    requires
        primary.in_step(order),
        replica.in_step(order),
        replica.log == primary.log,
    ensures
        replica.db == primary.db,
        checksum_of(replica.db) == checksum_of(primary.db),
{
}

/// A database keeps what it holds if nothing is done to it.
pub proof fn lemma_kept_same(db: Catalog)
    ensures
        kept(db, db),
{
}

/// Replaying two lists of statements one after the other is replaying
/// their concatenation.
pub proof fn lemma_replay_append(
    db: Catalog,
    first: Seq<Seq<char>>,
    second: Seq<Seq<char>>,
    count: int,
    order: spec_fn(Seq<char>, Seq<char>) -> NumOrder,
)
    requires
        0 <= count <= second.len(),
    ensures
        replayed(replayed(db, first, first.len() as int, order), second, count, order) == replayed(
            db,
            first + second,
            first.len() + count,
            order,
        ),
    decreases count,
{
    if count > 0 {
        lemma_replay_append(db, first, second, count - 1, order);
        assert((first + second)[first.len() + count - 1] == second[count - 1]);
    } else {
        assert(first.take(first.len() as int) =~= (first + second).take(first.len() as int));
        lemma_replay_prefix(db, first, first + second, first.len() as int, order);
    }
}

/// The replay of the first statements of a list looks at no later one.
pub proof fn lemma_replay_prefix(
    db: Catalog,
    a: Seq<Seq<char>>,
    b: Seq<Seq<char>>,
    count: int,
    order: spec_fn(Seq<char>, Seq<char>) -> NumOrder,
)
    requires
        0 <= count <= a.len(),
        count <= b.len(),
        a.take(count) == b.take(count),
    ensures
        replayed(db, a, count, order) == replayed(db, b, count, order),
    decreases count,
{
    if count > 0 {
        assert(a.take(count - 1) == a.take(count).take(count - 1));
        assert(b.take(count - 1) == b.take(count).take(count - 1));
        lemma_replay_prefix(db, a, b, count - 1, order);
        assert(a[count - 1] == a.take(count)[count - 1]);
        assert(b[count - 1] == b.take(count)[count - 1]);
    }
}

impl Clone for ReplicationEvent {
    fn clone(&self) -> (r: Self)
        ensures
            r@ == self@,
    {
        ReplicationEvent { timestamp: self.timestamp, query: self.query.clone() }
    }
}

impl Clone for ReplicationConfig {
    fn clone(&self) -> (r: Self)
        ensures
            r.is_primary == self.is_primary,
            name_view(r.primary_url) == name_view(self.primary_url),
            texts(r.replicas@) == texts(self.replicas@),
            r.sync_interval == self.sync_interval,
    {
        ReplicationConfig {
            is_primary: self.is_primary,
            primary_url: match &self.primary_url {
                Some(url) => Some(url.clone()),
                None => None,
            },
            replicas: clone_texts(&self.replicas),
            sync_interval: self.sync_interval,
        }
    }
}

impl Default for ReplicationConfig {
    /// The configuration of a primary without replicas.
    fn default() -> (r: Self)
        ensures
            r.is_primary,
            r.primary_url is None,
            r.replicas@.len() == 0,
            r.sync_interval == 5,
    {
        ReplicationConfig::new_primary()
    }
}

impl ReplicationConfig {
    /// The configuration of a primary without replicas.
    pub fn new_primary() -> (r: Self)
        ensures
            r.is_primary,
            r.primary_url is None,
            r.replicas@.len() == 0,
            r.sync_interval == 5,
    {
        ReplicationConfig {
            is_primary: true,
            primary_url: None,
            replicas: Vec::new(),
            sync_interval: 5,
        }
    }

    /// The configuration of a replica of the primary at `primary_url`.
    pub fn new_replica(primary_url: String) -> (r: Self)
        ensures
            !r.is_primary,
            name_view(r.primary_url) == Some(primary_url@),
            r.replicas@.len() == 0,
            r.sync_interval == 5,
    {
        ReplicationConfig {
            is_primary: false,
            primary_url: Some(primary_url),
            replicas: Vec::new(),
            sync_interval: 5,
        }
    }

    /// Adds the address of a replica, unless the list has it.
    pub fn add_replica(&mut self, url: String)
        ensures
            final(self).is_primary == old(self).is_primary,
            name_view(final(self).primary_url) == name_view(old(self).primary_url),
            final(self).sync_interval == old(self).sync_interval,
            texts(final(self).replicas@) == with_address(texts(old(self).replicas@), url@),
            no_repeat(texts(old(self).replicas@)) ==> no_repeat(texts(final(self).replicas@)),
    {
        let ghost before = texts(self.replicas@);
        let mut i: usize = 0;
        while i < self.replicas.len()
            invariant
                i <= self.replicas.len(),
                *self == *old(self),
                before == texts(self.replicas@),
                forall|k: int| 0 <= k < i ==> texts(self.replicas@)[k] != url@,
            decreases self.replicas.len() - i,
        {
            if str_eq(self.replicas[i].as_str(), url.as_str()) {
                assert(texts(self.replicas@)[i as int] == url@);
                assert(before.contains(url@));
                return ;
            }
            i += 1;
        }
        assert(!before.contains(url@));
        self.replicas.push(url);
        assert(texts(self.replicas@) =~= before.push(url@));
    }
}

/// The list with `url` at its end, unless the list has it.
pub open spec fn with_address(list: Seq<Seq<char>>, url: Seq<char>) -> Seq<Seq<char>> {
    if list.contains(url) {
        list
    } else {
        list.push(url)
    }
}

/// A copy of a list of events.
pub fn clone_events(events: &Vec<ReplicationEvent>) -> (r: Vec<ReplicationEvent>)
    ensures
        events_view(r@) == events_view(events@),
{
    let mut out: Vec<ReplicationEvent> = Vec::new();
    let mut i: usize = 0;
    while i < events.len()
        invariant
            i <= events.len(),
            out@.len() == i,
            forall|k: int| 0 <= k < i ==> (#[trigger] out@[k])@ == events@[k]@,
        decreases events.len() - i,
    {
        out.push(events[i].clone());
        i += 1;
    }
    assert(events_view(out@) =~= events_view(events@));
    out
}

impl ReplicationManager {
    /// A node with an empty log that holds `db`.
    pub fn new(config: ReplicationConfig, db: Database) -> (r: Self)
        ensures
            r@ == (NodeSpec {
                is_primary: config.is_primary,
                primary_url: name_view(config.primary_url),
                replicas: texts(config.replicas@),
                sync_interval: config.sync_interval,
                log: Seq::empty(),
                db: db@,
            }),
    {
        let r = ReplicationManager { config, events: Vec::new(), db };
        assert(events_view(r.events@) =~= Seq::empty());
        r
    }

    /// Whether the node is the primary.
    pub fn is_primary(&self) -> (r: bool)
        ensures
            r == self@.is_primary,
    {
        self.config.is_primary
    }

    /// The log of the node.
    pub fn get_events(&self) -> (r: Vec<ReplicationEvent>)
        ensures
            events_view(r@) == self@.log,
    {
        clone_events(&self.events)
    }

    /// The database of the node.
    pub fn database(&self) -> (r: &Database)
        ensures
            r@ == self@.db,
    {
        &self.db
    }

    /// The checksum of the node's database.
    pub fn checksum(&self) -> (r: String)
        ensures
            r@ == checksum_of(self@.db),
    {
        checksum(&self.db)
    }

    /// Adds the address of a replica to which the primary sends its events,
    /// unless it has it.
    pub fn add_replica(&mut self, url: String)
        ensures
            final(self)@ == (NodeSpec {
                replicas: with_address(old(self)@.replicas, url@),
                ..old(self)@
            }),
            no_repeat(old(self)@.replicas) ==> no_repeat(final(self)@.replicas),
    {
        self.config.add_replica(url);
    }

    /// On a primary, appends the event of `query` at the time `timestamp` to
    /// the log and returns the addresses of the replicas to which the event
    /// is to be sent. A replica does nothing and returns no address.
    pub fn record_event(&mut self, query: String, timestamp: u64) -> (targets: Vec<String>)
        ensures
            old(self)@.is_primary ==> final(self)@ == old(self)@.with(
                old(self)@.log.push(EventSpec { timestamp, query: query@ }),
                old(self)@.db,
            ) && texts(targets@) == old(self)@.replicas,
            !old(self)@.is_primary ==> final(self)@ == old(self)@ && targets@.len() == 0,
    {
        if !self.config.is_primary {
            return Vec::new();
        }
        let ghost event = EventSpec { timestamp, query: query@ };
        self.events.push(ReplicationEvent { timestamp, query });
        assert(events_view(self.events@) =~= events_view(old(self).events@).push(event));
        clone_texts(&self.config.replicas)
    }

    /// The addresses to which a primary sends its whole log; none on a
    /// replica.
    pub fn propagation_targets(&self) -> (targets: Vec<String>)
        ensures
            texts(targets@) == if self@.is_primary {
                self@.replicas
            } else {
                Seq::empty()
            },
    {
        if self.config.is_primary {
            clone_texts(&self.config.replicas)
        } else {
            let targets: Vec<String> = Vec::new();
            assert(texts(targets@) =~= Seq::empty());
            targets
        }
    }

    /// What a replica needs to catch up with its primary; nothing on a
    /// primary, or on a replica that knows no primary.
    pub fn sync_plan(&self) -> (r: Option<SyncPlan>)
        ensures
            match r {
                Some(plan) => !self@.is_primary && self@.primary_url == Some(plan.primary_url@)
                    && plan.interval == self@.sync_interval,
                None => self@.is_primary || self@.primary_url is None,
            },
    {
        if self.config.is_primary {
            return None;
        }
        match &self.config.primary_url {
            Some(url) => Some(
                SyncPlan { primary_url: url.clone(), interval: self.config.sync_interval },
            ),
            None => None,
        }
    }

    /// On a primary, executes the statement that `query` states and, where
    /// it is a write statement that was carried out, appends its event at
    /// the time `timestamp` to the log and hands the event back with the
    /// addresses of the replicas to which it is to be sent. A replica
    /// refuses.
    pub fn execute<F: Fn(&str, &str) -> NumOrder>(
        &mut self,
        query: String,
        timestamp: u64,
        float_order: &F,
    ) -> (r: Result<Written, ReplicationError>)
        requires
            compares_numbers(*float_order),
        ensures
            !old(self)@.is_primary ==> r is Err && r->Err_0 == ReplicationError::RoleViolation
                && final(self)@ == old(self)@,
            old(self)@.is_primary ==> r is Ok && r->Ok_0.records(
                query@,
                timestamp,
                old(self)@.replicas,
            ),
            old(self)@.is_primary ==> exists|marks: Seq<bool>| #[trigger]
                judged_text(*float_order, old(self)@.db, query@, marks) && r->Ok_0.outcome@
                    == executed_with(old(self)@.db, query@, marks).1 && final(self)@ == old(self)@.after_with(query@, timestamp, marks),
            forall|order: spec_fn(Seq<char>, Seq<char>) -> NumOrder| #[trigger]
                ordered_by(*float_order, order) && old(self)@.is_primary ==> r->Ok_0.outcome@
                    == executed(old(self)@.db, query@, order).1 && final(self)@ == old(self)@.after(
                    query@,
                    timestamp,
                    order,
                ),
            forall|order: spec_fn(Seq<char>, Seq<char>) -> NumOrder|
                !text_asks_order(old(self)@.db, query@) && old(self)@.is_primary
                    ==> r->Ok_0.outcome@ == executed(old(self)@.db, query@, order).1 && final(self)@
                    == #[trigger] old(self)@.after(query@, timestamp, order),
            forall|order: spec_fn(Seq<char>, Seq<char>) -> NumOrder| #[trigger]
                ordered_by(*float_order, order) && old(self)@.in_step(order)
                    ==> final(self)@.in_step(order),
            kept(old(self)@.db, final(self)@.db),
            is_prefix(old(self)@.log, final(self)@.log),
    {
        if !self.config.is_primary {
            assert(old(self)@.log.take(old(self)@.log.len() as int) == old(self)@.log);
            return Err(ReplicationError::RoleViolation);
        }
        let ghost before = self@;
        let ghost event = EventSpec { timestamp, query: query@ };
        let outcome = execute_sql(&mut self.db, query.as_str(), float_order);
        let ghost given = choose|marks: Seq<bool>| #[trigger]
            judged_text(*float_order, before.db, query@, marks) && (self.db@, outcome@)
                == executed_with(before.db, query@, marks);
        let accepted = match &outcome {
            Outcome::Created => true,
            Outcome::Insert(InsertOutcome::Inserted) => true,
            Outcome::Update(UpdateOutcome::Updated) => true,
            Outcome::Deleted => true,
            _ => false,
        };
        assert(accepted == is_accepted(outcome@));
        let mut recorded: Option<ReplicationEvent> = None;
        let mut targets: Vec<String> = Vec::new();
        if accepted {
            recorded = Some(ReplicationEvent { timestamp, query: query.clone() });
            targets = clone_texts(&self.config.replicas);
            self.events.push(ReplicationEvent { timestamp, query });
            assert(events_view(self.events@) =~= before.log.push(event));
            assert(self@.log.take(before.log.len() as int) =~= before.log);
        } else {
            assert(before.log.take(before.log.len() as int) == before.log);
        }
        proof {
            assert forall|order: spec_fn(Seq<char>, Seq<char>) -> NumOrder| #[trigger]
                ordered_by(*float_order, order) && before.in_step(order) implies self@.in_step(
                order,
            ) by {
                lemma_after_in_step(before, query@, timestamp, order);
            }
        }
        assert(self@ == before.after_with(query@, timestamp, given));
        Ok(Written { outcome, recorded, targets })
    }

    /// On a replica, replays the events of `events` that lie beyond the
    /// number of events in the log, in their order, and appends them to the
    /// log. A primary refuses.
    pub fn apply_events<F: Fn(&str, &str) -> NumOrder>(
        &mut self,
        events: Vec<ReplicationEvent>,
        float_order: &F,
    ) -> (r: Result<(), ReplicationError>)
        requires
            compares_numbers(*float_order),
        ensures
            old(self)@.is_primary ==> r == Err::<(), ReplicationError>(
                ReplicationError::RoleViolation,
            ) && final(self)@ == old(self)@,
            !old(self)@.is_primary ==> r is Ok && final(self)@.log == old(self)@.log + unseen(
                events_view(events@),
                old(self)@.log.len() as int,
            ),
            !old(self)@.is_primary ==> exists|marks: Seq<Seq<bool>>| #[trigger]
                judged_replay(
                    *float_order,
                    old(self)@.db,
                    queries(unseen(events_view(events@), old(self)@.log.len() as int)),
                    unseen(events_view(events@), old(self)@.log.len() as int).len() as int,
                    marks,
                ) && final(self)@ == old(self)@.applied_with(events_view(events@), marks),
            forall|order: spec_fn(Seq<char>, Seq<char>) -> NumOrder| #[trigger]
                ordered_by(*float_order, order) && !old(self)@.is_primary ==> final(self)@
                    == old(self)@.applied(events_view(events@), order),
            forall|order: spec_fn(Seq<char>, Seq<char>) -> NumOrder| #[trigger]
                ordered_by(*float_order, order) && old(self)@.in_step(order)
                    ==> final(self)@.in_step(order),
            kept(old(self)@.db, final(self)@.db),
    {
        if self.config.is_primary {
            return Err(ReplicationError::RoleViolation);
        }
        let ghost before = self@;
        let ghost given = events_view(events@);
        let ghost fresh = unseen(given, before.log.len() as int);
        let start = self.events.len();
        let ghost mut all = Seq::<Seq<bool>>::empty();
        if start >= events.len() {
            proof {
                assert(before.log + fresh =~= before.log);
                lemma_kept_same(before.db);
                assert(judged_replay(*float_order, before.db, queries(fresh), 0, all));
                assert(self@ == before.applied_with(given, all));
            }
            return Ok(());
        }
        let mut i: usize = start;
        proof {
            assert(before.log + fresh.take(0) =~= before.log);
            lemma_kept_same(before.db);
        }
        while i < events.len()
            invariant
                start <= i <= events.len(),
                start == before.log.len(),
                start < events.len(),
                given == events_view(events@),
                fresh == given.skip(start as int),
                compares_numbers(*float_order),
                self@ == before.with(self@.log, self@.db),
                self@.log == before.log + fresh.take(i - start),
                kept(before.db, self@.db),
                all.len() == i - start,
                judged_replay(*float_order, before.db, queries(fresh), i - start, all),
                self@.db == replayed_with(before.db, queries(fresh), i - start, all),
            decreases events.len() - i,
        {
            let ghost db_before = self@.db;
            let ghost log_before = self@.log;
            let ghost all_before = all;
            let outcome = execute_sql(&mut self.db, events[i].query.as_str(), float_order);
            self.events.push(events[i].clone());
            proof {
                let marks = choose|marks: Seq<bool>| #[trigger]
                    judged_text(*float_order, db_before, events@[i as int].query@, marks) && (
                        self.db@,
                        outcome@,
                    ) == executed_with(db_before, events@[i as int].query@, marks);
                all = all_before.push(marks);
                lemma_replay_marks(
                    *float_order,
                    before.db,
                    queries(fresh),
                    i - start,
                    all_before,
                    all,
                );
                assert(all[i - start] == marks);
                assert(fresh[i - start] == events@[i as int]@);
                assert(self@.log =~= log_before.push(events@[i as int]@));
                assert(fresh.take(i + 1 - start) =~= fresh.take(i - start).push(
                    fresh[i - start],
                ));
                assert(self@.log =~= before.log + fresh.take(i + 1 - start));
                assert(queries(fresh)[i - start] == events@[i as int].query@);
            }
            i += 1;
        }
        proof {
            assert(fresh.take(fresh.len() as int) == fresh);
            assert(self@ == before.applied_with(given, all));
            assert forall|order: spec_fn(Seq<char>, Seq<char>) -> NumOrder| #[trigger]
                ordered_by(*float_order, order) implies self@ == before.applied(given, order) by {
                lemma_judged_replay(
                    *float_order,
                    before.db,
                    queries(fresh),
                    fresh.len() as int,
                    all,
                    order,
                );
            }
            assert forall|order: spec_fn(Seq<char>, Seq<char>) -> NumOrder| #[trigger]
                ordered_by(*float_order, order) && before.in_step(order) implies self@.in_step(
                order,
            ) by {
                lemma_applied_in_step(before, given, order);
            }
        }
        Ok(())
    }
}

} // verus!

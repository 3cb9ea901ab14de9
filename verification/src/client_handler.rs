//! The state machine of one connection: which commands it accepts in which
//! mode, what each one does to the keyspace and to the registry, and what
//! the connection has to do next.

use vstd::prelude::*;
use tokio::sync::mpsc::UnboundedReceiver;
use crate::clock::now_millis;
use crate::commands::{
    arity_error, arity_error_reply, bulk_reply, error_reply, get, get_reply, incr, incr_result, ok,
    set_result, simple_reply, type_of, type_reply, Keyspace,
};
use crate::db::DB;
use crate::list_commands::{
    blpop, blpop_spec, length_reply, length_value, llen, llen_reply, lpop, lpop_result, lrange,
    lrange_reply, push, push_spec, waited_reply, waited_value, Blpop, BlpopView, Timeout,
};
use crate::parser::ParseError;
use crate::registry::{
    channels_of, subscribers, with_subscription, without_connection, without_subscription,
    Registry, RegistryView,
};
use crate::stream::StreamEntry;
use crate::stream_commands::{
    asks_to_wait, read_waited_reply, read_waited_value, xadd, xadd_spec, xrange, xrange_reply,
    xread, xread_now, xread_spec, Xread, XreadView,
};
use crate::text::{byte_strings, bytes_of, is_text, push_bytes, push_text, text, to_upper, upper};
use crate::values::{lemma_values_of, string_of, values_of, RedisValue, Value};

verus! {

/// What a command works on: the keyspace, the registry, and whether the
/// connection is in subscribe mode.
pub struct World {
    pub db: Keyspace,
    pub registry: RegistryView,
    pub subscribe_mode: bool,
}

/// What running a command leads to.
pub enum Outcome {
    /// The reply is ready.
    Reply(RedisValue),
    /// A `BLPOP` found nothing: the reply depends on what arrives at
    /// `receiver` within the time-out.
    AwaitList { key: Vec<u8>, receiver: UnboundedReceiver<Vec<u8>>, timeout: Timeout },
    /// An `XREAD` found nothing: the reply depends on what arrives first at
    /// one of the `receivers`, which stand in the order of the `keys`,
    /// within the time-out.
    AwaitStreams {
        keys: Vec<Vec<u8>>,
        receivers: Vec<UnboundedReceiver<StreamEntry>>,
        timeout: Timeout,
    },
}

/// The content of what running a command leads to.
pub enum OutcomeView {
    Reply(Value),
    AwaitList { key: Seq<u8>, timeout: Timeout },
    AwaitStreams { keys: Seq<Seq<u8>>, receivers: nat, timeout: Timeout },
}

impl View for Outcome {
    type V = OutcomeView;

    open spec fn view(&self) -> OutcomeView {
        match self {
            Outcome::Reply(value) => OutcomeView::Reply(value@),
            Outcome::AwaitList { key, receiver, timeout } => OutcomeView::AwaitList {
                key: key@,
                timeout: *timeout,
            },
            Outcome::AwaitStreams { keys, receivers, timeout } => OutcomeView::AwaitStreams {
                keys: byte_strings(keys@),
                receivers: receivers@.len(),
                timeout: *timeout,
            },
        }
    }
}

/// The reply to `PING`.
pub open spec fn ping_reply(subscribe_mode: bool) -> Value {
    if subscribe_mode {
        Value::Array(seq![Value::BulkString(text("pong")), Value::BulkString(text(""))])
    } else {
        Value::SimpleString(text("PONG"))
    }
}

/// The reply to `ECHO`.
pub open spec fn echo_reply(args: Seq<Seq<u8>>) -> Value {
    if args.len() != 2 {
        arity_error("ECHO")
    } else {
        Value::BulkString(args[1])
    }
}

/// The reply to a command that the server does not know.
pub open spec fn unknown_command(name: Seq<u8>) -> Value {
    Value::Error(text("ERR unknown command '") + name + text("'"))
}

/// The reply to a command that is not accepted in subscribe mode.
pub open spec fn not_in_subscribe_mode(name: Seq<u8>) -> Value {
    Value::Error(text("ERR Can't execute '") + name + text("' in subscribed mode"))
}

/// The reply to `SUBSCRIBE` and `UNSUBSCRIBE`: the word, the channel, and
/// the number of channels that the connection listens to afterwards.
pub open spec fn subscription_reply(word: &str, channel: Seq<u8>, count: nat) -> Value {
    Value::Array(
        seq![Value::BulkString(text(word)), Value::BulkString(channel), length_value(count)],
    )
}

/// A command that answers at once and changes nothing.
pub open spec fn answers(before: World, after: World, outcome: OutcomeView, reply: Value) -> bool {
    after == before && outcome == OutcomeView::Reply(reply)
}

/// A command that answers at once and changes at most the keyspace.
pub open spec fn changes_db(
    before: World,
    after: World,
    outcome: OutcomeView,
    result: (Keyspace, Value),
) -> bool {
    &&& after.db == result.0
    &&& after.registry == before.registry
    &&& after.subscribe_mode == before.subscribe_mode
    &&& outcome == OutcomeView::Reply(result.1)
}

/// Whether `after` differs from `before` in the keyspace at most.
pub open spec fn same_but_db(before: World, after: World) -> bool {
    after.registry == before.registry && after.subscribe_mode == before.subscribe_mode
}

/// The outcome of a `BLPOP` as the list commands see it.
pub open spec fn as_blpop(outcome: OutcomeView) -> BlpopView {
    match outcome {
        OutcomeView::Reply(value) => BlpopView::Reply(value),
        OutcomeView::AwaitList { key, timeout } => BlpopView::Wait { timeout },
        OutcomeView::AwaitStreams { keys, receivers, timeout } => BlpopView::Wait { timeout },
    }
}

/// The outcome of an `XREAD` as the stream commands see it.
pub open spec fn as_xread(outcome: OutcomeView) -> XreadView {
    match outcome {
        OutcomeView::Reply(value) => XreadView::Reply(value),
        OutcomeView::AwaitStreams { keys, receivers, timeout } => XreadView::Wait {
            keys,
            receivers,
            timeout,
        },
        OutcomeView::AwaitList { key, timeout } => XreadView::Wait {
            keys: seq![key],
            receivers: 0,
            timeout,
        },
    }
}

/// `SUBSCRIBE channel`.
pub open spec fn subscribe_spec(
    id: u32,
    args: Seq<Seq<u8>>,
    before: World,
    after: World,
    outcome: OutcomeView,
) -> bool {
    if args.len() != 2 {
        answers(before, after, outcome, arity_error("SUBSCRIBE"))
    } else {
        &&& after.db == before.db
        &&& after.registry.senders == before.registry.senders
        &&& after.registry.subscriptions == with_subscription(
            before.registry.subscriptions,
            id,
            args[1],
        )
        &&& after.subscribe_mode
        &&& outcome == OutcomeView::Reply(
            subscription_reply(
                "subscribe",
                args[1],
                channels_of(after.registry.subscriptions, id).len(),
            ),
        )
    }
}

/// `UNSUBSCRIBE channel`.
pub open spec fn unsubscribe_spec(
    id: u32,
    args: Seq<Seq<u8>>,
    before: World,
    after: World,
    outcome: OutcomeView,
) -> bool {
    if args.len() != 2 {
        answers(before, after, outcome, arity_error("UNSUBSCRIBE"))
    } else {
        &&& after.db == before.db
        &&& after.registry.senders == before.registry.senders
        &&& after.registry.subscriptions == without_subscription(
            before.registry.subscriptions,
            id,
            args[1],
        )
        &&& after.subscribe_mode == (before.subscribe_mode && channels_of(
            after.registry.subscriptions,
            id,
        ).len() != 0)
        &&& outcome == OutcomeView::Reply(
            subscription_reply(
                "unsubscribe",
                args[1],
                channels_of(after.registry.subscriptions, id).len(),
            ),
        )
    }
}

/// The reply to `PUBLISH channel message`: the number of subscribers.
pub open spec fn publish_reply(args: Seq<Seq<u8>>, registry: RegistryView) -> Value {
    if args.len() != 3 {
        arity_error("PUBLISH")
    } else {
        length_value(subscribers(registry.subscriptions, args[1]).len())
    }
}

/// The commands that the server knows.
#[derive(Debug, Clone, Copy, PartialEq, Eq, Structural)]
pub enum Command {
    Ping,
    Echo,
    SetValue,
    GetValue,
    TypeOf,
    Incr,
    Rpush,
    Lpush,
    Llen,
    Lrange,
    Lpop,
    Blpop,
    Xadd,
    Xrange,
    Xread,
    Subscribe,
    Unsubscribe,
    Publish,
    Multi,
    Exec,
    Discard,
    Unknown,
}

/// The command that a name in upper case stands for.
pub open spec fn command_of(name: Seq<u8>) -> Command {
    if name == text("PING") {
        Command::Ping
    } else if name == text("ECHO") {
        Command::Echo
    } else if name == text("SET") {
        Command::SetValue
    } else if name == text("GET") {
        Command::GetValue
    } else if name == text("TYPE") {
        Command::TypeOf
    } else if name == text("INCR") {
        Command::Incr
    } else if name == text("RPUSH") {
        Command::Rpush
    } else if name == text("LPUSH") {
        Command::Lpush
    } else if name == text("LLEN") {
        Command::Llen
    } else if name == text("LRANGE") {
        Command::Lrange
    } else if name == text("LPOP") {
        Command::Lpop
    } else if name == text("BLPOP") {
        Command::Blpop
    } else if name == text("XADD") {
        Command::Xadd
    } else if name == text("XRANGE") {
        Command::Xrange
    } else if name == text("XREAD") {
        Command::Xread
    } else if name == text("SUBSCRIBE") {
        Command::Subscribe
    } else if name == text("UNSUBSCRIBE") {
        Command::Unsubscribe
    } else if name == text("PUBLISH") {
        Command::Publish
    } else if name == text("MULTI") {
        Command::Multi
    } else if name == text("EXEC") {
        Command::Exec
    } else if name == text("DISCARD") {
        Command::Discard
    } else {
        Command::Unknown
    }
}

/// Finds the command that a name in upper case stands for.
pub fn classify(name: &[u8]) -> (command: Command)
    ensures
        command == command_of(name@),
{
    if is_text(name, "PING") {
        Command::Ping
    } else if is_text(name, "ECHO") {
        Command::Echo
    } else if is_text(name, "SET") {
        Command::SetValue
    } else if is_text(name, "GET") {
        Command::GetValue
    } else if is_text(name, "TYPE") {
        Command::TypeOf
    } else if is_text(name, "INCR") {
        Command::Incr
    } else if is_text(name, "RPUSH") {
        Command::Rpush
    } else if is_text(name, "LPUSH") {
        Command::Lpush
    } else if is_text(name, "LLEN") {
        Command::Llen
    } else if is_text(name, "LRANGE") {
        Command::Lrange
    } else if is_text(name, "LPOP") {
        Command::Lpop
    } else if is_text(name, "BLPOP") {
        Command::Blpop
    } else if is_text(name, "XADD") {
        Command::Xadd
    } else if is_text(name, "XRANGE") {
        Command::Xrange
    } else if is_text(name, "XREAD") {
        Command::Xread
    } else if is_text(name, "SUBSCRIBE") {
        Command::Subscribe
    } else if is_text(name, "UNSUBSCRIBE") {
        Command::Unsubscribe
    } else if is_text(name, "PUBLISH") {
        Command::Publish
    } else if is_text(name, "MULTI") {
        Command::Multi
    } else if is_text(name, "EXEC") {
        Command::Exec
    } else if is_text(name, "DISCARD") {
        Command::Discard
    } else {
        Command::Unknown
    }
}

/// What the command `name` with the arguments `args`, run at the time
/// `now` for the connection `id`, does to the world, and what it leads to.
///
/// A command that may not block answers at once in every case. The words
/// of a transaction are no commands to run: here they are unknown.
#[verifier::opaque]
pub open spec fn run_spec(
    id: u32,
    name: Seq<u8>,
    args: Seq<Seq<u8>>,
    now: u64,
    may_block: bool,
    before: World,
    after: World,
    outcome: OutcomeView,
) -> bool {
    match command_of(name) {
        Command::Ping => answers(before, after, outcome, ping_reply(before.subscribe_mode)),
        Command::Echo => answers(before, after, outcome, echo_reply(args)),
        Command::SetValue => changes_db(before, after, outcome, set_result(args, now, before.db)),
        Command::GetValue => answers(before, after, outcome, get_reply(args, now, before.db)),
        Command::TypeOf => answers(before, after, outcome, type_reply(args, now, before.db)),
        Command::Incr => changes_db(before, after, outcome, incr_result(args, now, before.db)),
        Command::Rpush => same_but_db(before, after) && outcome is Reply && push_spec(
            "RPUSH",
            false,
            args,
            now,
            before.db,
            after.db,
            outcome->Reply_0,
        ),
        Command::Lpush => same_but_db(before, after) && outcome is Reply && push_spec(
            "LPUSH",
            true,
            args,
            now,
            before.db,
            after.db,
            outcome->Reply_0,
        ),
        Command::Llen => answers(before, after, outcome, llen_reply(args, now, before.db)),
        Command::Lrange => answers(before, after, outcome, lrange_reply(args, now, before.db)),
        Command::Lpop => changes_db(before, after, outcome, lpop_result(args, now, before.db)),
        Command::Blpop => {
            &&& same_but_db(before, after)
            &&& !(outcome is AwaitStreams)
            &&& outcome is AwaitList ==> args.len() == 3 && outcome->AwaitList_key == args[1]
            &&& blpop_spec(args, now, may_block, before.db, after.db, as_blpop(outcome))
        },
        Command::Xadd => same_but_db(before, after) && outcome is Reply && xadd_spec(
            args,
            now,
            before.db,
            after.db,
            outcome->Reply_0,
        ),
        Command::Xrange => answers(before, after, outcome, xrange_reply(args, now, before.db)),
        Command::Xread => {
            &&& same_but_db(before, after)
            &&& !(outcome is AwaitList)
            &&& xread_spec(args, now, may_block, before.db, after.db, as_xread(outcome))
        },
        Command::Subscribe => subscribe_spec(id, args, before, after, outcome),
        Command::Unsubscribe => unsubscribe_spec(id, args, before, after, outcome),
        Command::Publish => answers(before, after, outcome, publish_reply(args, before.registry)),
        _ => answers(before, after, outcome, unknown_command(name)),
    }
}

/// Whether a command may change the keyspace, the registry or the mode of
/// the connection, and so needs them for itself alone. Every other command
/// only reads, and can share them with other readers.
pub open spec fn needs_exclusive(name: Seq<u8>, args: Seq<Seq<u8>>) -> bool {
    match command_of(name) {
        Command::SetValue => true,
        Command::Incr => true,
        Command::Rpush => true,
        Command::Lpush => true,
        Command::Lpop => true,
        Command::Blpop => true,
        Command::Xadd => true,
        Command::Subscribe => true,
        Command::Unsubscribe => true,
        Command::Xread => asks_to_wait(args),
        _ => false,
    }
}

/// The content of a queued command: its name and its arguments.
pub open spec fn queued_view(queued: Seq<(Vec<u8>, Vec<Vec<u8>>)>) -> Seq<(Seq<u8>, Seq<Seq<u8>>)> {
    Seq::new(queued.len(), |i: int| (queued[i].0@, byte_strings(queued[i].1@)))
}

/// The state of a connection.
pub struct HandlerView {
    /// The id that the connection got when it was accepted.
    pub id: u32,
    /// Whether the connection listens to a channel.
    pub subscribe_mode: bool,
    /// Whether the connection is between `MULTI` and `EXEC` or `DISCARD`.
    pub multi_mode: bool,
    /// The commands queued since `MULTI`, each with its name.
    pub queued: Seq<(Seq<u8>, Seq<Seq<u8>>)>,
}

/// The per-connection state machine.
pub struct ClientHandler {
    id: u32,
    subscribe_mode: bool,
    multi_mode: bool,
    queued_commands: Vec<(Vec<u8>, Vec<Vec<u8>>)>,
}

impl View for ClientHandler {
    type V = HandlerView;

    closed spec fn view(&self) -> HandlerView {
        HandlerView {
            id: self.id,
            subscribe_mode: self.subscribe_mode,
            multi_mode: self.multi_mode,
            queued: queued_view(self.queued_commands@),
        }
    }
}

/// The world that a connection in the given state sees.
pub open spec fn world_of(handler: HandlerView, db: Keyspace, registry: RegistryView) -> World {
    World { db, registry, subscribe_mode: handler.subscribe_mode }
}

/// Builds the reply to `SUBSCRIBE` and `UNSUBSCRIBE`.
fn build_subscription_reply(word: &str, channel: &[u8], count: usize) -> (reply: RedisValue)
    ensures
        reply@ == subscription_reply(word, channel@, count as nat),
{
    let mut parts: Vec<RedisValue> = Vec::new();
    parts.push(simple_bulk(word));
    parts.push(bulk_reply(channel));
    parts.push(length_reply(count));
    let reply = RedisValue::Array(parts);
    proof {
        lemma_values_of(parts@);
        assert(reply@->Array_0 =~= subscription_reply(word, channel@, count as nat)->Array_0);
    }
    reply
}

/// Builds a bulk string with the given text.
fn simple_bulk(word: &str) -> (reply: RedisValue)
    ensures
        reply@ == Value::BulkString(text(word)),
{
    RedisValue::BulkString(bytes_of(word))
}

/// Builds an error reply that quotes a name between two pieces of text.
fn quoting_error(before: &str, name: &[u8], after: &str) -> (reply: RedisValue)
    ensures
        reply@ == Value::Error(text(before) + name@ + text(after)),
{
    let mut message: Vec<u8> = Vec::new();
    push_text(&mut message, before);
    push_bytes(&mut message, name);
    push_text(&mut message, after);
    assert(message@ =~= text(before) + name@ + text(after));
    RedisValue::Error(message)
}

impl ClientHandler {
    /// The state of a connection that has just been accepted.
    pub fn new(id: u32) -> (handler: Self)
        ensures
            handler@ == (HandlerView {
                id,
                subscribe_mode: false,
                multi_mode: false,
                queued: Seq::empty(),
            }),
    {
        let handler = ClientHandler {
            id,
            subscribe_mode: false,
            multi_mode: false,
            queued_commands: Vec::new(),
        };
        assert(queued_view(handler.queued_commands@) =~= Seq::empty());
        handler
    }

    /// The id of the connection.
    pub fn id(&self) -> (id: u32)
        ensures
            id == self@.id,
    {
        self.id
    }

    /// Whether the connection is in subscribe mode.
    pub fn in_subscribe_mode(&self) -> (res: bool)
        ensures
            res == self@.subscribe_mode,
    {
        self.subscribe_mode
    }

    /// Whether the connection is queuing commands.
    pub fn in_multi_mode(&self) -> (res: bool)
        ensures
            res == self@.multi_mode,
    {
        self.multi_mode
    }

    /// Answers a command that only reads.
    ///
    /// `name` is the command's name in upper case, `args` are its
    /// arguments with the name as it was sent at their head. Gives `None`
    /// for a command that needs the keyspace and the registry for itself.
    pub fn run_shared(
        &self,
        db: &DB,
        registry: &Registry,
        now: u64,
        name: &[u8],
        args: &Vec<Vec<u8>>,
    ) -> (res: Option<RedisValue>)
        ensures
            res is None <==> needs_exclusive(name@, byte_strings(args@)),
            res matches Some(reply) ==> forall|may_block: bool|
                #[trigger] run_spec(
                    self@.id,
                    name@,
                    byte_strings(args@),
                    now,
                    may_block,
                    world_of(self@, db@, registry@),
                    world_of(self@, db@, registry@),
                    OutcomeView::Reply(reply@),
                ),
    {
        reveal(run_spec);
        match classify(name) {
            Command::Ping => {
                if self.subscribe_mode {
                    let mut parts: Vec<RedisValue> = Vec::new();
                    parts.push(simple_bulk("pong"));
                    parts.push(simple_bulk(""));
                    let reply = RedisValue::Array(parts);
                    proof {
                        lemma_values_of(parts@);
                        assert(reply@->Array_0 =~= ping_reply(true)->Array_0);
                    }
                    Some(reply)
                } else {
                    Some(simple_reply("PONG"))
                }
            },
            Command::Echo => {
                if args.len() != 2 {
                    Some(arity_error_reply("ECHO"))
                } else {
                    Some(bulk_reply(args[1].as_slice()))
                }
            },
            Command::GetValue => Some(get(db, args, now)),
            Command::TypeOf => Some(type_of(db, args, now)),
            Command::Llen => Some(llen(db, args, now)),
            Command::Lrange => Some(lrange(db, args, now)),
            Command::Xrange => Some(xrange(db, args, now)),
            Command::Xread => xread_now(db, args, now),
            Command::Publish => {
                if args.len() != 3 {
                    Some(arity_error_reply("PUBLISH"))
                } else {
                    let count = registry.publish(args[1].as_slice(), args[2].as_slice());
                    Some(length_reply(count))
                }
            },
            Command::Multi | Command::Exec | Command::Discard | Command::Unknown => Some(
                quoting_error("ERR unknown command '", name, "'"),
            ),
            _ => None,
        }
    }

    /// Runs one command against the keyspace and the registry.
    ///
    /// `name` is the command's name in upper case, `args` are its
    /// arguments with the name as it was sent at their head. A command that
    /// may not block never waits: it answers nil where it would have
    /// waited.
    pub fn run(
        &mut self,
        db: &mut DB,
        registry: &mut Registry,
        now: u64,
        name: &[u8],
        args: &Vec<Vec<u8>>,
        may_block: bool,
    ) -> (outcome: Outcome)
        ensures
            run_spec(
                old(self)@.id,
                name@,
                byte_strings(args@),
                now,
                may_block,
                world_of(old(self)@, old(db)@, old(registry)@),
                world_of(final(self)@, final(db)@, final(registry)@),
                outcome@,
            ),
            final(self)@.id == old(self)@.id,
            final(self)@.multi_mode == old(self)@.multi_mode,
            final(self)@.queued == old(self)@.queued,
            !may_block ==> outcome is Reply,
    {
        match self.run_shared(&*db, &*registry, now, name, args) {
            Some(reply) => {
                return Outcome::Reply(reply);
            },
            None => {},
        }
        reveal(run_spec);
        match classify(name) {
            Command::SetValue => Outcome::Reply(crate::commands::set(db, args, now)),
            Command::Incr => Outcome::Reply(incr(db, args, now)),
            Command::Rpush => Outcome::Reply(push(db, "RPUSH", false, args, now)),
            Command::Lpush => Outcome::Reply(push(db, "LPUSH", true, args, now)),
            Command::Lpop => Outcome::Reply(lpop(db, args, now)),
            Command::Blpop => {
                match blpop(db, args, now, may_block) {
                    Blpop::Reply(reply) => Outcome::Reply(reply),
                    Blpop::Wait { receiver, timeout } => Outcome::AwaitList {
                        key: args[1].clone(),
                        receiver,
                        timeout,
                    },
                }
            },
            Command::Xadd => Outcome::Reply(xadd(db, args, now)),
            Command::Subscribe => {
                if args.len() != 2 {
                    Outcome::Reply(arity_error_reply("SUBSCRIBE"))
                } else {
                    let count = registry.subscribe(self.id, args[1].clone());
                    self.subscribe_mode = true;
                    Outcome::Reply(build_subscription_reply("subscribe", args[1].as_slice(), count))
                }
            },
            Command::Unsubscribe => {
                if args.len() != 2 {
                    Outcome::Reply(arity_error_reply("UNSUBSCRIBE"))
                } else {
                    let remaining = registry.unsubscribe(self.id, args[1].as_slice());
                    if remaining == 0 {
                        self.subscribe_mode = false;
                    }
                    Outcome::Reply(
                        build_subscription_reply("unsubscribe", args[1].as_slice(), remaining),
                    )
                }
            },
            _ => {
                match xread(db, args, now, may_block) {
                    Xread::Reply(reply) => Outcome::Reply(reply),
                    Xread::Wait { keys, receivers, timeout } => Outcome::AwaitStreams {
                        keys,
                        receivers,
                        timeout,
                    },
                }
            },
        }
    }
}

/// What a connection is in the middle of: the world it sees, whether it
/// queues commands, and the commands queued.
pub struct Session {
    pub world: World,
    pub multi_mode: bool,
    pub queued: Seq<(Seq<u8>, Seq<Seq<u8>>)>,
}

/// The session of a connection in the given state.
pub open spec fn session_of(handler: HandlerView, db: Keyspace, registry: RegistryView) -> Session {
    Session {
        world: world_of(handler, db, registry),
        multi_mode: handler.multi_mode,
        queued: handler.queued,
    }
}

/// Whether running the queued commands in order, none of them allowed to
/// block, leads through the worlds `worlds` and gives the replies
/// `replies`: the `i`-th command leads from the `i`-th world to the next
/// and gives the `i`-th reply.
pub open spec fn runs_through(
    id: u32,
    queued: Seq<(Seq<u8>, Seq<Seq<u8>>)>,
    now: u64,
    worlds: Seq<World>,
    replies: Seq<Value>,
) -> bool {
    &&& worlds.len() == queued.len() + 1
    &&& replies.len() == queued.len()
    &&& forall|i: int|
        #![trigger replies[i]]
        0 <= i < queued.len() ==> run_spec(
            id,
            queued[i].0,
            queued[i].1,
            now,
            false,
            worlds[i],
            worlds[i + 1],
            OutcomeView::Reply(replies[i]),
        )
}

/// `EXEC` in a transaction: the queued commands run in order, the reply
/// holds their replies, and the transaction is over.
pub open spec fn exec_spec(
    id: u32,
    now: u64,
    before: Session,
    after: Session,
    outcome: OutcomeView,
) -> bool {
    &&& !after.multi_mode
    &&& after.queued == Seq::<(Seq<u8>, Seq<Seq<u8>>)>::empty()
    &&& outcome is Reply
    &&& outcome->Reply_0 is Array
    &&& exists|worlds: Seq<World>|
        #![trigger runs_through(id, before.queued, now, worlds, outcome->Reply_0->Array_0)]
        runs_through(id, before.queued, now, worlds, outcome->Reply_0->Array_0) && worlds[0]
            == before.world && worlds.last() == after.world
}

/// Whether a command is run, and not merely taken note of: the words of a
/// transaction but `EXEC` never are, `EXEC` is within a transaction, and any
/// other command is outside of one.
pub open spec fn is_run(name: Seq<u8>, multi_mode: bool) -> bool {
    match command_of(name) {
        Command::Multi => false,
        Command::Discard => false,
        Command::Exec => multi_mode,
        _ => !multi_mode,
    }
}

/// What a command that is not run does to the transaction of its
/// connection, and what it answers.
///
/// `MULTI` begins a transaction, and is refused within one. `DISCARD` ends
/// one and forgets what was queued. `EXEC` without a transaction is
/// refused. Any other command is queued.
pub open spec fn noted(
    name: Seq<u8>,
    args: Seq<Seq<u8>>,
    before: Session,
    after: Session,
    outcome: OutcomeView,
) -> bool {
    &&& after.world == before.world
    &&& match command_of(name) {
        Command::Multi => if before.multi_mode {
            after == before && outcome == OutcomeView::Reply(
                Value::Error(text("ERR MULTI calls can not be nested")),
            )
        } else {
            after.multi_mode && after.queued == Seq::<(Seq<u8>, Seq<Seq<u8>>)>::empty() && outcome
                == OutcomeView::Reply(ok())
        },
        Command::Exec => after == before && outcome == OutcomeView::Reply(
            Value::Error(text("ERR EXEC without MULTI")),
        ),
        Command::Discard => !after.multi_mode && after.queued == Seq::<
            (Seq<u8>, Seq<Seq<u8>>),
        >::empty() && outcome == OutcomeView::Reply(ok()),
        _ => after.multi_mode == before.multi_mode && after.queued == before.queued.push(
            (name, args),
        ) && outcome == OutcomeView::Reply(Value::SimpleString(text("QUEUED"))),
    }
}

/// What the command `name` with the arguments `args`, sent at the time
/// `now` by the connection `id`, does to the session, and what it leads
/// to.
///
/// `MULTI` begins a transaction, `DISCARD` ends one and forgets what was
/// queued, `EXEC` ends one and runs what was queued. Within a transaction
/// every other command is queued and not run. Outside it runs at once.
pub open spec fn handle_spec(
    id: u32,
    name: Seq<u8>,
    args: Seq<Seq<u8>>,
    now: u64,
    before: Session,
    after: Session,
    outcome: OutcomeView,
) -> bool {
    if !is_run(name, before.multi_mode) {
        noted(name, args, before, after, outcome)
    } else if command_of(name) == Command::Exec {
        exec_spec(id, now, before, after, outcome)
    } else {
        &&& !after.multi_mode
        &&& after.queued == before.queued
        &&& run_spec(id, name, args, now, true, before.world, after.world, outcome)
    }
}

/// Why a connection is closed.
#[derive(Debug, Clone, Copy, PartialEq, Eq, Structural)]
pub enum CloseReason {
    /// A request held something that is no string.
    NotAString,
    /// Reading from the peer failed.
    ReadFailed(ParseError),
    /// The outbound mailbox of the connection is gone.
    MailboxClosed,
}

/// What happened on a connection.
pub enum Event {
    /// A value arrived from the peer.
    Frame(RedisValue),
    /// Reading from the peer failed, or the peer closed.
    ReadFailed(ParseError),
    /// The outbound mailbox gave a message, or `None` when it was closed.
    Outbound(Option<Vec<u8>>),
}

/// What the connection has to do next.
pub enum Action {
    /// Nothing.
    Nothing,
    /// Write the wire form of this value to the peer.
    Reply(RedisValue),
    /// Write these bytes to the peer as they are.
    Forward(Vec<u8>),
    /// Wait for a list element; see [`Outcome::AwaitList`].
    AwaitList { key: Vec<u8>, receiver: UnboundedReceiver<Vec<u8>>, timeout: Timeout },
    /// Wait for a stream entry; see [`Outcome::AwaitStreams`].
    AwaitStreams {
        keys: Vec<Vec<u8>>,
        receivers: Vec<UnboundedReceiver<StreamEntry>>,
        timeout: Timeout,
    },
    /// Close the connection.
    Close(CloseReason),
}

/// The content of what the connection has to do next.
pub enum ActionView {
    Nothing,
    Reply(Value),
    Forward(Seq<u8>),
    AwaitList { key: Seq<u8>, timeout: Timeout },
    AwaitStreams { keys: Seq<Seq<u8>>, receivers: nat, timeout: Timeout },
    Close(CloseReason),
}

impl View for Action {
    type V = ActionView;

    open spec fn view(&self) -> ActionView {
        match self {
            Action::Nothing => ActionView::Nothing,
            Action::Reply(value) => ActionView::Reply(value@),
            Action::Forward(bytes) => ActionView::Forward(bytes@),
            Action::AwaitList { key, receiver, timeout } => ActionView::AwaitList {
                key: key@,
                timeout: *timeout,
            },
            Action::AwaitStreams { keys, receivers, timeout } => ActionView::AwaitStreams {
                keys: byte_strings(keys@),
                receivers: receivers@.len(),
                timeout: *timeout,
            },
            Action::Close(reason) => ActionView::Close(*reason),
        }
    }
}

/// What a connection does about the outcome of a command.
pub open spec fn action_of(outcome: OutcomeView) -> ActionView {
    match outcome {
        OutcomeView::Reply(value) => ActionView::Reply(value),
        OutcomeView::AwaitList { key, timeout } => ActionView::AwaitList { key, timeout },
        OutcomeView::AwaitStreams { keys, receivers, timeout } => ActionView::AwaitStreams {
            keys,
            receivers,
            timeout,
        },
    }
}

/// The strings that the elements of a request carry, or `None` where one
/// of them is no string.
pub open spec fn arg_strings(items: Seq<Value>) -> Option<Seq<Seq<u8>>> {
    if forall|i: int| 0 <= i < items.len() ==> string_of(#[trigger] items[i]) is Some {
        Some(Seq::new(items.len(), |i: int| string_of(items[i])->Some_0))
    } else {
        None
    }
}

/// Whether a command is accepted in subscribe mode.
pub open spec fn allowed_when_subscribed(name: Seq<u8>) -> bool {
    name == text("SUBSCRIBE") || name == text("UNSUBSCRIBE") || name == text("PSUBSCRIBE") || name
        == text("PUNSUBSCRIBE") || name == text("PING") || name == text("QUIT")
}

/// What a value that arrived from the peer does to the session, and what
/// the connection has to do next.
///
/// Only a non-empty array is a request; anything else is passed over. The
/// name of the command is its first element in upper case. An element that
/// is no string closes the connection. In subscribe mode only the commands
/// of that mode are run; any other is refused.
pub open spec fn frame_spec(
    id: u32,
    frame: Value,
    now: u64,
    before: Session,
    after: Session,
    action: ActionView,
) -> bool {
    match frame {
        Value::Array(items) => if items.len() == 0 {
            after == before && action == ActionView::Nothing
        } else {
            match arg_strings(items) {
                None => after == before && action == ActionView::Close(CloseReason::NotAString),
                Some(args) => {
                    let name = upper(args[0]);
                    if before.world.subscribe_mode && !allowed_when_subscribed(name) {
                        after == before && action == ActionView::Reply(not_in_subscribe_mode(name))
                    } else {
                        exists|outcome: OutcomeView|
                            #![trigger action_of(outcome)]
                            action == action_of(outcome) && handle_spec(
                                id,
                                name,
                                args,
                                now,
                                before,
                                after,
                                outcome,
                            )
                    }
                },
            }
        },
        _ => after == before && action == ActionView::Nothing,
    }
}

/// Whether a value that arrived from the peer cannot be dealt with while
/// the keyspace and the registry are shared with other readers: a request
/// that holds something that is no string, which closes the connection, an
/// `EXEC` in a transaction, or a command that is run and needs them for
/// itself.
pub open spec fn wants_exclusive(frame: Value, handler: HandlerView) -> bool {
    match frame {
        Value::Array(items) => items.len() > 0 && match arg_strings(items) {
            None => true,
            Some(args) => {
                let name = upper(args[0]);
                &&& !(handler.subscribe_mode && !allowed_when_subscribed(name))
                &&& is_run(name, handler.multi_mode)
                &&& (command_of(name) == Command::Exec || needs_exclusive(name, args))
            },
        },
        _ => false,
    }
}

/// The registry after the connection `id` was forgotten.
pub open spec fn forgotten(registry: RegistryView, id: u32) -> RegistryView {
    RegistryView {
        subscriptions: without_connection(registry.subscriptions, id),
        senders: registry.senders.remove(id),
    }
}

/// The session after its connection was forgotten by the registry.
pub open spec fn closed_session(session: Session, id: u32) -> Session {
    Session {
        world: World {
            db: session.world.db,
            registry: forgotten(session.world.registry, id),
            subscribe_mode: session.world.subscribe_mode,
        },
        multi_mode: session.multi_mode,
        queued: session.queued,
    }
}

/// The content of an event.
pub enum EventView {
    Frame(Value),
    ReadFailed(ParseError),
    Outbound(Option<Seq<u8>>),
}

impl View for Event {
    type V = EventView;

    open spec fn view(&self) -> EventView {
        match self {
            Event::Frame(value) => EventView::Frame(value@),
            Event::ReadFailed(e) => EventView::ReadFailed(*e),
            Event::Outbound(Some(bytes)) => EventView::Outbound(Some(bytes@)),
            Event::Outbound(None) => EventView::Outbound(None),
        }
    }
}

/// What an event does to the session of the connection `id`, and what the
/// connection has to do next.
///
/// A message from the outbound mailbox is written to the peer as it is. A
/// request is handled. Whenever the connection is to be closed, the
/// registry forgets it first: its mailbox and its subscriptions.
pub open spec fn event_spec(
    id: u32,
    event: EventView,
    now: u64,
    before: Session,
    after: Session,
    action: ActionView,
) -> bool {
    match event {
        EventView::Frame(frame) => exists|mid: Session|
            #![trigger frame_spec(id, frame, now, before, mid, action)]
            frame_spec(id, frame, now, before, mid, action) && after == if action is Close {
                closed_session(mid, id)
            } else {
                mid
            },
        EventView::ReadFailed(e) => after == closed_session(before, id) && action
            == ActionView::Close(CloseReason::ReadFailed(e)),
        EventView::Outbound(Some(bytes)) => after == before && action == ActionView::Forward(bytes),
        EventView::Outbound(None) => after == closed_session(before, id) && action
            == ActionView::Close(CloseReason::MailboxClosed),
    }
}

/// Turns the elements of a request into strings.
fn strings_of(items: &Vec<RedisValue>) -> (res: Option<Vec<Vec<u8>>>)
    ensures
        match arg_strings(values_of(items@)) {
            Some(args) => res matches Some(found) && byte_strings(found@) == args,
            None => res is None,
        },
{
    let ghost views = values_of(items@);
    proof {
        lemma_values_of(items@);
    }
    let mut found: Vec<Vec<u8>> = Vec::new();
    let mut i: usize = 0;
    while i < items.len()
        invariant
            i <= items.len(),
            views == values_of(items@),
            views.len() == items@.len(),
            forall|j: int| 0 <= j < items@.len() ==> views[j] == items@[j]@,
            found@.len() == i,
            forall|j: int| 0 <= j < i ==> string_of(#[trigger] views[j]) == Some(found@[j]@),
        decreases items.len() - i,
    {
        match items[i].get_string() {
            Ok(bytes) => {
                found.push(bytes);
            },
            Err(_) => {
                assert(string_of(views[i as int]) is None);
                return None;
            },
        }
        i += 1;
    }
    assert(byte_strings(found@) =~= arg_strings(views)->Some_0);
    Some(found)
}

/// Copies a list of strings.
fn copy_args(args: &Vec<Vec<u8>>) -> (res: Vec<Vec<u8>>)
    ensures
        byte_strings(res@) == byte_strings(args@),
{
    let mut res: Vec<Vec<u8>> = Vec::new();
    let mut i: usize = 0;
    while i < args.len()
        invariant
            i <= args.len(),
            res@.len() == i,
            forall|j: int| 0 <= j < i ==> res@[j]@ == args@[j]@,
        decreases args.len() - i,
    {
        res.push(args[i].clone());
        i += 1;
    }
    assert(byte_strings(res@) =~= byte_strings(args@));
    res
}

/// Whether a command is accepted in subscribe mode.
fn is_allowed_when_subscribed(name: &[u8]) -> (res: bool)
    ensures
        res == allowed_when_subscribed(name@),
{
    is_text(name, "SUBSCRIBE") || is_text(name, "UNSUBSCRIBE") || is_text(name, "PSUBSCRIBE")
        || is_text(name, "PUNSUBSCRIBE") || is_text(name, "PING") || is_text(name, "QUIT")
}

impl ClientHandler {
    /// Runs the queued commands in order and ends the transaction.
    fn exec(&mut self, db: &mut DB, registry: &mut Registry, now: u64) -> (outcome: Outcome)
        requires
            old(self)@.multi_mode,
        ensures
            exec_spec(
                old(self)@.id,
                now,
                session_of(old(self)@, old(db)@, old(registry)@),
                session_of(final(self)@, final(db)@, final(registry)@),
                outcome@,
            ),
            final(self)@.id == old(self)@.id,
    {
        let ghost id = self.id;
        let ghost queued = queued_view(self.queued_commands@);
        let ghost first = world_of(self@, db@, registry@);
        let mut queue: Vec<(Vec<u8>, Vec<Vec<u8>>)> = Vec::new();
        core::mem::swap(&mut self.queued_commands, &mut queue);
        self.multi_mode = false;
        assert(queued_view(self.queued_commands@) =~= Seq::empty());
        let mut replies: Vec<RedisValue> = Vec::new();
        let ghost worlds: Seq<World> = seq![first];
        let mut k: usize = 0;
        assert(values_of(replies@) =~= Seq::<Value>::empty());
        while k < queue.len()
            invariant
                k <= queue.len(),
                queued == queued_view(queue@),
                self@.id == id,
                !self@.multi_mode,
                self@.queued == Seq::<(Seq<u8>, Seq<Seq<u8>>)>::empty(),
                worlds.len() == k + 1,
                worlds[0] == first,
                worlds.last() == world_of(self@, db@, registry@),
                runs_through(id, queued.take(k as int), now, worlds, values_of(replies@)),
            decreases queue.len() - k,
        {
            let ghost worlds_before = worlds;
            let ghost replies_before = values_of(replies@);
            let outcome = self.run(db, registry, now, queue[k].0.as_slice(), &queue[k].1, false);
            let reply = match outcome {
                Outcome::Reply(reply) => reply,
                _ => RedisValue::NilArray,
            };
            let ghost list_before = replies@;
            let ghost reply_view = reply@;
            replies.push(reply);
            proof {
                worlds = worlds.push(world_of(self@, db@, registry@));
                let replies_now = values_of(replies@);
                assert(replies@.drop_last() =~= list_before);
                assert(replies_now =~= replies_before.push(reply_view));
                let longer = queued.take(k + 1);
                assert forall|i: int|
                    #![trigger replies_now[i]]
                    0 <= i < longer.len() implies run_spec(
                    id,
                    longer[i].0,
                    longer[i].1,
                    now,
                    false,
                    worlds[i],
                    worlds[i + 1],
                    OutcomeView::Reply(replies_now[i]),
                ) by {
                    if i < k {
                        assert(queued.take(k as int)[i] == longer[i]);
                        assert(worlds[i] == worlds_before[i]);
                        assert(worlds[i + 1] == worlds_before[i + 1]);
                        assert(replies_now[i] == replies_before[i]);
                    } else {
                        assert(worlds[i] == worlds_before.last());
                    }
                }
            }
            k += 1;
        }
        assert(queued.take(k as int) =~= queued);
        let ghost shown = values_of(replies@);
        let outcome = Outcome::Reply(RedisValue::Array(replies));
        proof {
            let before = session_of(old(self)@, old(db)@, old(registry)@);
            let after = session_of(self@, db@, registry@);
            assert(before.queued == queued);
            assert(outcome@ == OutcomeView::Reply(Value::Array(shown)));
            assert(outcome@->Reply_0->Array_0 == shown);
            assert(runs_through(
                old(self)@.id,
                before.queued,
                now,
                worlds,
                outcome@->Reply_0->Array_0,
            ) && worlds[0] == before.world && worlds.last() == after.world);
            assert(exec_spec(old(self)@.id, now, before, after, outcome@));
        }
        outcome
    }

    /// Takes note of a command that is not run: a word of a transaction,
    /// or a command to queue. Gives `None` for a command that is run.
    pub fn note(&mut self, command: &[u8], args: &Vec<Vec<u8>>) -> (res: Option<RedisValue>)
        ensures
            res is None <==> is_run(command@, old(self)@.multi_mode),
            res is None ==> final(self)@ == old(self)@,
            final(self)@.id == old(self)@.id,
            final(self)@.subscribe_mode == old(self)@.subscribe_mode,
            res matches Some(reply) ==> forall|db: Keyspace, registry: RegistryView|
                #[trigger] noted(
                    command@,
                    byte_strings(args@),
                    session_of(old(self)@, db, registry),
                    session_of(final(self)@, db, registry),
                    OutcomeView::Reply(reply@),
                ),
    {
        match classify(command) {
            Command::Multi => {
                if self.multi_mode {
                    Some(error_reply("ERR MULTI calls can not be nested"))
                } else {
                    self.multi_mode = true;
                    self.queued_commands = Vec::new();
                    assert(queued_view(self.queued_commands@) =~= Seq::empty());
                    Some(simple_reply("OK"))
                }
            },
            Command::Exec => {
                if self.multi_mode {
                    None
                } else {
                    Some(error_reply("ERR EXEC without MULTI"))
                }
            },
            Command::Discard => {
                self.multi_mode = false;
                self.queued_commands = Vec::new();
                assert(queued_view(self.queued_commands@) =~= Seq::empty());
                Some(simple_reply("OK"))
            },
            _ => {
                if self.multi_mode {
                    let ghost before = queued_view(self.queued_commands@);
                    self.queued_commands.push((vstd::slice::slice_to_vec(command), copy_args(args)));
                    assert(queued_view(self.queued_commands@) =~= before.push(
                        (command@, byte_strings(args@)),
                    ));
                    Some(simple_reply("QUEUED"))
                } else {
                    None
                }
            },
        }
    }

    /// Handles one command of a client.
    ///
    /// `command` is the name of the command in upper case, `args` are its
    /// arguments with the name as it was sent at their head.
    pub fn handle_commands(
        &mut self,
        db: &mut DB,
        registry: &mut Registry,
        now: u64,
        command: &[u8],
        args: Vec<Vec<u8>>,
    ) -> (outcome: Outcome)
        ensures
            handle_spec(
                old(self)@.id,
                command@,
                byte_strings(args@),
                now,
                session_of(old(self)@, old(db)@, old(registry)@),
                session_of(final(self)@, final(db)@, final(registry)@),
                outcome@,
            ),
            final(self)@.id == old(self)@.id,
    {
        match self.note(command, &args) {
            Some(reply) => {
                assert(noted(
                    command@,
                    byte_strings(args@),
                    session_of(old(self)@, db@, registry@),
                    session_of(self@, db@, registry@),
                    OutcomeView::Reply(reply@),
                ));
                return Outcome::Reply(reply);
            },
            None => {},
        }
        match classify(command) {
            Command::Exec => self.exec(db, registry, now),
            _ => self.run(db, registry, now, command, &args, true),
        }
    }

    /// Handles one value that arrived from the peer.
    pub fn handle_frame(
        &mut self,
        db: &mut DB,
        registry: &mut Registry,
        now: u64,
        frame: RedisValue,
    ) -> (action: Action)
        ensures
            frame_spec(
                old(self)@.id,
                frame@,
                now,
                session_of(old(self)@, old(db)@, old(registry)@),
                session_of(final(self)@, final(db)@, final(registry)@),
                action@,
            ),
            final(self)@.id == old(self)@.id,
    {
        let items: Vec<RedisValue> = match frame {
            RedisValue::Array(items) => items,
            _ => {
                return Action::Nothing;
            },
        };
        if items.len() == 0 {
            proof {
                lemma_values_of(items@);
            }
            return Action::Nothing;
        }
        proof {
            lemma_values_of(items@);
        }
        let args: Vec<Vec<u8>> = match strings_of(&items) {
            Some(args) => args,
            None => {
                return Action::Close(CloseReason::NotAString);
            },
        };
        assert(byte_strings(args@).len() == args@.len());
        let command = to_upper(args[0].as_slice());
        if self.subscribe_mode && !is_allowed_when_subscribed(command.as_slice()) {
            return Action::Reply(
                quoting_error("ERR Can't execute '", command.as_slice(), "' in subscribed mode"),
            );
        }
        let outcome = self.handle_commands(db, registry, now, command.as_slice(), args);
        let ghost outcome_view = outcome@;
        let action = match outcome {
            Outcome::Reply(reply) => Action::Reply(reply),
            Outcome::AwaitList { key, receiver, timeout } => Action::AwaitList {
                key,
                receiver,
                timeout,
            },
            Outcome::AwaitStreams { keys, receivers, timeout } => Action::AwaitStreams {
                keys,
                receivers,
                timeout,
            },
        };
        assert(action@ == action_of(outcome_view));
        action
    }

    /// Handles one value that arrived from the peer as far as that can be
    /// done while the keyspace and the registry are shared with other
    /// readers, at the time `now`.
    ///
    /// Gives `None`, and changes nothing, where the value asks for more:
    /// then `handle_frame` is to be called with both held exclusively.
    pub fn handle_frame_shared_at(
        &mut self,
        db: &DB,
        registry: &Registry,
        now: u64,
        frame: &RedisValue,
    ) -> (res: Option<Action>)
        ensures
            res is None <==> wants_exclusive(frame@, old(self)@),
            res is None ==> final(self)@ == old(self)@,
            final(self)@.id == old(self)@.id,
            res matches Some(action) ==> !(action@ is Close) && frame_spec(
                old(self)@.id,
                frame@,
                now,
                session_of(old(self)@, db@, registry@),
                session_of(final(self)@, db@, registry@),
                action@,
            ),
    {
        let items: &Vec<RedisValue> = match frame {
            RedisValue::Array(items) => items,
            _ => {
                return Some(Action::Nothing);
            },
        };
        proof {
            lemma_values_of(items@);
        }
        if items.len() == 0 {
            return Some(Action::Nothing);
        }
        let args: Vec<Vec<u8>> = match strings_of(items) {
            Some(args) => args,
            None => {
                return None;
            },
        };
        assert(byte_strings(args@).len() == args@.len());
        let command = to_upper(args[0].as_slice());
        if self.subscribe_mode && !is_allowed_when_subscribed(command.as_slice()) {
            return Some(
                Action::Reply(
                    quoting_error(
                        "ERR Can't execute '",
                        command.as_slice(),
                        "' in subscribed mode",
                    ),
                ),
            );
        }
        let ghost before = session_of(old(self)@, db@, registry@);
        match self.note(command.as_slice(), &args) {
            Some(reply) => {
                let ghost outcome = OutcomeView::Reply(reply@);
                let action = Action::Reply(reply);
                proof {
                    let after = session_of(self@, db@, registry@);
                    assert(noted(command@, byte_strings(args@), before, after, outcome));
                    assert(action@ == action_of(outcome) && handle_spec(
                        old(self)@.id,
                        command@,
                        byte_strings(args@),
                        now,
                        before,
                        after,
                        outcome,
                    ));
                }
                return Some(action);
            },
            None => {},
        }
        match classify(command.as_slice()) {
            Command::Exec => None,
            _ => {
                match self.run_shared(db, registry, now, command.as_slice(), &args) {
                    Some(reply) => {
                        let ghost outcome = OutcomeView::Reply(reply@);
                        let action = Action::Reply(reply);
                        proof {
                            assert(run_spec(
                                self@.id,
                                command@,
                                byte_strings(args@),
                                now,
                                true,
                                before.world,
                                before.world,
                                outcome,
                            ));
                            assert(action@ == action_of(outcome) && handle_spec(
                                old(self)@.id,
                                command@,
                                byte_strings(args@),
                                now,
                                before,
                                before,
                                outcome,
                            ));
                        }
                        Some(action)
                    },
                    None => None,
                }
            },
        }
    }

    /// Handles one value that arrived from the peer as far as that can be
    /// done while the keyspace and the registry are shared with other
    /// readers, at the time that the wall clock shows.
    pub fn handle_frame_shared(&mut self, db: &DB, registry: &Registry, frame: &RedisValue) -> (res:
        Option<Action>)
        ensures
            res is None <==> wants_exclusive(frame@, old(self)@),
            res is None ==> final(self)@ == old(self)@,
            final(self)@.id == old(self)@.id,
            res matches Some(action) ==> !(action@ is Close) && exists|now: u64|
                #[trigger] frame_spec(
                    old(self)@.id,
                    frame@,
                    now,
                    session_of(old(self)@, db@, registry@),
                    session_of(final(self)@, db@, registry@),
                    action@,
                ),
    {
        let now = now_millis();
        self.handle_frame_shared_at(db, registry, now, frame)
    }

    /// Decides what an event leads to, at the time `now`.
    pub fn handle_event_at(
        &mut self,
        db: &mut DB,
        registry: &mut Registry,
        now: u64,
        event: Event,
    ) -> (action: Action)
        ensures
            event_spec(
                old(self)@.id,
                event@,
                now,
                session_of(old(self)@, old(db)@, old(registry)@),
                session_of(final(self)@, final(db)@, final(registry)@),
                action@,
            ),
            final(self)@.id == old(self)@.id,
    {
        match event {
            Event::Frame(frame) => {
                let ghost shown = frame@;
                let action = self.handle_frame(db, registry, now, frame);
                let ghost mid = session_of(self@, db@, registry@);
                match action {
                    Action::Close(reason) => {
                        registry.unregister(self.id);
                        let closing = Action::Close(reason);
                        assert(frame_spec(
                            old(self)@.id,
                            shown,
                            now,
                            session_of(old(self)@, old(db)@, old(registry)@),
                            mid,
                            closing@,
                        ));
                        closing
                    },
                    other => other,
                }
            },
            Event::ReadFailed(e) => {
                registry.unregister(self.id);
                Action::Close(CloseReason::ReadFailed(e))
            },
            Event::Outbound(Some(bytes)) => Action::Forward(bytes),
            Event::Outbound(None) => {
                registry.unregister(self.id);
                Action::Close(CloseReason::MailboxClosed)
            },
        }
    }

    /// Decides what an event leads to, at the time that the wall clock
    /// shows.
    pub fn handle_event(&mut self, db: &mut DB, registry: &mut Registry, event: Event) -> (action:
        Action)
        ensures
            exists|now: u64|
                #![trigger event_spec(
                    old(self)@.id,
                    event@,
                    now,
                    session_of(old(self)@, old(db)@, old(registry)@),
                    session_of(final(self)@, final(db)@, final(registry)@),
                    action@,
                )]
                event_spec(
                    old(self)@.id,
                    event@,
                    now,
                    session_of(old(self)@, old(db)@, old(registry)@),
                    session_of(final(self)@, final(db)@, final(registry)@),
                    action@,
                ),
            final(self)@.id == old(self)@.id,
    {
        let now = now_millis();
        self.handle_event_at(db, registry, now, event)
    }

    /// The reply of a `BLPOP` that waited: the key and the value that
    /// arrived, or nil where the time ran out first.
    pub fn finish_list_wait(key: &[u8], arrived: Option<Vec<u8>>) -> (reply: RedisValue)
        ensures
            reply@ == waited_value(
                key@,
                match arrived {
                    Some(value) => Some(value@),
                    None => None,
                },
            ),
    {
        waited_reply(key, arrived)
    }

    /// The reply of an `XREAD` that waited: the key and the entry that
    /// arrived, or nil where the time ran out first.
    pub fn finish_stream_wait(key: &[u8], arrived: Option<StreamEntry>) -> (reply: RedisValue)
        ensures
            reply@ == read_waited_value(
                key@,
                match arrived {
                    Some(entry) => Some(entry@),
                    None => None,
                },
            ),
    {
        read_waited_reply(key, arrived)
    }
}

} // verus!

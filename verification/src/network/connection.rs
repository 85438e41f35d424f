use crate::network::PubSubOp;
use crate::protocol::command::executor::{
    answered_elsewhere, get_reply, get_reply_view, ok_view, uses_command_table, CommandExecutor,
};
use crate::protocol::command::hash::{distinct_keys, entries_map, has_key, lemma_entry_in_map, MetadataTracker};
use crate::protocol::command::{pubsub_op_of, Command, CommandView};
use crate::protocol::resp::{
    lemma_array_view, reads_back, resp_bytes, views, write_resp_value, RespParser, RespValue, RespView,
};
use crate::text::{bytes_eq, concat3, lossy_text, owned, text_eq, to_upper_text, upper_text, utf8_lossy};
use crate::watch_registry::{version_list, VersionTable, WatchRegistry};
use vstd::prelude::*;
use vstd::string::StringSliceAdditionalSpecFns;
use vstd::slice::slice_to_vec;

verus! {

/// Whether a connection is queuing commands for a transaction.
#[derive(PartialEq, Eq, Structural)]
pub enum TransactionState {
    Idle,
    Queuing,
}

/// The reply to a queued command at EXEC: ready, or to be produced outside
/// the library.
#[derive(Debug)]
pub enum Reply {
    Ready(RespValue),
    Pending(Command),
}

/// What handling one command leads to.
#[derive(Debug)]
pub enum Action {
    /// Write this reply; it counts toward the pipeline.
    Respond(RespValue),
    /// Write this reply without counting it: transaction commands and refusals
    /// in pub/sub mode.
    Notice(RespValue),
    /// Write the replies of an executed transaction as one array.
    Transaction(Vec<Reply>),
    /// Write `+OK` and stop reading: the client quit.
    Quit,
    /// Hand the operation to the pub/sub layer, which answers it.
    PubSub(PubSubOp),
    /// Answer the command outside the library.
    External(Command),
}

/// The session state of a connection that its commands act on.
pub struct SessionView {
    pub queuing: bool,
    pub queued: Seq<CommandView>,
    pub watched: Seq<(Seq<u8>, u64)>,
    pub authenticated: bool,
    pub auth_required: bool,
    pub subscriptions: nat,
    pub closed: bool,
    pub client_name: Option<Seq<char>>,
}

impl SessionView {
    /// The session with no transaction open and nothing watched.
    pub open spec fn reset(self) -> SessionView {
        SessionView { queuing: false, queued: Seq::empty(), watched: Seq::empty(), ..self }
    }
}

/// Queued commands as their views.
pub open spec fn command_views(cmds: Seq<Command>) -> Seq<CommandView> {
    cmds.map_values(|c: Command| c@)
}

/// What handling command `c` does, by `handle_command`'s rules: the action
/// `a` it leads to, the session `t` it leaves from `s`, the key versions `wa`
/// it leaves from `wb`.
pub open spec fn command_effect(
    s: SessionView,
    pw: Option<Seq<char>>,
    c: CommandView,
    a: Action,
    t: SessionView,
    wb: VersionTable,
    wa: VersionTable,
) -> bool {
    &&& (c is Quit ==> a is Quit && t == (SessionView { closed: true, ..s })
                && wa == wb)
    &&& (!(c is Quit) && s.subscriptions > 0 && !allowed_in_pubsub(c) ==> notice_of(a) == Some(
                error_text("-ERR only (P)SUBSCRIBE / (P)UNSUBSCRIBE / PING / QUIT allowed in this context"@),
            ) && t == s && wa == wb)
    &&& (admitted(s, c) && c is Multi ==> wa == wb && (if s.queuing {
                notice_of(a) == Some(error_text("-ERR MULTI calls can not be nested"@)) && t == s
            } else {
                notice_of(a) == Some(ok_view()) && t == (SessionView {
                    queuing: true,
                    queued: Seq::empty(),
                    ..s
                })
            }))
    &&& (admitted(s, c) && c is Exec ==> (if !s.queuing {
                notice_of(a) == Some(error_text("-ERR EXEC without MULTI"@)) && t == s
                    && wa == wb
            } else if !wb.all_unchanged(s.watched) {
                notice_of(a) == Some(null_view()) && t == s.reset() && wa == wb
            } else {
                t == s.reset() && transaction_answers(a, s.queued) && exec_answers(a, s.queued, pw is Some, wb, wa)
            }))
    &&& (admitted(s, c) && c is Discard ==> wa == wb && (
            if s.queuing {
                notice_of(a) == Some(ok_view()) && t == s.reset()
            } else {
                notice_of(a) == Some(error_text("-ERR DISCARD without MULTI"@)) && t == s
            }))
    &&& (admitted(s, c) && c is Watch ==> wa == wb && (if s.queuing {
                notice_of(a) == Some(error_text("-ERR WATCH inside MULTI is not allowed"@)) && t == s
            } else {
                notice_of(a) == Some(ok_view()) && t == (SessionView {
                    watched: t.watched,
                    ..s
                }) && watches(t.watched, s.watched, c->Watch_0, wb)
            }))
    &&& (admitted(s, c) && c is Unwatch ==> wa == wb && notice_of(a) == Some(
                ok_view(),
            ) && t == (SessionView { watched: Seq::empty(), ..s }))
    &&& (admitted(s, c) && !is_transaction(c) && s.queuing ==> notice_of(a) == Some(
                queued_view(),
            ) && t == (SessionView {
                queued: named(s, c).queued.push(c),
                ..named(s, c)
            }) && wa == wb)
    &&& (runs_now(s, c) && !s.authenticated && !(c is Auth) && !(c is Ping)
                ==> response_of(a) == Some(error_text("-NOAUTH Authentication required."@)) && t == named(
                s,
                c,
            ) && wa == wb)
    &&& (runs_now(s, c) && c is Auth ==> wa == wb && (
            if !s.auth_required {
                response_of(a) == Some(error_text("-ERR Client sent AUTH, but no password is set"@)) && t
                    == s
            } else if pw == Some(lossy_text(c->Auth_0)) {
                response_of(a) == Some(ok_view()) && t == (SessionView { authenticated: true, ..s })
            } else {
                response_of(a) == Some(error_text("-ERR invalid password"@)) && t == s
            }))
    &&& (runs_now(s, c) && (s.authenticated || c is Ping) && !(c is Auth)
                && is_pubsub(c) ==> t == s && wa == wb && (match pubsub_op_of(
                c,
            ) {
                Some(op) => a matches Action::PubSub(o) && o@ == op,
                None => response_of(a) == Some(unknown_pubsub_error(c)),
            }))
    &&& (runs_now(s, c) && (s.authenticated || c is Ping) && !(c is Auth)
                && !is_pubsub(c) ==> t == named(s, c) && (if answered_elsewhere(
                c,
            ) {
                a matches Action::External(x) && x@ == c && wa == wb
            } else {
                a matches Action::Respond(v) && crate::protocol::command::executor::watch_effect(
                    c,
                    v@,
                    wb,
                    wa,
                ) && crate::protocol::command::executor::store_reply_ok(c, v@) && (
                crate::protocol::command::executor::fixed_reply(c, pw is Some) matches Some(f)
                    ==> v@ == f)
            }))
}

/// The error for a pub/sub command that names no operation: an unknown
/// PUBSUB subcommand, quoted.
pub open spec fn unknown_pubsub_error(c: CommandView) -> RespView {
    match c {
        CommandView::PubSub { subcommand, .. } => RespView::Error(
            "ERR Unknown PUBSUB subcommand '"@ + subcommand + "'"@,
        ),
        _ => RespView::Error("ERR Failed to process pub/sub command"@),
    }
}

/// Whether every reply of a transaction is ready.
pub open spec fn all_ready(rs: Seq<Reply>) -> bool {
    forall|i: int| 0 <= i < rs.len() ==> !#[trigger] is_pending(rs[i])
}

/// The bytes written for an action: its reply; for a transaction whose
/// replies are all ready, the array of them; nothing when the caller answers.
pub open spec fn action_bytes(a: Action) -> Seq<u8> {
    match a {
        Action::Respond(v) => resp_bytes(v@),
        Action::Notice(v) => resp_bytes(v@),
        Action::Transaction(rs) => if all_ready(rs@) {
            resp_bytes(RespView::Array(Some(ready_views(rs@))))
        } else {
            Seq::empty()
        },
        Action::Quit => resp_bytes(ok_view()),
        Action::PubSub(_) => Seq::empty(),
        Action::External(_) => Seq::empty(),
    }
}

/// Where a step leaves reading.
spec fn event_handled(e: Event, h: Handled) -> bool {
    match e {
        Event::Fast { .. } => h is Continue,
        Event::Command { action, .. } => handled_from(action, h),
    }
}

/// Where an action leaves reading.
spec fn handled_from(a: Action, h: Handled) -> bool {
    match a {
        Action::Respond(_) => h is Continue,
        Action::Notice(_) => h is Continue,
        Action::Transaction(rs) => if all_ready(rs@) {
            h is Continue
        } else {
            h matches Handled::Transaction(p) && p@ == rs@
        },
        Action::Quit => h is Quit,
        Action::PubSub(op) => h == Handled::PubSub(op),
        Action::External(c) => h == Handled::External(c),
    }
}

/// One step of reading: the value read, and either the GET or plain SET the
/// fast path served for it, with its reply, or the command it parses to,
/// handled by `handle_command`, with its action.
pub enum Event {
    Fast { value: RespValue, op: FastOp, reply: RespView },
    Command { value: RespValue, command: CommandView, action: Action },
}

/// Whether a value read is the command `c`, as `parse_command` reads it.
#[verifier::opaque]
pub open spec fn parses_to(value: RespValue, c: CommandView) -> bool {
    crate::protocol::command::parser::parse_spec(value) == Ok::<CommandView, Seq<char>>(c)
}

/// The bytes a step read.
pub open spec fn event_input(e: Event) -> Seq<u8> {
    match e {
        Event::Fast { value, .. } => resp_bytes(value@),
        Event::Command { value, .. } => resp_bytes(value@),
    }
}

/// The bytes the steps read, in order.
pub open spec fn events_input(es: Seq<Event>) -> Seq<u8>
    decreases es.len(),
{
    if es.len() == 0 {
        Seq::empty()
    } else {
        events_input(es.drop_last()) + event_input(es.last())
    }
}

/// What the fast path does: it serves only an authenticated connection outside
/// transactions and pub/sub mode, leaves the session as it is, writes the
/// reply GET or SET gives for the store's answer, and moves the key's version
/// on after a write that took.
pub open spec fn fast_effect(op: FastOp, reply: RespView, s: SessionView, wb: VersionTable, wa: VersionTable) -> bool {
    &&& s.authenticated
    &&& !s.queuing
    &&& s.subscriptions == 0
    &&& match op {
        FastOp::Store(key, _) => exists|o: Result<(), crate::store::StoreErrorView>|
            reply == #[trigger] crate::protocol::command::executor::write_reply_view(o) && (o is Ok ==> wa
                == wb.bumped(key)) && (o is Err ==> wa == wb),
        FastOp::Fetch(_) => wa == wb && exists|o: Result<Seq<u8>, crate::store::StoreErrorView>|
            reply == #[trigger] get_reply_view(o),
    }
}

/// What one step does to the session `s` (to `t`) and the key versions `wb`
/// (to `wa`).
pub open spec fn event_effect(
    e: Event,
    s: SessionView,
    pw: Option<Seq<char>>,
    t: SessionView,
    wb: VersionTable,
    wa: VersionTable,
) -> bool {
    match e {
        Event::Fast { value, op, reply } => fast_op(value@) == Some(op) && t == s && fast_effect(op, reply, s, wb, wa),
        Event::Command { value, command, action } => parses_to(value, command) && command_effect(
            s,
            pw,
            command,
            action,
            t,
            wb,
            wa,
        ),
    }
}

/// The bytes one step writes.
pub open spec fn event_bytes(e: Event) -> Seq<u8> {
    match e {
        Event::Fast { reply, .. } => resp_bytes(reply),
        Event::Command { action, .. } => action_bytes(action),
    }
}

/// The bytes the steps write, in order.
pub open spec fn events_bytes(es: Seq<Event>) -> Seq<u8>
    decreases es.len(),
{
    if es.len() == 0 {
        Seq::empty()
    } else {
        events_bytes(es.drop_last()) + event_bytes(es.last())
    }
}

/// The pub/sub operations the steps lead to, in order.
pub open spec fn events_ops(es: Seq<Event>) -> Seq<PubSubOp>
    decreases es.len(),
{
    if es.len() == 0 {
        Seq::empty()
    } else {
        match es.last() {
            Event::Command { action: Action::PubSub(op), .. } => events_ops(es.drop_last()).push(op),
            _ => events_ops(es.drop_last()),
        }
    }
}

/// Steps `es` lead from session `s` and versions `wb` through the sessions
/// `ss` and versions `ws` to session `t` and versions `wa`.
pub open spec fn steps_lead(
    es: Seq<Event>,
    ss: Seq<SessionView>,
    ws: Seq<VersionTable>,
    s: SessionView,
    pw: Option<Seq<char>>,
    t: SessionView,
    wb: VersionTable,
    wa: VersionTable,
) -> bool {
    &&& ss.len() == es.len() + 1
    &&& ws.len() == es.len() + 1
    &&& ss[0] == s
    &&& ss.last() == t
    &&& ws[0] == wb
    &&& ws.last() == wa
    &&& forall|i: int| 0 <= i < es.len() ==> #[trigger] event_effect(es[i], ss[i], pw, ss[i + 1], ws[i], ws[i + 1])
}

/// Reading that ran the steps `es` from session `s` to `t`: every reply
/// written in order after what was waiting, the pub/sub operations collected
/// in order.
pub open spec fn read_trace(
    es: Seq<Event>,
    s: SessionView,
    pw: Option<Seq<char>>,
    t: SessionView,
    wb: VersionTable,
    wa: VersionTable,
    sent_before: Seq<u8>,
    sent_after: Seq<u8>,
) -> bool {
    &&& exists|ss: Seq<SessionView>, ws: Seq<VersionTable>| #[trigger] steps_lead(es, ss, ws, s, pw, t, wb, wa)
    &&& sent_after == sent_before + events_bytes(es)
}

/// The pub/sub operations a read outcome carries.
pub open spec fn outcome_ops(o: ReadOutcome) -> Seq<PubSubOp> {
    match o {
        ReadOutcome::Done(ops) => ops@,
        ReadOutcome::Quit(ops) => ops@,
        ReadOutcome::External(ops, _) => ops@,
        ReadOutcome::Transaction(ops, _) => ops@,
    }
}

/// Whether a command may run while the connection is subscribed.
pub open spec fn allowed_in_pubsub(c: CommandView) -> bool {
    c is Subscribe || c is Unsubscribe || c is PSubscribe || c is PUnsubscribe || c is Ping || c is Quit
}

/// Whether a command is a pub/sub command.
pub open spec fn is_pubsub(c: CommandView) -> bool {
    c is Subscribe || c is Unsubscribe || c is PSubscribe || c is PUnsubscribe || c is Publish || c is PubSub
}

/// Whether a command is handled by the transaction layer.
pub open spec fn is_transaction(c: CommandView) -> bool {
    c is Multi || c is Exec || c is Discard || c is Watch || c is Unwatch
}

/// An error reply with exactly `text`.
pub open spec fn error_text(text: Seq<char>) -> RespView {
    RespView::Error(text)
}

/// `+QUEUED`.
pub open spec fn queued_view() -> RespView {
    RespView::SimpleString(seq![0x51u8, 0x55u8, 0x45u8, 0x55u8, 0x45u8, 0x44u8])
}

/// An action's reply, for the actions that carry one.
pub open spec fn notice_of(a: Action) -> Option<RespView> {
    match a {
        Action::Notice(v) => Some(v@),
        _ => None,
    }
}

pub open spec fn response_of(a: Action) -> Option<RespView> {
    match a {
        Action::Respond(v) => Some(v@),
        _ => None,
    }
}

/// A connection's protocol state: authentication, the open transaction and
/// its watched keys, pub/sub subscriptions, and the bytes waiting to be sent.
pub struct Connection {
    executor: CommandExecutor,
    authenticated: bool,
    auth_required: bool,
    write_buffer: Vec<u8>,
    write_position: usize,
    pipeline_depth: usize,
    closed: bool,
    connection_id: usize,
    subscription_count: usize,
    pending_pubsub_messages: Vec<RespValue>,
    client_name: Option<String>,
    connected_at: u64,
    commands_processed: u64,
    flags: Vec<String>,
    transaction_state: TransactionState,
    queued_commands: Vec<Command>,
    watched_keys: Vec<(Vec<u8>, u64)>,
    parser: RespParser,
}

impl View for Connection {
    type V = SessionView;

    closed spec fn view(&self) -> SessionView {
        SessionView {
            queuing: self.transaction_state == TransactionState::Queuing,
            queued: command_views(self.queued_commands@),
            watched: version_list(self.watched_keys@),
            authenticated: self.authenticated,
            auth_required: self.auth_required,
            subscriptions: self.subscription_count as nat,
            closed: self.closed,
            client_name: opt_name(self.client_name),
        }
    }
}

pub open spec fn opt_name(o: Option<String>) -> Option<Seq<char>> {
    match o {
        Some(s) => Some(s@),
        None => None,
    }
}

/// The flag a subscribed connection carries.
pub open spec fn pubsub_flag() -> Seq<char> {
    "pubsub"@
}

/// Flags without any `pubsub`.
pub open spec fn without_pubsub(flags: Seq<Seq<char>>) -> Seq<Seq<char>>
    decreases flags.len(),
{
    if flags.len() == 0 {
        Seq::empty()
    } else if flags.last() == pubsub_flag() {
        without_pubsub(flags.drop_last())
    } else {
        without_pubsub(flags.drop_last()).push(flags.last())
    }
}

/// Texts as sequences.
pub open spec fn text_views(items: Seq<String>) -> Seq<Seq<char>> {
    items.map_values(|s: String| s@)
}

impl Connection {
    /// Every queued command's counters fit, and each watched key occurs once.
    pub closed spec fn well_formed(&self) -> bool {
        &&& distinct_keys(self.watched_keys@)
        &&& forall|i: int|
            0 <= i < self.queued_commands@.len() ==> crate::protocol::command::executor::counts_fit(
                #[trigger] self.queued_commands@[i]@,
            )
        &&& self.write_position <= self.write_buffer@.len()
        &&& self.parser.well_formed()
    }

    pub closed spec fn id(&self) -> usize {
        self.connection_id
    }

    pub closed spec fn connected_time(&self) -> u64 {
        self.connected_at
    }

    /// How many commands the connection has read.
    pub closed spec fn processed(&self) -> u64 {
        self.commands_processed
    }

    /// The connection's number.
    pub fn connection_id(&self) -> (r: usize)
        ensures
            r == self.id(),
    {
        self.connection_id
    }

    /// When the connection was accepted.
    pub fn connected_at(&self) -> (r: u64)
        ensures
            r == self.connected_time(),
    {
        self.connected_at
    }

    /// How many commands the connection has read.
    pub fn commands_processed(&self) -> (r: u64)
        ensures
            r == self.processed(),
    {
        self.commands_processed
    }

    /// The name the client gave with CLIENT SETNAME, if any.
    pub fn client_name(&self) -> (r: &Option<String>)
        ensures
            opt_name(*r) == self@.client_name,
    {
        &self.client_name
    }

    /// The client's flags.
    pub fn flags(&self) -> (r: &[String])
        ensures
            text_views(r@) == self.flag_texts(),
    {
        self.flags.as_slice()
    }

    /// The client's flags.
    pub closed spec fn flag_texts(&self) -> Seq<Seq<char>> {
        text_views(self.flags@)
    }

    /// The version each watched key was watched at.
    pub closed spec fn watched_versions(&self) -> Map<Seq<u8>, u64> {
        entries_map(self.watched_keys@)
    }

    /// The bytes written but not yet sent.
    pub closed spec fn unsent(&self) -> Seq<u8> {
        self.write_buffer@.subrange(self.write_position as int, self.write_buffer@.len() as int)
    }

    /// The pub/sub messages waiting to be written.
    pub closed spec fn waiting_messages(&self) -> Seq<RespView> {
        views(self.pending_pubsub_messages@)
    }

    /// The password clients must give, if any.
    pub closed spec fn password(&self) -> Option<Seq<char>> {
        self.executor.password()
    }

    /// A connection with nothing sent or received, authenticated from the
    /// start when no password is required.
    pub fn new(connection_id: usize, executor: CommandExecutor, auth_required: bool, connected_at: u64) -> (r: Self)
        ensures
            r.well_formed(),
            r@ == (SessionView {
                queuing: false,
                queued: Seq::empty(),
                watched: Seq::empty(),
                authenticated: !auth_required,
                auth_required,
                subscriptions: 0,
                closed: false,
                client_name: None,
            }),
            r.unsent() == Seq::<u8>::empty(),
            r.waiting_messages() == Seq::<RespView>::empty(),
            r.id() == connection_id,
            r.connected_time() == connected_at,
            r.processed() == 0,
            r.flag_texts() == Seq::<Seq<char>>::empty(),
            r.password() == executor.password(),
    {
        let r = Connection {
            executor,
            authenticated: !auth_required,
            auth_required,
            write_buffer: Vec::new(),
            write_position: 0,
            pipeline_depth: 0,
            closed: false,
            connection_id,
            subscription_count: 0,
            pending_pubsub_messages: Vec::new(),
            client_name: None,
            connected_at,
            commands_processed: 0,
            flags: Vec::new(),
            transaction_state: TransactionState::Idle,
            queued_commands: Vec::new(),
            watched_keys: Vec::new(),
            parser: RespParser::new(),
        };
        assert(r@.queued =~= Seq::<CommandView>::empty());
        assert(r@.watched =~= Seq::<(Seq<u8>, u64)>::empty());
        assert(r.unsent() =~= Seq::<u8>::empty());
        assert(r.waiting_messages() =~= Seq::<RespView>::empty());
        assert(r.flag_texts() =~= Seq::<Seq<char>>::empty());
        r
    }

    pub fn is_closed(&self) -> (r: bool)
        ensures
            r == self@.closed,
    {
        self.closed
    }

    /// Marks the connection closed.
    pub fn close(&mut self)
        ensures
            final(self).processed() == old(self).processed(),
            final(self)@ == (SessionView { closed: true, ..old(self)@ }),
            final(self).well_formed() == old(self).well_formed(),
            final(self).unsent() == old(self).unsent(),
            final(self).waiting_messages() == old(self).waiting_messages(),
            final(self).password() == old(self).password(),
            final(self).unread() == old(self).unread(),
    {
        if !self.closed {
            self.closed = true;
        }
    }

    /// Sets whether the client has authenticated.
    pub fn set_authenticated(&mut self, authenticated: bool)
        ensures
            final(self).processed() == old(self).processed(),
            final(self)@ == (SessionView { authenticated, ..old(self)@ }),
            final(self).well_formed() == old(self).well_formed(),
            final(self).unsent() == old(self).unsent(),
            final(self).waiting_messages() == old(self).waiting_messages(),
            final(self).password() == old(self).password(),
            final(self).unread() == old(self).unread(),
    {
        self.authenticated = authenticated;
    }

    /// Whether the client may run commands: no password is required, or it
    /// has authenticated.
    pub fn is_authenticated(&self) -> (r: bool)
        ensures
            r == (!self@.auth_required || self@.authenticated),
    {
        !self.auth_required || self.authenticated
    }

    /// The bytes written but not yet sent, if any.
    pub fn pending_writes(&self) -> (r: Option<&[u8]>)
        requires
            self.well_formed(),
        ensures
            match r {
                Some(b) => b@ == self.unsent() && b@.len() > 0,
                None => self.unsent().len() == 0,
            },
    {
        if self.write_position < self.write_buffer.len() {
            Some(&self.write_buffer.as_slice()[self.write_position..self.write_buffer.len()])
        } else {
            None
        }
    }

    /// Marks the first `n` unsent bytes as sent.
    pub fn consume_writes(&mut self, n: usize)
        requires
            old(self).well_formed(),
            n <= old(self).unsent().len(),
        ensures
            final(self).well_formed(),
            final(self)@ == old(self)@,
            final(self).unsent() == old(self).unsent().subrange(n as int, old(self).unsent().len() as int),
    {
        let len = self.write_buffer.len();
        assert(self.unsent().len() == len - self.write_position);
        self.write_position = self.write_position + n;
        assert(self.unsent() =~= old(self).unsent().subrange(n as int, old(self).unsent().len() as int));
    }

    /// Queues a pub/sub message, already in its reply form, to be written.
    pub fn queue_pubsub_message(&mut self, message: RespValue)
        ensures
            final(self).processed() == old(self).processed(),
            final(self)@ == old(self)@,
            final(self).well_formed() == old(self).well_formed(),
            final(self).unsent() == old(self).unsent(),
            final(self).waiting_messages() == old(self).waiting_messages().push(message@),
    {
        self.pending_pubsub_messages.push(message);
        assert(self.queued_commands@ == old(self).queued_commands@);
        assert(self.watched_keys@ == old(self).watched_keys@);
        assert(self.waiting_messages() =~= old(self).waiting_messages().push(message@));
    }

    /// Whether the connection has subscriptions.
    pub fn is_in_pubsub_mode(&self) -> (r: bool)
        ensures
            r == (self@.subscriptions > 0),
    {
        self.subscription_count > 0
    }

    /// Records the number of subscriptions, and whether the `pubsub` flag is set.
    pub fn set_subscription_count(&mut self, count: usize)
        ensures
            final(self).processed() == old(self).processed(),
            final(self)@ == (SessionView { subscriptions: count as nat, ..old(self)@ }),
            final(self).well_formed() == old(self).well_formed(),
            final(self).unsent() == old(self).unsent(),
            final(self).flag_texts() == (if count > 0 {
                if old(self).flag_texts().contains(pubsub_flag()) {
                    old(self).flag_texts()
                } else {
                    old(self).flag_texts().push(pubsub_flag())
                }
            } else {
                without_pubsub(old(self).flag_texts())
            }),
    {
        self.subscription_count = count;
        if count > 0 {
            let mut present = false;
            let mut k: usize = 0;
            while k < self.flags.len()
                invariant
                    k <= self.flags@.len(),
                    present <==> exists|j: int| 0 <= j < k && text_views(self.flags@)[j] == pubsub_flag(),
                decreases self.flags@.len() - k,
            {
                assert(text_views(self.flags@)[k as int] == self.flags@[k as int]@);
                if text_eq(self.flags[k].as_str(), "pubsub") {
                    present = true;
                }
                k += 1;
            }
            if !present {
                let ghost before = self.flags@;
                self.flags.push(owned("pubsub"));
                assert(text_views(self.flags@) =~= text_views(before).push(pubsub_flag()));
            }
        } else {
            let ghost before = text_views(self.flags@);
            let mut kept: Vec<String> = Vec::new();
            let mut k: usize = 0;
            while k < self.flags.len()
                invariant
                    k <= self.flags@.len(),
                    before == text_views(self.flags@),
                    text_views(kept@) == without_pubsub(before.take(k as int)),
                decreases self.flags@.len() - k,
            {
                assert(before.take(k + 1).drop_last() =~= before.take(k as int));
                if !text_eq(self.flags[k].as_str(), "pubsub") {
                    let ghost old_kept = kept@;
                    let copy = owned(self.flags[k].as_str());
                    kept.push(copy);
                    assert(text_views(kept@) =~= text_views(old_kept).push(copy@));
                }
                k += 1;
            }
            assert(before.take(k as int) =~= before);
            self.flags = kept;
        }
    }

    /// Writes every waiting pub/sub message, in order.
    pub fn process_pubsub_messages(&mut self)
        requires
            old(self).well_formed(),
        ensures
            final(self).processed() == old(self).processed(),
            final(self).well_formed(),
            final(self)@ == old(self)@,
            final(self).waiting_messages() == Seq::<RespView>::empty(),
            final(self).unsent() == old(self).unsent() + crate::protocol::resp::resp_concat(old(self).waiting_messages()),
    {
        let mut messages: Vec<RespValue> = Vec::new();
        std::mem::swap(&mut messages, &mut self.pending_pubsub_messages);
        let ghost start = self.write_buffer@;
        let mut k: usize = 0;
        while k < messages.len()
            invariant
                k <= messages@.len(),
                self.write_position <= start.len(),
                self.pending_pubsub_messages@.len() == 0,
                views(messages@) == old(self).waiting_messages(),
                self.write_position == old(self).write_position,
                start == old(self).write_buffer@,
                self.queued_commands@ == old(self).queued_commands@,
                self.watched_keys@ == old(self).watched_keys@,
                self.transaction_state == old(self).transaction_state,
                self.authenticated == old(self).authenticated,
                self.auth_required == old(self).auth_required,
                self.subscription_count == old(self).subscription_count,
                self.closed == old(self).closed,
                self.client_name == old(self).client_name,
                self.parser == old(self).parser,
                self.commands_processed == old(self).commands_processed,
                self.write_buffer@ == start + crate::protocol::resp::resp_concat(views(messages@).take(k as int)),
            decreases messages@.len() - k,
        {
            write_resp_value(&mut self.write_buffer, &messages[k]);
            assert(views(messages@).take(k + 1).drop_last() =~= views(messages@).take(k as int));
            k += 1;
        }
        assert(views(messages@).take(k as int) =~= views(messages@));
        assert(self.waiting_messages() =~= Seq::<RespView>::empty());
        assert(self.unsent() =~= old(self).unsent() + crate::protocol::resp::resp_concat(old(self).waiting_messages()));
    }
}

/// The session after CLIENT SETNAME records the client's name.
pub open spec fn named(s: SessionView, c: CommandView) -> SessionView {
    match c {
        CommandView::Client { subcommand, args } => if upper_text(subcommand) == "SETNAME"@ && args.len() > 0 {
            SessionView { client_name: Some(lossy_text(args[0])), ..s }
        } else {
            s
        },
        _ => s,
    }
}

/// Whether a command gets past QUIT and the pub/sub-mode restriction.
pub open spec fn admitted(s: SessionView, c: CommandView) -> bool {
    !(c is Quit) && !(s.subscriptions > 0 && !allowed_in_pubsub(c))
}

/// Whether a command runs now: admitted, not a transaction command, and no
/// transaction is queuing.
pub open spec fn runs_now(s: SessionView, c: CommandView) -> bool {
    admitted(s, c) && !is_transaction(c) && !s.queuing
}

/// Whether an EXEC reply matches the queued command it answers.
pub open spec fn answers(reply: Reply, c: CommandView) -> bool {
    match reply {
        Reply::Pending(x) => answered_elsewhere(c) && x@ == c,
        Reply::Ready(_) => !answered_elsewhere(c),
    }
}

/// Whether an action is a transaction answering each queued command in order.
pub open spec fn transaction_answers(a: Action, queued: Seq<CommandView>) -> bool {
    match a {
        Action::Transaction(replies) => replies@.len() == queued.len() && forall|i: int|
            0 <= i < replies@.len() ==> answers(#[trigger] replies@[i], queued[i]),
        _ => false,
    }
}

/// What running one queued command at EXEC gives: a command left to the
/// caller stays pending and changes no version; any other is executed, its
/// reply and version change as `execute` states them.
pub open spec fn reply_effect(c: CommandView, reply: Reply, pw_set: bool, wb: VersionTable, wa: VersionTable) -> bool {
    match reply {
        Reply::Pending(x) => answered_elsewhere(c) && x@ == c && wa == wb,
        Reply::Ready(v) => {
            &&& !answered_elsewhere(c)
            &&& crate::protocol::command::executor::watch_effect(c, v@, wb, wa)
            &&& crate::protocol::command::executor::store_reply_ok(c, v@)
            &&& (crate::protocol::command::executor::fixed_reply(c, pw_set) matches Some(f) ==> v@ == f)
        },
    }
}

/// EXEC's replies to the queued commands, run in order from key versions `wb`
/// to `wa`.
pub open spec fn exec_answers(a: Action, queued: Seq<CommandView>, pw_set: bool, wb: VersionTable, wa: VersionTable) -> bool {
    match a {
        Action::Transaction(replies) => {
            &&& replies@.len() == queued.len()
            &&& exists|ws: Seq<VersionTable>|
                ws.len() == queued.len() + 1 && ws[0] == wb && ws.last() == wa && forall|i: int|
                    0 <= i < queued.len() ==> #[trigger] reply_effect(queued[i], replies@[i], pw_set, ws[i], ws[i + 1])
        },
        _ => false,
    }
}

/// The watched keys `t` after WATCH of `keys` at versions `wb`, from `s`: each
/// watched key with the version it has now, the others as they were.
pub open spec fn watches(t: Seq<(Seq<u8>, u64)>, s: Seq<(Seq<u8>, u64)>, keys: Seq<Seq<u8>>, wb: VersionTable) -> bool {
    forall|k: Seq<u8>, v: u64|
        #[trigger] t.contains((k, v)) <==> if keys.contains(k) {
            v == wb.version_of(k)
        } else {
            s.contains((k, v))
        }
}

/// WATCH then a modification aborts EXEC: once WATCH has recorded the keys
/// `keys` at versions `wb`, if one of them is among the keys modified before
/// EXEC (the version counter not wrapping around), EXEC in that session
/// answers with the null reply, runs nothing and ends the transaction.
pub proof fn law_watched_then_modified_aborts_exec(
    s: SessionView,
    t: SessionView,
    keys: Seq<Seq<u8>>,
    wb: VersionTable,
    modified: Seq<Seq<u8>>,
    k: Seq<u8>,
    pw: Option<Seq<char>>,
    a: Action,
    u: SessionView,
    wa: VersionTable,
)
    requires
        wb.well_formed(),
        wb.next + modified.len() <= u64::MAX,
        watches(t.watched, s.watched, keys, wb),
        keys.contains(k),
        modified.contains(k),
        t.queuing,
        admitted(t, CommandView::Exec),
        command_effect(t, pw, CommandView::Exec, a, u, wb.bumped_all(modified), wa),
    ensures
        notice_of(a) == Some(null_view()),
        u == t.reset(),
        wa == wb.bumped_all(modified),
{
    assert(t.watched.contains((k, wb.version_of(k))));
    crate::watch_registry::law_modified_watch_aborts(wb, t.watched, modified, k);
}

/// With nothing watched (after UNWATCH, or no WATCH at all), EXEC runs the
/// queued commands whatever was modified meanwhile: it answers each of them
/// in order and ends the transaction.
pub proof fn law_unwatched_exec_runs(
    t: SessionView,
    pw: Option<Seq<char>>,
    a: Action,
    u: SessionView,
    wb: VersionTable,
    wa: VersionTable,
)
    requires
        t.watched.len() == 0,
        t.queuing,
        admitted(t, CommandView::Exec),
        command_effect(t, pw, CommandView::Exec, a, u, wb, wa),
    ensures
        transaction_answers(a, t.queued),
        exec_answers(a, t.queued, pw is Some, wb, wa),
        u == t.reset(),
{
    assert(wb.all_unchanged(t.watched));
}

/// `$-1`, the null bulk string.
pub open spec fn null_view() -> RespView {
    RespView::BulkString(None)
}

/// Whether a command can be answered by the library.
fn answered_by_library(c: &Command) -> (r: bool)
    ensures
        r == !answered_elsewhere(c@),
{
    match c {
        Command::Info(_) | Command::LPush { .. } | Command::RPush { .. } | Command::LPop { .. } | Command::RPop {
            ..
        } | Command::LLen(_) | Command::LRange { .. } | Command::LIndex { .. } | Command::Client { .. } => false,
        Command::Command { subcommand, .. } => !uses_command_table(subcommand),
        _ => true,
    }
}

/// `+QUEUED`.
fn queued_reply() -> (r: RespValue)
    ensures
        r@ == queued_view(),
{
    let mut text: Vec<u8> = Vec::new();
    text.push(0x51u8);
    text.push(0x55u8);
    text.push(0x45u8);
    text.push(0x55u8);
    text.push(0x45u8);
    text.push(0x44u8);
    assert(text@ =~= seq![0x51u8, 0x55u8, 0x45u8, 0x55u8, 0x45u8, 0x44u8]);
    RespValue::SimpleString(text)
}

impl Connection {
    /// Sets the version recorded for a watched key.
    fn record_watch(&mut self, key: Vec<u8>, version: u64)
        requires
            old(self).well_formed(),
        ensures
            final(self).processed() == old(self).processed(),
            final(self).well_formed(),
            final(self).watched_versions() == old(self).watched_versions().insert(key@, version),
            final(self)@ == (SessionView { watched: final(self)@.watched, ..old(self)@ }),
            final(self).unsent() == old(self).unsent(),
            final(self).waiting_messages() == old(self).waiting_messages(),
            final(self).password() == old(self).password(),
            final(self).unread() == old(self).unread(),
    {
        let ghost before = self.watched_keys@;
        let mut i: usize = 0;
        while i < self.watched_keys.len()
            invariant
                *self == *old(self),
                old(self).well_formed(),
                self.watched_keys@ == before,
                before == old(self).watched_keys@,
                distinct_keys(before),
                i <= before.len(),
                forall|j: int| 0 <= j < i ==> before[j].0@ != key@,
            decreases before.len() - i,
        {
            if bytes_eq(self.watched_keys[i].0.as_slice(), key.as_slice()) {
                let name = slice_to_vec(self.watched_keys[i].0.as_slice());
                self.watched_keys.set(i, (name, version));
                proof {
                    let after = self.watched_keys@;
                    assert forall|a: int, b: int|
                        0 <= a < after.len() && 0 <= b < after.len() && a != b implies #[trigger] after[a].0@
                        != #[trigger] after[b].0@ by {
                        assert(after[a].0@ == before[a].0@);
                        assert(after[b].0@ == before[b].0@);
                    }
                    assert forall|k: Seq<u8>| has_key(after, k) <==> has_key(before, k) by {
                        if has_key(after, k) {
                            let a = choose|a: int| 0 <= a < after.len() && #[trigger] after[a].0@ == k;
                            assert(before[a].0@ == k);
                        }
                        if has_key(before, k) {
                            let a = choose|a: int| 0 <= a < before.len() && #[trigger] before[a].0@ == k;
                            assert(after[a].0@ == k);
                        }
                    }
                    assert forall|k: Seq<u8>| #[trigger] entries_map(after).contains_key(k) implies entries_map(after)[k]
                        == entries_map(before).insert(key@, version)[k] by {
                        let a = choose|a: int| 0 <= a < after.len() && #[trigger] after[a].0@ == k;
                        lemma_entry_in_map(after, a);
                        lemma_entry_in_map(before, a);
                    }
                    lemma_entry_in_map(before, i as int);
                    assert(entries_map(after) =~= entries_map(before).insert(key@, version));
                    assert(self.queued_commands@ == old(self).queued_commands@);
                    assert(distinct_keys(self.watched_keys@));
                    assert(self.write_position <= self.write_buffer@.len());
                    assert(forall|i: int|
                        0 <= i < self.queued_commands@.len() ==> crate::protocol::command::executor::counts_fit(
                            #[trigger] self.queued_commands@[i]@,
                        ));
                }
                return;
            }
            i += 1;
        }
        proof {
            assert(!has_key(before, key@));
        }
        self.watched_keys.push((key, version));
        proof {
            let after = self.watched_keys@;
            assert(after.drop_last() == before);
            assert forall|a: int, b: int|
                0 <= a < after.len() && 0 <= b < after.len() && a != b implies #[trigger] after[a].0@
                != #[trigger] after[b].0@ by {
                if a == before.len() {
                    assert(before[b].0@ == after[b].0@);
                } else if b == before.len() {
                    assert(before[a].0@ == after[a].0@);
                } else {
                    assert(before[a].0@ == after[a].0@);
                    assert(before[b].0@ == after[b].0@);
                }
            }
            assert forall|k: Seq<u8>| has_key(after, k) <==> (has_key(before, k) || k == key@) by {
                if has_key(after, k) {
                    let a = choose|a: int| 0 <= a < after.len() && #[trigger] after[a].0@ == k;
                    if a < before.len() {
                        assert(before[a].0@ == k);
                    }
                }
                if has_key(before, k) {
                    let a = choose|a: int| 0 <= a < before.len() && #[trigger] before[a].0@ == k;
                    assert(after[a].0@ == k);
                }
                if k == key@ {
                    assert(after[before.len() as int].0@ == k);
                }
            }
            assert forall|k: Seq<u8>| #[trigger] entries_map(after).contains_key(k) implies entries_map(after)[k]
                == entries_map(before).insert(key@, version)[k] by {
                let a = choose|a: int| 0 <= a < after.len() && #[trigger] after[a].0@ == k;
                lemma_entry_in_map(after, a);
                if a < before.len() {
                    lemma_entry_in_map(before, a);
                }
            }
            assert(entries_map(after) =~= entries_map(before).insert(key@, version));
            assert(self.queued_commands@ == old(self).queued_commands@);
        }
    }

    /// Forgets every watched key.
    fn clear_watches(&mut self)
        requires
            old(self).well_formed(),
        ensures
            final(self).processed() == old(self).processed(),
            final(self).well_formed(),
            final(self)@ == (SessionView { watched: Seq::empty(), ..old(self)@ }),
            final(self).watched_versions() == Map::<Seq<u8>, u64>::empty(),
            final(self).unsent() == old(self).unsent(),
            final(self).waiting_messages() == old(self).waiting_messages(),
            final(self).password() == old(self).password(),
            final(self).unread() == old(self).unread(),
    {
        self.watched_keys = Vec::new();
        assert(self@.watched =~= Seq::<(Seq<u8>, u64)>::empty());
        assert(self.watched_versions() =~= Map::<Seq<u8>, u64>::empty());
    }

    /// Leaves the transaction: nothing queued, nothing watched.
    fn reset_transaction(&mut self)
        requires
            old(self).well_formed(),
        ensures
            final(self).processed() == old(self).processed(),
            final(self).well_formed(),
            final(self)@ == old(self)@.reset(),
            final(self).unsent() == old(self).unsent(),
            final(self).waiting_messages() == old(self).waiting_messages(),
            final(self).password() == old(self).password(),
            final(self).unread() == old(self).unread(),
    {
        self.transaction_state = TransactionState::Idle;
        self.queued_commands = Vec::new();
        self.clear_watches();
        assert(self@.queued =~= Seq::<CommandView>::empty());
    }

    /// MULTI: starts queuing, unless a transaction is already open.
    fn handle_multi(&mut self) -> (r: Action)
        requires
            old(self).well_formed(),
        ensures
            final(self).processed() == old(self).processed(),
            final(self).well_formed(),
            final(self).unsent() == old(self).unsent(),
            final(self).waiting_messages() == old(self).waiting_messages(),
            final(self).password() == old(self).password(),
            final(self).unread() == old(self).unread(),
            old(self)@.queuing ==> notice_of(r) == Some(error_text("-ERR MULTI calls can not be nested"@))
                && final(self)@ == old(self)@,
            !old(self)@.queuing ==> notice_of(r) == Some(ok_view()) && final(self)@ == (SessionView {
                queuing: true,
                queued: Seq::empty(),
                ..old(self)@
            }),
    {
        if self.transaction_state == TransactionState::Queuing {
            return Action::Notice(RespValue::Error(owned("-ERR MULTI calls can not be nested")));
        }
        self.transaction_state = TransactionState::Queuing;
        self.queued_commands = Vec::new();
        assert(self@.queued =~= Seq::<CommandView>::empty());
        Action::Notice(crate::protocol::command::executor::ok_reply())
    }

    /// DISCARD: drops the open transaction and the watched keys.
    fn handle_discard(&mut self) -> (r: Action)
        requires
            old(self).well_formed(),
        ensures
            final(self).processed() == old(self).processed(),
            final(self).well_formed(),
            final(self).unsent() == old(self).unsent(),
            final(self).waiting_messages() == old(self).waiting_messages(),
            final(self).password() == old(self).password(),
            final(self).unread() == old(self).unread(),
            !old(self)@.queuing ==> notice_of(r) == Some(error_text("-ERR DISCARD without MULTI"@))
                && final(self)@ == old(self)@,
            old(self)@.queuing ==> notice_of(r) == Some(ok_view()) && final(self)@ == old(self)@.reset(),
    {
        if self.transaction_state != TransactionState::Queuing {
            return Action::Notice(RespValue::Error(owned("-ERR DISCARD without MULTI")));
        }
        self.reset_transaction();
        Action::Notice(crate::protocol::command::executor::ok_reply())
    }

    /// UNWATCH: forgets the watched keys.
    fn handle_unwatch(&mut self) -> (r: Action)
        requires
            old(self).well_formed(),
        ensures
            final(self).processed() == old(self).processed(),
            final(self).well_formed(),
            final(self).unsent() == old(self).unsent(),
            final(self).waiting_messages() == old(self).waiting_messages(),
            final(self).password() == old(self).password(),
            final(self).unread() == old(self).unread(),
            notice_of(r) == Some(ok_view()),
            final(self)@ == (SessionView { watched: Seq::empty(), ..old(self)@ }),
    {
        self.clear_watches();
        Action::Notice(crate::protocol::command::executor::ok_reply())
    }

    /// WATCH: records each key's current version, unless a transaction is open.
    fn handle_watch(&mut self, keys: Vec<Vec<u8>>, watch: &WatchRegistry) -> (r: Action)
        requires
            old(self).well_formed(),
        ensures
            final(self).processed() == old(self).processed(),
            final(self).well_formed(),
            final(self).unsent() == old(self).unsent(),
            final(self).waiting_messages() == old(self).waiting_messages(),
            final(self).password() == old(self).password(),
            final(self).unread() == old(self).unread(),
            old(self)@.queuing ==> notice_of(r) == Some(error_text("-ERR WATCH inside MULTI is not allowed"@))
                && final(self)@ == old(self)@,
            !old(self)@.queuing ==> notice_of(r) == Some(ok_view()) && final(self)@ == (SessionView {
                watched: final(self)@.watched,
                ..old(self)@
            }) && (forall|k: Seq<u8>|
                #[trigger] final(self).watched_versions().contains_key(k) <==> (old(self).watched_versions().contains_key(k)
                    || crate::protocol::command::bytes_list(keys@).contains(k))) && (forall|k: Seq<u8>|
                crate::protocol::command::bytes_list(keys@).contains(k) ==> #[trigger] final(self).watched_versions()[k]
                    == watch@.version_of(k)) && (forall|k: Seq<u8>|
                !crate::protocol::command::bytes_list(keys@).contains(k) && old(self).watched_versions().contains_key(k)
                    ==> #[trigger] final(self).watched_versions()[k] == old(self).watched_versions()[k]),
            !old(self)@.queuing ==> watches(
                final(self)@.watched,
                old(self)@.watched,
                crate::protocol::command::bytes_list(keys@),
                watch@,
            ),
    {
        if self.transaction_state == TransactionState::Queuing {
            return Action::Notice(RespValue::Error(owned("-ERR WATCH inside MULTI is not allowed")));
        }
        let ghost names = crate::protocol::command::bytes_list(keys@);
        let ghost start = self.watched_versions();
        let mut k: usize = 0;
        while k < keys.len()
            invariant
                names == crate::protocol::command::bytes_list(keys@),
                k <= keys@.len(),
                self.well_formed(),
                self@ == (SessionView { watched: self@.watched, ..old(self)@ }),
                self.unsent() == old(self).unsent(),
                self.waiting_messages() == old(self).waiting_messages(),
                self.password() == old(self).password(),
                self.unread() == old(self).unread(),
                self.processed() == old(self).processed(),
                start == old(self).watched_versions(),
                forall|x: Seq<u8>|
                    #[trigger] self.watched_versions().contains_key(x) <==> (start.contains_key(x) || names.take(
                        k as int,
                    ).contains(x)),
                forall|x: Seq<u8>| names.take(k as int).contains(x) ==> #[trigger] self.watched_versions()[x] == watch@.version_of(x),
                forall|x: Seq<u8>|
                    !names.take(k as int).contains(x) && start.contains_key(x) ==> #[trigger] self.watched_versions()[x]
                        == start[x],
            decreases keys@.len() - k,
        {
            let version = watch.get_key_version(keys[k].as_slice());
            let key = slice_to_vec(keys[k].as_slice());
            self.record_watch(key, version);
            proof {
                assert(names.take(k + 1) =~= names.take(k as int).push(names[k as int]));
                assert(names[k as int] == keys@[k as int]@);
                let shorter = names.take(k as int);
                let longer = names.take(k + 1);
                assert forall|x: Seq<u8>| longer.contains(x) <==> (shorter.contains(x) || x == names[k as int]) by {
                    if longer.contains(x) {
                        let j = choose|j: int| 0 <= j < longer.len() && #[trigger] longer[j] == x;
                        if j < k {
                            assert(shorter[j] == x);
                        }
                    }
                    if shorter.contains(x) {
                        let j = choose|j: int| 0 <= j < shorter.len() && #[trigger] shorter[j] == x;
                        assert(longer[j] == x);
                    }
                    if x == names[k as int] {
                        assert(longer[k as int] == x);
                    }
                }
            }
            k += 1;
        }
        proof {
            assert(names.take(k as int) =~= names);
            lemma_watched_view(*self);
            lemma_watched_view(*old(self));
        }
        Action::Notice(crate::protocol::command::executor::ok_reply())
    }
}

impl Connection {
    /// EXEC: runs the queued commands in order, unless no transaction is open
    /// or a watched key changed since it was watched, which aborts with a null
    /// reply; either way the transaction and the watched keys are dropped.
    fn handle_exec(&mut self, watch: &mut WatchRegistry, tracker: &mut MetadataTracker) -> (r: Action)
        requires
            old(self).well_formed(),
            old(tracker).well_formed(),
        ensures
            final(self).processed() == old(self).processed(),
            final(self).well_formed(),
            final(tracker).well_formed(),
            final(self).unsent() == old(self).unsent(),
            final(self).waiting_messages() == old(self).waiting_messages(),
            final(self).password() == old(self).password(),
            final(self).unread() == old(self).unread(),
            !old(self)@.queuing ==> notice_of(r) == Some(error_text("-ERR EXEC without MULTI"@))
                && final(self)@ == old(self)@ && final(watch)@ == old(watch)@,
            old(self)@.queuing && !old(watch)@.all_unchanged(old(self)@.watched) ==> notice_of(r) == Some(null_view())
                && final(self)@ == old(self)@.reset() && final(watch)@ == old(watch)@,
            old(self)@.queuing && old(watch)@.all_unchanged(old(self)@.watched) ==> final(self)@ == old(self)@.reset()
                && transaction_answers(r, old(self)@.queued) && exec_answers(
                r,
                old(self)@.queued,
                old(self).password() is Some,
                old(watch)@,
                final(watch)@,
            ),
    {
        if self.transaction_state != TransactionState::Queuing {
            return Action::Notice(RespValue::Error(owned("-ERR EXEC without MULTI")));
        }
        if !watch.check_keys_unchanged(self.watched_keys.as_slice()) {
            self.reset_transaction();
            return Action::Notice(RespValue::BulkString(None));
        }
        let mut commands: Vec<Command> = Vec::new();
        std::mem::swap(&mut commands, &mut self.queued_commands);
        let ghost queued = command_views(commands@);
        assert(queued == old(self)@.queued);
        let total = commands.len();
        assert(queued.len() == total);
        let mut results: Vec<Reply> = Vec::new();
        let mut k: usize = 0;
        let ghost pw_set = old(self).password() is Some;
        let ghost mut ws: Seq<VersionTable> = seq![watch@];
        while commands.len() > 0
            invariant
                pw_set == (self.executor.password() is Some),
                ws.len() == k + 1,
                ws[0] == old(watch)@,
                ws.last() == watch@,
                forall|i: int| 0 <= i < k ==> #[trigger] reply_effect(queued[i], results@[i], pw_set, ws[i], ws[i + 1]),
                tracker.well_formed(),
                queued == old(self)@.queued,
                queued.len() == total,
                k + commands@.len() == queued.len(),
                command_views(commands@) == queued.subrange(k as int, queued.len() as int),
                forall|i: int| 0 <= i < commands@.len() ==> crate::protocol::command::executor::counts_fit(#[trigger] commands@[i]@),
                results@.len() == k,
                forall|i: int| 0 <= i < k ==> answers(#[trigger] results@[i], queued[i]),
            decreases commands@.len(),
        {
            let ghost before = commands@;
            let cmd = commands.remove(0);
            proof {
                assert(command_views(before)[0] == before[0]@);
                assert(command_views(before)[0] == queued[k as int]);
                assert(commands@ =~= before.subrange(1, before.len() as int));
                assert(command_views(commands@) =~= command_views(before).subrange(1, before.len() as int));
                assert(cmd@ == queued[k as int]);
                assert(command_views(commands@) =~= queued.subrange(k + 1, queued.len() as int));
                assert forall|i: int| 0 <= i < commands@.len() implies crate::protocol::command::executor::counts_fit(
                    #[trigger] commands@[i]@,
                ) by {
                    assert(commands@[i] == before[i + 1]);
                }
            }
            let ghost wbefore = watch@;
            let ghost rbefore = results@;
            if answered_by_library(&cmd) {
                match self.executor.execute(cmd, watch, tracker) {
                    Some(v) => results.push(Reply::Ready(v)),
                    None => {
                        assert(false);
                    },
                }
            } else {
                results.push(Reply::Pending(cmd));
            }
            proof {
                assert(reply_effect(queued[k as int], results@[k as int], pw_set, wbefore, watch@));
                let ws2 = ws.push(watch@);
                assert forall|i: int| 0 <= i < k + 1 implies #[trigger] reply_effect(
                    queued[i],
                    results@[i],
                    pw_set,
                    ws2[i],
                    ws2[i + 1],
                ) by {
                    if i < k {
                        assert(results@[i] == rbefore[i]);
                        assert(ws2[i] == ws[i] && ws2[i + 1] == ws[i + 1]);
                    }
                }
                ws = ws2;
            }
            k += 1;
        }
        proof {
            assert(ws.len() == queued.len() + 1);
        }
        self.reset_transaction();
        Action::Transaction(results)
    }

    /// A command outside transactions: refused before authentication (but
    /// for AUTH and PING), AUTH checked against the password, pub/sub
    /// commands handed to the pub/sub layer, the rest executed.
    fn handle_regular(&mut self, command: Command, watch: &mut WatchRegistry, tracker: &mut MetadataTracker) -> (r: Action)
        requires
            old(self).well_formed(),
            old(tracker).well_formed(),
            crate::protocol::command::executor::counts_fit(command@),
        ensures
            final(self).processed() == old(self).processed(),
            final(self).well_formed(),
            final(tracker).well_formed(),
            final(self).unsent() == old(self).unsent(),
            final(self).waiting_messages() == old(self).waiting_messages(),
            final(self).password() == old(self).password(),
            final(self).unread() == old(self).unread(),
            !old(self)@.authenticated && !(command@ is Auth) && !(command@ is Ping) ==> response_of(r) == Some(
                error_text("-NOAUTH Authentication required."@),
            ) && final(self)@ == old(self)@ && final(watch)@ == old(watch)@,
            command@ matches CommandView::Auth(p) ==> final(watch)@ == old(watch)@ && (if !old(self)@.auth_required {
                response_of(r) == Some(error_text("-ERR Client sent AUTH, but no password is set"@)) && final(self)@
                    == old(self)@
            } else if old(self).password() == Some(lossy_text(p)) {
                response_of(r) == Some(ok_view()) && final(self)@ == (SessionView { authenticated: true, ..old(self)@ })
            } else {
                response_of(r) == Some(error_text("-ERR invalid password"@)) && final(self)@ == old(self)@
            }),
            (old(self)@.authenticated || command@ is Ping) && !(command@ is Auth) && is_pubsub(command@) ==> final(self)@
                == old(self)@ && final(watch)@ == old(watch)@ && (match pubsub_op_of(command@) {
                Some(op) => r matches Action::PubSub(o) && o@ == op,
                None => response_of(r) == Some(unknown_pubsub_error(command@)),
            }),
            (old(self)@.authenticated || command@ is Ping) && !(command@ is Auth) && !is_pubsub(command@) ==> final(self)@
                == old(self)@ && (if answered_elsewhere(command@) {
                r matches Action::External(x) && x@ == command@ && final(watch)@ == old(watch)@
            } else {
                r matches Action::Respond(v) && crate::protocol::command::executor::watch_effect(
                    command@,
                    v@,
                    old(watch)@,
                    final(watch)@,
                ) && crate::protocol::command::executor::store_reply_ok(command@, v@) && (
                crate::protocol::command::executor::fixed_reply(command@, old(self).password() is Some) matches Some(f)
                    ==> v@ == f)
            }),
    {
        let ghost c = command@;
        let is_auth = match &command {
            Command::Auth(_) => true,
            _ => false,
        };
        let is_ping = match &command {
            Command::Ping(_) => true,
            _ => false,
        };
        if !self.authenticated && !is_auth && !is_ping {
            return Action::Respond(RespValue::Error(owned("-NOAUTH Authentication required.")));
        }
        if let Command::Auth(password) = &command {
            if !self.auth_required {
                return Action::Respond(RespValue::Error(owned("-ERR Client sent AUTH, but no password is set")));
            }
            let text = utf8_lossy(password.as_slice());
            if self.executor.check_auth(text.as_str()) {
                self.set_authenticated(true);
                return Action::Respond(crate::protocol::command::executor::ok_reply());
            } else {
                return Action::Respond(RespValue::Error(owned("-ERR invalid password")));
            }
        }
        if command.is_pubsub_command() {
            let unknown = match &command {
                Command::PubSub { subcommand, .. } => Some(owned(subcommand.as_str())),
                _ => None,
            };
            match command.to_pubsub_op() {
                Some(op) => return Action::PubSub(op),
                None => {
                    return match unknown {
                        Some(sub) => {
                            let text = concat3("ERR Unknown PUBSUB subcommand '", sub.as_str(), "'");
                            assert(text@ == "ERR Unknown PUBSUB subcommand '"@ + sub@ + "'"@);
                            Action::Respond(RespValue::Error(text))
                        },
                        None => Action::Respond(RespValue::Error(owned("ERR Failed to process pub/sub command"))),
                    };
                },
            }
        }
        if answered_by_library(&command) {
            match self.executor.execute(command, watch, tracker) {
                Some(v) => Action::Respond(v),
                None => {
                    assert(false);
                    Action::Respond(RespValue::Integer(0))
                },
            }
        } else {
            Action::External(command)
        }
    }
}

impl Connection {
    /// Handles one parsed command: QUIT closes; in pub/sub mode only the
    /// subscription commands, PING and QUIT run; CLIENT SETNAME records the
    /// name; MULTI, EXEC, DISCARD, WATCH and UNWATCH drive the transaction;
    /// while a transaction is open other commands are queued; otherwise the
    /// command runs (see `handle_regular`).
    pub fn handle_command(&mut self, command: Command, watch: &mut WatchRegistry, tracker: &mut MetadataTracker) -> (r: Action)
        requires
            old(self).well_formed(),
            old(tracker).well_formed(),
            crate::protocol::command::executor::counts_fit(command@),
        ensures
            final(self).processed() == old(self).processed(),
            final(self).well_formed(),
            final(tracker).well_formed(),
            final(self).unsent() == old(self).unsent(),
            final(self).waiting_messages() == old(self).waiting_messages(),
            final(self).password() == old(self).password(),
            final(self).unread() == old(self).unread(),
            command_effect(
                old(self)@,
                old(self).password(),
                command@,
                r,
                final(self)@,
                old(watch)@,
                final(watch)@,
                ),
    {
        let ghost c = command@;
        if let Command::Quit = command {
            self.close();
            return Action::Quit;
        }
        if self.subscription_count > 0 && !command.is_allowed_in_pubsub_mode() {
            return Action::Notice(
                RespValue::Error(owned("-ERR only (P)SUBSCRIBE / (P)UNSUBSCRIBE / PING / QUIT allowed in this context")),
            );
        }
        if let Command::Client { subcommand, args } = &command {
            let upper = to_upper_text(subcommand.as_str());
            if text_eq(upper.as_str(), "SETNAME") && args.len() > 0 {
                self.client_name = Some(utf8_lossy(args[0].as_slice()));
                assert(self@ == named(old(self)@, c));
            }
        }
        assert(self@ == named(old(self)@, c));
        match command {
            Command::Multi => self.handle_multi(),
            Command::Exec => self.handle_exec(watch, tracker),
            Command::Discard => self.handle_discard(),
            Command::Watch(keys) => self.handle_watch(keys, watch),
            Command::Unwatch => self.handle_unwatch(),
            other => {
                if self.transaction_state == TransactionState::Queuing {
                    self.queued_commands.push(other);
                    proof {
                        assert(command_views(self.queued_commands@) =~= named(old(self)@, c).queued.push(c));
                    }
                    Action::Notice(queued_reply())
                } else {
                    self.handle_regular(other, watch, tracker)
                }
            },
        }
    }
}

/// A command the fast path serves without parsing it fully.
pub enum FastOp {
    Store(Seq<u8>, Seq<u8>),
    Fetch(Seq<u8>),
}

/// The bulk string a value holds.
pub open spec fn bulk_of(v: RespView) -> Option<Seq<u8>> {
    match v {
        RespView::BulkString(Some(b)) => Some(b),
        _ => None,
    }
}

/// Whether a command name is `word`, in any ASCII case.
pub open spec fn names(name: Seq<u8>, word: &str) -> bool {
    name.len() == 3 && crate::protocol::command::parser::is_word(crate::text::ascii_upper(name), word)
}

/// The fast path's command: an array whose first element is the bulk string
/// `SET` (any case) followed by exactly two bulk strings, or `GET` followed by
/// exactly one.
pub open spec fn fast_op(v: RespView) -> Option<FastOp> {
    match v {
        RespView::Array(Some(args)) => if args.len() >= 2 && bulk_of(args[0]) is Some {
            let name = bulk_of(args[0])->0;
            if names(name, "SET") && args.len() == 3 && bulk_of(args[1]) is Some && bulk_of(args[2]) is Some {
                Some(FastOp::Store(bulk_of(args[1])->0, bulk_of(args[2])->0))
            } else if names(name, "GET") && args.len() == 2 && bulk_of(args[1]) is Some {
                Some(FastOp::Fetch(bulk_of(args[1])->0))
            } else {
                None
            }
        } else {
            None
        },
        _ => None,
    }
}

/// The command the fast path stands for: a plain SET, or GET.
pub open spec fn fast_command(op: FastOp) -> CommandView {
    match op {
        FastOp::Store(key, value) => CommandView::SetValue { key, value, ex: None, px: None },
        FastOp::Fetch(key) => CommandView::Get(key),
    }
}

/// The fast path answers as the command it serves: a value the fast path
/// takes parses to that GET or plain SET, and the reply the fast path gives
/// and the key versions it leaves are ones executing that command gives.
pub proof fn law_fast_path_as_command(
    v: RespValue,
    op: FastOp,
    reply: RespView,
    s: SessionView,
    wb: VersionTable,
    wa: VersionTable,
)
    requires
        fast_op(v@) == Some(op),
        fast_effect(op, reply, s, wb, wa),
    ensures
        crate::protocol::command::parser::parse_spec(v) == Ok::<CommandView, Seq<char>>(fast_command(op)),
        crate::protocol::command::executor::watch_effect(fast_command(op), reply, wb, wa),
        crate::protocol::command::executor::store_reply_ok(fast_command(op), reply),
{
    broadcast use vstd::string::is_ascii_spec_bytes;

    let items = v->Array_0->Some_0;
    lemma_array_view(items);
    let args = items@.drop_first();
    assert(items@[0]@ == views(items@)[0]);
    assert(items@[1]@ == views(items@)[1]);
    let name = match items@[0] {
        RespValue::BulkString(Some(n)) => n@,
        _ => Seq::empty(),
    };
    assert(args[0] == items@[1]);
    match op {
        FastOp::Store(key, value) => {
            assert(items@[2]@ == views(items@)[2]);
            assert(args[1] == items@[2]);
            reveal(crate::protocol::command::parser::is_word);
            reveal_strlit("SET");
            reveal_strlit("GET");
            assert(vstd::string::is_ascii("SET"));
            assert(vstd::string::is_ascii("GET"));
            assert("SET".spec_bytes()[0] != "GET".spec_bytes()[0]);
            assert(crate::text::ascii_upper(name) != "GET".spec_bytes());
            assert(args.len() == 2);
            assert(crate::protocol::command::parser::set_options(args, 2, None, None) == Ok::<
                (Option<u64>, Option<u64>),
                Seq<char>,
            >((None, None)));
            let o = choose|o: Result<(), crate::store::StoreErrorView>|
                reply == #[trigger] crate::protocol::command::executor::write_reply_view(o) && (o is Ok ==> wa
                    == wb.bumped(key)) && (o is Err ==> wa == wb);
            assert(crate::protocol::command::executor::write_reply_view(o) == reply);
        },
        FastOp::Fetch(_) => {},
    }
}

/// What reading stopped at.
#[derive(Debug)]
pub enum ReadOutcome {
    /// Every complete command was handled; the pub/sub operations to carry out.
    Done(Vec<PubSubOp>),
    /// The client quit.
    Quit(Vec<PubSubOp>),
    /// A command to answer outside the library; then call `resume`.
    External(Vec<PubSubOp>, Command),
    /// A transaction whose pending replies are to be completed outside the
    /// library and written as one array; then call `resume`.
    Transaction(Vec<PubSubOp>, Vec<Reply>),
}

/// Whether a value read is refused with error `e`: it is no command, or the
/// command's counters do not fit in an `i64`.
pub open spec fn rejected(w: RespValue, e: Seq<char>) -> bool {
    match crate::protocol::command::parser::parse_spec(w) {
        Err(m) => m == e,
        Ok(c) => !crate::protocol::command::executor::counts_fit(c) && e == "too many arguments"@,
    }
}

/// Why reading failed with error `e`, having started on the bytes `start` and
/// left the bytes `rest`: `rest` begins with no value that reads back, or the
/// value read just before `rest` is refused.
pub open spec fn read_failure(e: Seq<char>, start: Seq<u8>, rest: Seq<u8>) -> bool {
    ||| forall|v: RespView| #![trigger resp_bytes(v)] reads_back(v) ==> !resp_bytes(v).is_prefix_of(rest)
    ||| exists|w: RespValue| (resp_bytes(w@) + rest).is_suffix_of(start) && #[trigger] rejected(w, e)
}

/// What reading the next command came to.
enum Step {
    /// No complete command was waiting.
    Empty,
    /// The bytes were no command.
    Failed(String),
    /// A command was read and handled.
    Next(Handled),
}

/// Where handling one command leaves reading.
enum Handled {
    Continue,
    PubSub(PubSubOp),
    Quit,
    External(Command),
    Transaction(Vec<Reply>),
}

/// The watched keys of the session are those of the version map.
proof fn lemma_watched_view(c: Connection)
    requires
        c.well_formed(),
    ensures
        forall|k: Seq<u8>, v: u64|
            #[trigger] c@.watched.contains((k, v)) <==> (c.watched_versions().contains_key(k)
                && c.watched_versions()[k] == v),
{
    let w = c.watched_keys@;
    assert forall|k: Seq<u8>, v: u64|
        #[trigger] c@.watched.contains((k, v)) <==> (c.watched_versions().contains_key(k) && c.watched_versions()[k]
            == v) by {
        let vl = version_list(w);
        if vl.contains((k, v)) {
            let i = choose|i: int| 0 <= i < vl.len() && vl[i] == (k, v);
            assert(w[i].0@ == k && w[i].1 == v);
            lemma_entry_in_map(w, i);
        }
        if c.watched_versions().contains_key(k) {
            assert(has_key(w, k));
            let j = choose|j: int| 0 <= j < w.len() && #[trigger] w[j].0@ == k;
            lemma_entry_in_map(w, j);
            assert(vl[j] == (k, w[j].1));
        }
    }
}

/// Whether a reply is still to be produced.
pub open spec fn is_pending(r: Reply) -> bool {
    r is Pending
}

/// The value of a ready reply.
pub open spec fn ready_view(r: Reply) -> RespView {
    match r {
        Reply::Ready(v) => v@,
        Reply::Pending(_) => RespView::BulkString(None),
    }
}

/// The values of a list of ready replies.
pub open spec fn ready_views(rs: Seq<Reply>) -> Seq<RespView> {
    rs.map_values(|r: Reply| ready_view(r))
}

/// The replies of a transaction as values, when all are ready; else the
/// replies, unchanged.
fn ready_replies(replies: Vec<Reply>) -> (r: Result<Vec<RespValue>, Vec<Reply>>)
    ensures
        r is Ok <==> forall|i: int| 0 <= i < replies@.len() ==> !#[trigger] is_pending(replies@[i]),
        r matches Ok(vs) ==> views(vs@) == ready_views(replies@),
        r matches Err(rest) ==> rest@ == replies@,
{
    let mut k: usize = 0;
    let mut pending_at: Option<usize> = None;
    while k < replies.len() && pending_at.is_none()
        invariant
            k <= replies@.len(),
            pending_at matches Some(i) ==> i < replies@.len() && replies@[i as int] is Pending,
            pending_at is None ==> forall|j: int| 0 <= j < k ==> !#[trigger] is_pending(replies@[j]),
        decreases replies@.len() - k,
    {
        match &replies[k] {
            Reply::Pending(_) => {
                pending_at = Some(k);
            },
            Reply::Ready(_) => {},
        }
        k += 1;
    }
    if let Some(i) = pending_at {
        assert(is_pending(replies@[i as int]));
        return Err(replies);
    }
    let ghost all = replies@;
    let mut values: Vec<RespValue> = Vec::new();
    let mut rest = replies;
    let mut taken: usize = 0;
    while rest.len() > 0
        invariant
            taken + rest@.len() == all.len(),
            all.len() <= usize::MAX,
            rest@ == all.skip(taken as int),
            views(values@) == ready_views(all.take(taken as int)),
            forall|j: int| 0 <= j < all.len() ==> !#[trigger] is_pending(all[j]),
        decreases rest@.len(),
    {
        let ghost before = values@;
        let first = rest.remove(0);
        proof {
            assert(first == all[taken as int]);
            assert(!is_pending(all[taken as int]));
        }
        match first {
            Reply::Ready(v) => values.push(v),
            Reply::Pending(_) => {},
        }
        proof {
            assert(all.take(taken + 1) =~= all.take(taken as int).push(all[taken as int]));
            assert(views(values@) =~= views(before).push(ready_view(all[taken as int])));
            assert(ready_views(all.take(taken + 1)) =~= ready_views(all.take(taken as int)).push(
                ready_view(all[taken as int]),
            ));
            assert(rest@ =~= all.skip(taken + 1));
        }
        taken += 1;
    }
    proof {
        assert(all.take(taken as int) =~= all);
    }
    Ok(values)
}

impl Connection {
    /// The bytes received and not yet read.
    pub closed spec fn unread(&self) -> Seq<u8> {
        self.parser.pending()
    }

    /// Serves GET and plain SET straight from the RESP value, writing the
    /// reply; `true` when it did.
    fn try_fast_path(&mut self, value: &RespValue, watch: &mut WatchRegistry) -> (r: bool)
        requires
            old(self).well_formed(),
        ensures
            final(self).processed() == old(self).processed(),
            final(self).well_formed(),
            final(self)@ == old(self)@,
            final(self).waiting_messages() == old(self).waiting_messages(),
            final(self).password() == old(self).password(),
            final(self).unread() == old(self).unread(),
            r == fast_op(value@) is Some,
            !r ==> final(self).unsent() == old(self).unsent() && final(watch)@ == old(watch)@,
            old(self).unsent().is_prefix_of(final(self).unsent()),
            fast_op(value@) matches Some(FastOp::Store(key, _)) ==> exists|o: Result<(), crate::store::StoreErrorView>|
                final(self).unsent() == old(self).unsent() + resp_bytes(
                    #[trigger] crate::protocol::command::executor::write_reply_view(o),
                ) && (o is Ok ==> final(watch)@ == old(watch)@.bumped(key)) && (o is Err ==> final(watch)@ == old(
                    watch,
                )@),
            fast_op(value@) matches Some(FastOp::Fetch(_)) ==> final(watch)@ == old(watch)@ && exists|
                o: Result<Seq<u8>, crate::store::StoreErrorView>,
            | final(self).unsent() == old(self).unsent() + resp_bytes(#[trigger] get_reply_view(o)),
    {
        let args = match value {
            RespValue::Array(Some(args)) => args,
            _ => return false,
        };
        if args.len() < 2 {
            return false;
        }
        proof {
            lemma_array_view(*args);
        }
        let name = match &args[0] {
            RespValue::BulkString(Some(c)) => c,
            _ => return false,
        };
        let upper = crate::text::to_ascii_uppercase(name.as_slice());
        if name.len() == 3 && crate::protocol::command::parser::is(upper.as_slice(), "SET") && args.len() >= 3 {
            let (key, data) = match (&args[1], &args[2]) {
                (RespValue::BulkString(Some(k)), RespValue::BulkString(Some(v))) => (k, slice_to_vec(v.as_slice())),
                _ => return false,
            };
            if args.len() == 3 {
                let stored = self.executor.fast_set_bytes(watch, key.as_slice(), data);
                let ghost o = crate::protocol::command::executor::store_outcome(stored);
                let reply = match stored {
                    Ok(()) => crate::protocol::command::executor::ok_reply(),
                    Err(e) => crate::protocol::command::executor::error_reply(e.message.as_str()),
                };
                assert(reply@ == crate::protocol::command::executor::write_reply_view(o));
                let ghost before = self.unsent();
                write_resp_value(&mut self.write_buffer, &reply);
                proof {
                    assert(self.unsent() =~= before + resp_bytes(reply@));
                }
                return true;
            }
        }
        if name.len() == 3 && crate::protocol::command::parser::is(upper.as_slice(), "GET") && args.len() == 2 {
            let key = match &args[1] {
                RespValue::BulkString(Some(k)) => k,
                _ => return false,
            };
            let fetched = self.executor.fast_get(key.as_slice());
            let ghost o = crate::protocol::command::executor::store_outcome(fetched);
            let reply = get_reply(fetched);
            let ghost before = self.unsent();
            write_resp_value(&mut self.write_buffer, &reply);
            proof {
                assert(self.unsent() =~= before + resp_bytes(get_reply_view(o)));
            }
            return true;
        }
        false
    }

    /// Writes the reply the caller produced for a command the library left to it.
    pub fn reply_external(&mut self, reply: &RespValue)
        requires
            old(self).well_formed(),
        ensures
            final(self).well_formed(),
            final(self)@ == old(self)@,
            final(self).unsent() == old(self).unsent() + resp_bytes(reply@),
            final(self).unread() == old(self).unread(),
    {
        let ghost before = self.unsent();
        write_resp_value(&mut self.write_buffer, reply);
        self.pipeline_depth = self.pipeline_depth.wrapping_add(1);
        assert(self.unsent() =~= before + resp_bytes(reply@));
    }

    /// Takes received bytes and handles every complete command in them, in
    /// order (see `resume`).
    pub fn process_read(&mut self, data: &[u8], watch: &mut WatchRegistry, tracker: &mut MetadataTracker) -> (r: Result<
        ReadOutcome,
        String,
    >)
        requires
            old(self).well_formed(),
            old(tracker).well_formed(),
        ensures
            final(self).well_formed(),
            final(tracker).well_formed(),
            r matches Ok(ReadOutcome::Quit(_)) ==> final(self)@.closed,
            r matches Ok(ReadOutcome::External(_, c)) ==> answered_elsewhere(c@),
            r matches Ok(ReadOutcome::Transaction(_, rs)) ==> exists|i: int|
                0 <= i < rs@.len() && #[trigger] is_pending(rs@[i]),
            final(self).unread().is_suffix_of(old(self).unread() + data@),
            r matches Err(e) ==> read_failure(e@, old(self).unread() + data@, final(self).unread()),
            r matches Ok(ReadOutcome::Done(_)) ==> forall|v: RespView|
                #![trigger resp_bytes(v)]
                reads_back(v) ==> !resp_bytes(v).is_prefix_of(final(self).unread()),
            old(self).unsent().is_prefix_of(final(self).unsent()),
            final(self).password() == old(self).password(),
            exists|es: Seq<Event>|
                #[trigger] read_trace(
                    es,
                    old(self)@,
                    old(self).password(),
                    final(self)@,
                    old(watch)@,
                    final(watch)@,
                    old(self).unsent(),
                    final(self).unsent(),
                ) && match r {
                    Ok(o) => outcome_ops(o) == events_ops(es) && old(self).unread() + data@ == events_input(es)
                        + final(self).unread() && final(self).processed() == count_after(
                        old(self).processed(),
                        es.len(),
                    ),
                    Err(_) => true,
                },
    {
        let ghost before_unsent = self.unsent();
        let ghost before_view = self@;
        self.parser.feed(data);
        if self.write_position >= self.write_buffer.len() {
            self.write_buffer = Vec::new();
            self.write_position = 0;
        }
        proof {
            assert(before_unsent =~= self.unsent().subrange(0, before_unsent.len() as int));
            assert(self.unsent() =~= before_unsent);
            assert(self@ == before_view);
        }
        self.resume(watch, tracker)
    }

    /// Handles the complete commands received, in order: GET and plain SET
    /// outside transactions go by the fast path, the rest are parsed and
    /// handled one by one, their replies written. Stops when no complete
    /// command is left, at QUIT, at a command to answer outside the library,
    /// or at a transaction with such replies; pub/sub operations are
    /// collected for the caller.
    pub fn resume(&mut self, watch: &mut WatchRegistry, tracker: &mut MetadataTracker) -> (r: Result<ReadOutcome, String>)
        requires
            old(self).well_formed(),
            old(tracker).well_formed(),
        ensures
            final(self).well_formed(),
            final(tracker).well_formed(),
            r matches Ok(ReadOutcome::Quit(_)) ==> final(self)@.closed,
            r matches Ok(ReadOutcome::External(_, c)) ==> answered_elsewhere(c@),
            r matches Ok(ReadOutcome::Transaction(_, rs)) ==> exists|i: int|
                0 <= i < rs@.len() && #[trigger] is_pending(rs@[i]),
            final(self).unread().is_suffix_of(old(self).unread()),
            old(self).unsent().is_prefix_of(final(self).unsent()),
            r matches Ok(ReadOutcome::Done(_)) ==> forall|v: RespView|
                #![trigger resp_bytes(v)]
                reads_back(v) ==> !resp_bytes(v).is_prefix_of(final(self).unread()),
            r matches Err(e) ==> read_failure(e@, old(self).unread(), final(self).unread()),
            final(self).password() == old(self).password(),
            exists|es: Seq<Event>|
                #[trigger] read_trace(
                    es,
                    old(self)@,
                    old(self).password(),
                    final(self)@,
                    old(watch)@,
                    final(watch)@,
                    old(self).unsent(),
                    final(self).unsent(),
                ) && match r {
                    Ok(o) => outcome_ops(o) == events_ops(es) && old(self).unread() == events_input(es)
                        + final(self).unread() && final(self).processed() == count_after(
                        old(self).processed(),
                        es.len(),
                    ),
                    Err(_) => true,
                },
    {
        let ghost start_count = self.processed();
        let ghost start_unread = self.unread();
        let ghost start_unsent = self.unsent();
        let ghost pw = self.password();
        let ghost mut es: Seq<Event> = Seq::empty();
        let ghost mut ss: Seq<SessionView> = seq![self@];
        let ghost mut ws: Seq<VersionTable> = seq![watch@];
        proof {
            assert(start_unread =~= start_unread.subrange(0, start_unread.len() as int));
            assert(start_unsent =~= start_unsent.subrange(0, start_unsent.len() as int));
            assert(self.unsent() =~= start_unsent + events_bytes(es));
            assert(start_unread =~= events_input(es) + self.unread());
        }
        let mut ops: Vec<PubSubOp> = Vec::new();
        loop
            invariant
                self.well_formed(),
                tracker.well_formed(),
                start_unread == old(self).unread(),
                start_unsent == old(self).unsent(),
                pw == old(self).password(),
                self.password() == pw,
                self.unread().is_suffix_of(start_unread),
                start_unsent.is_prefix_of(self.unsent()),
                steps_lead(es, ss, ws, old(self)@, pw, self@, old(watch)@, watch@),
                self.unsent() == start_unsent + events_bytes(es),
                start_unread == events_input(es) + self.unread(),
                ops@ == events_ops(es),
                start_count == old(self).processed(),
                self.processed() == count_after(start_count, es.len()),
            decreases self.unread().len(),
        {
            let ghost before = self.unread();
            let ghost before_unsent = self.unsent();
            let ghost before_view = self@;
            let ghost before_watch = watch@;
            let step = self.read_one(watch, tracker);
            let ghost step_view = step;
            proof {
                lemma_suffix_trans(self.unread(), before, start_unread);
                lemma_prefix_trans(start_unsent, before_unsent, self.unsent());
                if step_view is Next {
                    let h = step_view->Next_0;
                    let e = choose|e: Event|
                        #[trigger] event_effect(e, before_view, pw, self@, before_watch, watch@) && self.unsent()
                            == before_unsent + event_bytes(e) && event_handled(e, h) && before == event_input(e)
                            + self.unread();
                    lemma_trace_step(es, ss, ws, old(self)@, pw, before_view, old(watch)@, before_watch, e, self@, watch@);
                    lemma_count_step(start_count, es.len());
                    assert(self.unsent() =~= start_unsent + events_bytes(es.push(e)));
                    assert(start_unread =~= events_input(es.push(e)) + self.unread());
                    if let Event::Command { action: Action::PubSub(op), .. } = e {
                        assert(h == Handled::PubSub(op));
                    }
                    es = es.push(e);
                    ss = ss.push(self@);
                    ws = ws.push(watch@);
                }
            }
            match step {
                Step::Empty => {
                    let out: Result<ReadOutcome, String> = Ok(ReadOutcome::Done(ops));
                    proof {
                        assert(read_trace(es, old(self)@, pw, self@, old(watch)@, watch@, start_unsent, self.unsent()));
                    }
                    return out;
                },
                Step::Failed(e) => {
                    proof {
                        let rest = self.unread();
                        if exists|w: RespValue| (resp_bytes(w@) + rest).is_suffix_of(before) && #[trigger] rejected(w, e@) {
                            let w = choose|w: RespValue| (resp_bytes(w@) + rest).is_suffix_of(before) && #[trigger] rejected(w, e@);
                            lemma_suffix_trans(resp_bytes(w@) + rest, before, start_unread);
                        }
                        assert(read_trace(es, old(self)@, pw, self@, old(watch)@, watch@, start_unsent, self.unsent()));
                    }
                    return Err(e);
                },
                Step::Next(Handled::Continue) => {},
                Step::Next(Handled::PubSub(op)) => ops.push(op),
                Step::Next(Handled::Quit) => {
                    let out: Result<ReadOutcome, String> = Ok(ReadOutcome::Quit(ops));
                    proof {
                        assert(read_trace(es, old(self)@, pw, self@, old(watch)@, watch@, start_unsent, self.unsent()));
                    }
                    return out;
                },
                Step::Next(Handled::External(c)) => {
                    let out: Result<ReadOutcome, String> = Ok(ReadOutcome::External(ops, c));
                    proof {
                        assert(read_trace(es, old(self)@, pw, self@, old(watch)@, watch@, start_unsent, self.unsent()));
                    }
                    return out;
                },
                Step::Next(Handled::Transaction(pending)) => {
                    let out: Result<ReadOutcome, String> = Ok(ReadOutcome::Transaction(ops, pending));
                    proof {
                        let rs = step_view->Next_0->Transaction_0;
                        let i = choose|i: int| 0 <= i < rs@.len() && #[trigger] is_pending(rs@[i]);
                        let got = out->Ok_0->Transaction_1;
                        assert(got == rs);
                        assert(0 <= i < got@.len() && is_pending(got@[i]));
                        assert(read_trace(es, old(self)@, pw, self@, old(watch)@, watch@, start_unsent, self.unsent()));
                    }
                    return out;
                },
            }
        }
    }

    /// Reads and handles the next complete command, if there is one: GET and
    /// plain SET outside transactions go by the fast path.
    fn read_one(&mut self, watch: &mut WatchRegistry, tracker: &mut MetadataTracker) -> (r: Step)
        requires
            old(self).well_formed(),
            old(tracker).well_formed(),
        ensures
            final(self).well_formed(),
            final(tracker).well_formed(),
            final(self).unread().is_suffix_of(old(self).unread()),
            r is Next ==> final(self).unread().len() < old(self).unread().len(),
            r is Empty ==> final(self).unread() == old(self).unread(),
            r is Empty ==> forall|v: RespView|
                #![trigger resp_bytes(v)]
                reads_back(v) ==> !resp_bytes(v).is_prefix_of(final(self).unread()),
            old(self).unsent().is_prefix_of(final(self).unsent()),
            r matches Step::Next(Handled::Quit) ==> final(self)@.closed,
            r matches Step::Next(Handled::External(c)) ==> answered_elsewhere(c@),
            r matches Step::Next(Handled::Transaction(rs)) ==> exists|i: int|
                0 <= i < rs@.len() && #[trigger] is_pending(rs@[i]),
            r matches Step::Failed(e) ==> read_failure(e@, old(self).unread(), final(self).unread()),
            final(self).password() == old(self).password(),
            !(r is Next) ==> final(self)@ == old(self)@ && final(watch)@ == old(watch)@ && final(self).unsent()
                == old(self).unsent(),
            r is Next ==> final(self).processed() == old(self).processed().wrapping_add(1),
            r is Empty ==> final(self).processed() == old(self).processed(),
            r matches Step::Next(h) ==> exists|e: Event|
                #[trigger] event_effect(e, old(self)@, old(self).password(), final(self)@, old(watch)@, final(watch)@)
                    && final(self).unsent() == old(self).unsent() + event_bytes(e) && event_handled(e, h)
                    && old(self).unread() == event_input(e) + final(self).unread(),
    {
        let ghost start_view = self@;
        let ghost pw = self.password();
        let ghost wb = watch@;
        let ghost before = self.unread();
        let ghost before_unsent = self.unsent();
        proof {
            assert(before =~= before.subrange(0, before.len() as int));
            assert(before_unsent =~= before_unsent.subrange(0, before_unsent.len() as int));
        }
        let value = match self.parser.parse_next() {
            Ok(Some(v)) => v,
            Ok(None) => return Step::Empty,
            Err(e) => return Step::Failed(e),
        };
        proof {
            assert(resp_bytes(value@).len() > 0);
            lemma_suffix_after_front(before, resp_bytes(value@), self.unread());
        }
        self.commands_processed = self.commands_processed.wrapping_add(1);
        if self.transaction_state == TransactionState::Idle && self.authenticated && self.subscription_count == 0
            && self.try_fast_path(&value, watch) {
            self.pipeline_depth = self.pipeline_depth.wrapping_add(1);
            proof {
                let op = fast_op(value@)->Some_0;
                match op {
                    FastOp::Store(key, _) => {
                        let o = choose|o: Result<(), crate::store::StoreErrorView>|
                            self.unsent() == before_unsent + resp_bytes(
                                #[trigger] crate::protocol::command::executor::write_reply_view(o),
                            ) && (o is Ok ==> watch@ == wb.bumped(key)) && (o is Err ==> watch@ == wb);
                        let e = Event::Fast {
                            value,
                            op,
                            reply: crate::protocol::command::executor::write_reply_view(o),
                        };
                        assert(event_effect(e, start_view, pw, self@, wb, watch@));
                    },
                    FastOp::Fetch(_) => {
                        let o = choose|o: Result<Seq<u8>, crate::store::StoreErrorView>|
                            self.unsent() == before_unsent + resp_bytes(#[trigger] get_reply_view(o));
                        let e = Event::Fast { value, op, reply: get_reply_view(o) };
                        assert(event_effect(e, start_view, pw, self@, wb, watch@));
                    },
                }
            }
            return Step::Next(Handled::Continue);
        }
        let ghost w = value;
        let ghost rest = self.unread();
        proof {
            assert(resp_bytes(w@) + rest =~= before);
            assert((resp_bytes(w@) + rest).is_suffix_of(before));
        }
        let command = match Command::from_resp(value) {
            Ok(c) => c,
            Err(e) => {
                proof {
                    assert(rejected(w, e@));
                }
                return Step::Failed(e);
            },
        };
        let ghost w_command = command@;
        let ghost rest_unsent = self.unsent();
        if !counters_fit(&command) {
            let e = owned("too many arguments");
            proof {
                assert(rejected(w, e@));
            }
            return Step::Failed(e);
        }
        let h = self.finish_command(command, watch, tracker);
        proof {
            let a = choose|a: Action|
                #[trigger] command_effect(start_view, pw, w_command, a, self@, wb, watch@)
                    && self.unsent() == rest_unsent + action_bytes(a) && handled_from(a, h);
            let e = Event::Command { value: w, command: w_command, action: a };
            reveal(parses_to);
            assert(event_effect(e, start_view, pw, self@, wb, watch@));
        }
        Step::Next(h)
    }

    /// Handles one command and writes the reply it gets here, if any.
    fn finish_command(&mut self, command: Command, watch: &mut WatchRegistry, tracker: &mut MetadataTracker) -> (r:
        Handled)
        requires
            old(self).well_formed(),
            old(tracker).well_formed(),
            crate::protocol::command::executor::counts_fit(command@),
        ensures
            final(self).processed() == old(self).processed(),
            command@ is Quit ==> r is Quit,
            r matches Handled::PubSub(op) ==> pubsub_op_of(command@) == Some(op@),
            r matches Handled::External(c) ==> c@ == command@,
            r is Transaction ==> command@ is Exec,
            final(self).well_formed(),
            final(tracker).well_formed(),
            final(self).unread() == old(self).unread(),
            old(self).unsent().is_prefix_of(final(self).unsent()),
            r is Quit ==> final(self)@.closed,
            r matches Handled::External(c) ==> answered_elsewhere(c@),
            r matches Handled::Transaction(rs) ==> exists|i: int|
                0 <= i < rs@.len() && #[trigger] is_pending(rs@[i]),
            final(self).password() == old(self).password(),
            exists|a: Action|
                #[trigger] command_effect(
                    old(self)@,
                    old(self).password(),
                    command@,
                    a,
                    final(self)@,
                    old(watch)@,
                    final(watch)@,
                ) && final(self).unsent() == old(self).unsent() + action_bytes(a) && handled_from(a, r),
    {
        let ghost start = self.unsent();
        let action = self.handle_command(command, watch, tracker);
        let ghost act = action;
        let ghost mid = *self;
        let ghost mut witness: int = 0;
        let r = match action {
            Action::Respond(v) => {
                self.write_reply(&v);
                self.pipeline_depth = self.pipeline_depth.wrapping_add(1);
                Handled::Continue
            },
            Action::Notice(v) => {
                self.write_reply(&v);
                Handled::Continue
            },
            Action::Transaction(replies) => {
                let ghost all = replies@;
                match ready_replies(replies) {
                    Ok(values) => {
                        proof {
                            lemma_array_view(values);
                            assert(all_ready(all));
                        }
                        self.write_reply(&RespValue::Array(Some(values)));
                        Handled::Continue
                    },
                    Err(pending) => {
                        assert(!forall|i: int| 0 <= i < all.len() ==> !#[trigger] is_pending(all[i]));
                        proof {
                            witness = choose|i: int| !(0 <= i < all.len() ==> !#[trigger] is_pending(all[i]));
                        }
                        Handled::Transaction(pending)
                    },
                }
            },
            Action::Quit => {
                self.write_reply(&crate::protocol::command::executor::ok_reply());
                Handled::Quit
            },
            Action::PubSub(op) => Handled::PubSub(op),
            Action::External(c) => Handled::External(c),
        };
        proof {
            if self.unsent() == start {
                assert(start =~= self.unsent().subrange(0, start.len() as int));
            }
            if r is Transaction {
                assert(0 <= witness < r->Transaction_0@.len() && is_pending(r->Transaction_0@[witness]));
            }
            assert(self@ == mid@);
            assert(self.watched_versions() == mid.watched_versions());
            if self.unsent() == start {
                assert(self.unsent() =~= start + Seq::<u8>::empty());
            }
            assert(self.unsent() == start + action_bytes(act));
            assert(handled_from(act, r));
        }
        r
    }

    /// Appends the bytes of `reply` to those waiting to be sent.
    fn write_reply(&mut self, reply: &RespValue)
        requires
            old(self).well_formed(),
        ensures
            final(self).processed() == old(self).processed(),
            final(self).well_formed(),
            final(self)@ == old(self)@,
            final(self).watched_versions() == old(self).watched_versions(),
            final(self).unsent() == old(self).unsent() + resp_bytes(reply@),
            old(self).unsent().is_prefix_of(final(self).unsent()),
            final(self).unread() == old(self).unread(),
            final(self).waiting_messages() == old(self).waiting_messages(),
            final(self).password() == old(self).password(),
    {
        let ghost before = self.unsent();
        write_resp_value(&mut self.write_buffer, reply);
        assert(self.unsent() =~= before + resp_bytes(reply@));
    }
}

/// The counter `start` after `n` more, wrapping at `u64::MAX`.
pub open spec fn count_after(start: u64, n: nat) -> u64 {
    ((start + n) % 0x1_0000_0000_0000_0000) as u64
}

proof fn lemma_count_step(start: u64, n: nat)
    ensures
        count_after(start, n).wrapping_add(1) == count_after(start, n + 1),
{
    let a: int = start + n;
    let m: int = 0x1_0000_0000_0000_0000;
    assert((a % m + 1 == m ==> (a + 1) % m == 0) && (a % m + 1 < m ==> (a + 1) % m == a % m + 1)) by (nonlinear_arith)
        requires
            a >= 0,
            m == 0x1_0000_0000_0000_0000,
    ;
}

/// One more step extends a run of steps.
proof fn lemma_trace_step(
    es: Seq<Event>,
    ss: Seq<SessionView>,
    ws: Seq<VersionTable>,
    s0: SessionView,
    pw: Option<Seq<char>>,
    s1: SessionView,
    w0: VersionTable,
    w1: VersionTable,
    e: Event,
    s2: SessionView,
    w2: VersionTable,
)
    requires
        steps_lead(es, ss, ws, s0, pw, s1, w0, w1),
        event_effect(e, s1, pw, s2, w1, w2),
    ensures
        steps_lead(es.push(e), ss.push(s2), ws.push(w2), s0, pw, s2, w0, w2),
        events_bytes(es.push(e)) == events_bytes(es) + event_bytes(e),
        events_input(es.push(e)) == events_input(es) + event_input(e),
        events_ops(es.push(e)) == match e {
            Event::Command { action: Action::PubSub(op), .. } => events_ops(es).push(op),
            _ => events_ops(es),
        },
{
    let es2 = es.push(e);
    let ss2 = ss.push(s2);
    let ws2 = ws.push(w2);
    assert(es2.drop_last() =~= es);
    assert forall|i: int| 0 <= i < es2.len() implies #[trigger] event_effect(es2[i], ss2[i], pw, ss2[i + 1], ws2[i], ws2[i + 1]) by {
        if i < es.len() {
            assert(es2[i] == es[i]);
            assert(ss2[i] == ss[i] && ss2[i + 1] == ss[i + 1]);
            assert(ws2[i] == ws[i] && ws2[i + 1] == ws[i + 1]);
        } else {
            assert(ss2[i] == ss.last());
            assert(ws2[i] == ws.last());
        }
    }
}

proof fn lemma_suffix_after_front(whole: Seq<u8>, front: Seq<u8>, rest: Seq<u8>)
    requires
        whole == front + rest,
    ensures
        rest.is_suffix_of(whole),
{
    assert(rest =~= whole.subrange(whole.len() - rest.len(), whole.len() as int));
}

proof fn lemma_suffix_trans(a: Seq<u8>, b: Seq<u8>, c: Seq<u8>)
    requires
        a.is_suffix_of(b),
        b.is_suffix_of(c),
    ensures
        a.is_suffix_of(c),
{
    assert(a =~= c.subrange(c.len() - a.len(), c.len() as int));
}

proof fn lemma_prefix_trans(a: Seq<u8>, b: Seq<u8>, c: Seq<u8>)
    requires
        a.is_prefix_of(b),
        b.is_prefix_of(c),
    ensures
        a.is_prefix_of(c),
{
    assert(a =~= c.subrange(0, a.len() as int));
}

/// Whether a command's counters fit in an `i64`.
fn counters_fit(c: &Command) -> (r: bool)
    ensures
        r == crate::protocol::command::executor::counts_fit(c@),
{
    match c {
        Command::Del(keys) => keys.len() as u64 <= i64::MAX as u64,
        Command::Exists(keys) => keys.len() as u64 <= i64::MAX as u64,
        Command::HSet { fields, .. } => fields.len() as u64 <= i64::MAX as u64,
        Command::HDel { fields, .. } => fields.len() as u64 <= i64::MAX as u64,
        _ => true,
    }
}

} // verus!

//! How the resident loop starts: what it prints, writes, binds and joins, in which
//! order, and that no message is ever printed twice.

use vstd::prelude::*;

use crate::context::TopicContext;
use crate::envelope::{views, EnvelopeView, TopicEnvelope};
use crate::ids::{NodeId, TopicId};
use crate::peers::{
    all_recorded, any_adds, by_node, peer_views, peers_sorted, sorted_peers_determined, PeerBook,
    PeerView, TopicPeer,
};
use crate::store::{
    backfill_is_determined, holds, newest, put_in, put_in_facts, rows_sorted, show_lt, show_order,
    slot_lt, slot_of, slot_order, TopicStore,
};
use crate::text::maybe_text;
use crate::topics::{TopicNodeConfig, EVENT_CHANNEL_CAP};
use crate::watch::{told, Ingested, TailAction, TailEvent, TailView};

verus! {

/// One thing that the loop does before it goes live.
#[derive(Debug)]
pub enum StartAction {
    /// Print this stored message, where a key opens it.
    Show(TopicEnvelope),
    /// Write the peer book out.
    SaveBook,
    /// Stand the node up.
    Bind(TopicNodeConfig),
    /// Print the banner.
    Banner,
    /// Open the control socket. It is there before the join dials anyone, so that
    /// a publish in that time waits in its queue.
    OpenSocket,
    /// Join the mesh with these peers.
    Join(Vec<TopicPeer>),
}

/// How a topic node is set up, as values.
#[verifier::ext_equal]
pub ghost struct ConfigView {
    pub topic: TopicId,
    pub fabric_root: NodeId,
    pub relay_url: Option<Seq<char>>,
    pub admit_recheck: u64,
    pub replay_limit: u32,
    pub channel_cap: usize,
    pub protocols: Seq<Seq<u8>>,
}

impl View for TopicNodeConfig {
    type V = ConfigView;

    open spec fn view(&self) -> ConfigView {
        ConfigView {
            topic: self.topic,
            fabric_root: self.fabric_root,
            relay_url: maybe_text(self.relay_url),
            admit_recheck: self.admit_recheck,
            replay_limit: self.replay_limit,
            channel_cap: self.channel_cap,
            protocols: self.protocols@.map_values(|name: Vec<u8>| name@),
        }
    }
}

/// One thing that the loop does before it goes live, as values.
pub ghost enum StartView {
    Show(EnvelopeView),
    SaveBook,
    Bind(ConfigView),
    Banner,
    OpenSocket,
    Join(Seq<PeerView>),
}

impl View for StartAction {
    type V = StartView;

    open spec fn view(&self) -> StartView {
        match *self {
            StartAction::Show(envelope) => StartView::Show(envelope@),
            StartAction::SaveBook => StartView::SaveBook,
            StartAction::Bind(config) => StartView::Bind(config@),
            StartAction::Banner => StartView::Banner,
            StartAction::OpenSocket => StartView::OpenSocket,
            StartAction::Join(peers) => StartView::Join(peer_views(peers@)),
        }
    }
}

/// A list of actions, as values.
pub open spec fn start_views(list: Seq<StartAction>) -> Seq<StartView> {
    list.map_values(|a: StartAction| a@)
}

/// Appending an action appends its value.
proof fn start_views_push(list: Seq<StartAction>, a: StartAction)
    ensures
        start_views(list.push(a)) == start_views(list).push(a@),
{
    assert(start_views(list.push(a)) =~= start_views(list).push(a@));
}

/// The newest `limit` messages of a log, oldest first.
pub open spec fn transcript(rows: Seq<EnvelopeView>, limit: nat) -> Seq<EnvelopeView> {
    choose|shown: Seq<EnvelopeView>| newest(rows, limit, shown)
}

/// The peers of a book, in the order of their ids.
pub open spec fn listing(book: Map<NodeId, PeerView>) -> Seq<PeerView> {
    choose|list: Seq<PeerView>| peers_sorted(list) && #[trigger] by_node(list) == book
}

/// The name of the session protocol, if there is one.
pub open spec fn session_name(session: Option<Vec<u8>>) -> Option<Seq<u8>> {
    match session {
        Some(name) => Some(name@),
        None => None,
    }
}

/// How the node is set up: for this topic in the context's fabric, and with the
/// session protocol beside its own where the node serves sessions.
pub open spec fn config_of(
    ctx: TopicContext,
    topic: TopicId,
    session: Option<Seq<u8>>,
    admit_recheck: u64,
    replay_limit: u32,
) -> ConfigView {
    ConfigView {
        topic,
        fabric_root: ctx.fabric_root,
        relay_url: maybe_text(ctx.relay_url),
        admit_recheck,
        replay_limit,
        channel_cap: EVENT_CHANNEL_CAP,
        protocols: match session {
            Some(name) => seq![name],
            None => Seq::empty(),
        },
    }
}

/// What the loop does before it goes live, in order: what is stored already is
/// printed before anything touches the network, the book is written out where the
/// tickets added to it, the node is stood up and says where it is, the control
/// socket opens, and last the mesh is joined.
pub open spec fn start_actions(
    shown: Seq<EnvelopeView>,
    save: bool,
    config: ConfigView,
    peers: Seq<PeerView>,
) -> Seq<StartView> {
    let printed = shown.map_values(|e: EnvelopeView| StartView::Show(e));
    let saved = if save {
        printed.push(StartView::SaveBook)
    } else {
        printed
    };
    saved.push(StartView::Bind(config)).push(StartView::Banner).push(StartView::OpenSocket).push(
        StartView::Join(peers),
    )
}

/// What the loop does before it goes live. The tickets' peers are recorded in the
/// book. `session` names the session protocol, where the node serves sessions.
pub fn start_up(
    ctx: &TopicContext,
    topic: TopicId,
    store: &TopicStore,
    backfill: usize,
    book: &mut PeerBook,
    session: Option<Vec<u8>>,
    admit_recheck: u64,
    replay_limit: u32,
) -> (actions: Vec<StartAction>)
    requires
        store.wf(),
        old(book).wf(),
    ensures
        final(book).wf(),
        final(book)@ == all_recorded(old(book)@, peer_views(ctx.ticket_peers@)),
        start_views(actions@) == start_actions(
            transcript(store.rows(), backfill as nat),
            any_adds(old(book)@, peer_views(ctx.ticket_peers@)),
            config_of(
                *ctx,
                topic,
                session_name(session),
                admit_recheck,
                replay_limit,
            ),
            listing(final(book)@),
        ),
{
    let shown = store.read_backfill(backfill);
    let ghost want = transcript(store.rows(), backfill as nat);
    proof {
        backfill_is_determined(store.rows(), backfill as nat, views(shown@), want);
    }
    let mut actions: Vec<StartAction> = Vec::new();
    let ghost printed = want.map_values(|e: EnvelopeView| StartView::Show(e));
    let mut i: usize = 0;
    assert(start_views(actions@) =~= printed.take(0));
    while i < shown.len()
        invariant
            i <= shown@.len(),
            views(shown@) == want,
            printed == want.map_values(|e: EnvelopeView| StartView::Show(e)),
            start_views(actions@) == printed.take(i as int),
        decreases shown@.len() - i,
    {
        let action = StartAction::Show(shown[i].copy());
        proof {
            assert(want[i as int] == shown@[i as int]@);
            start_views_push(actions@, action);
            assert(printed.take(i + 1) =~= printed.take(i as int).push(printed[i as int]));
        }
        actions.push(action);
        i += 1;
    }
    assert(printed.take(printed.len() as int) =~= printed);
    let save = book.record_all(&ctx.ticket_peers);
    if save {
        proof {
            start_views_push(actions@, StartAction::SaveBook);
        }
        actions.push(StartAction::SaveBook);
    }
    let mut config = ctx.node_config(topic, admit_recheck, replay_limit);
    let ghost asked = session_name(session);
    if let Some(name) = session {
        config.protocols.push(name);
    }
    assert(config@ =~= config_of(*ctx, topic, asked, admit_recheck, replay_limit));
    let bind = StartAction::Bind(config);
    proof {
        start_views_push(actions@, bind);
    }
    actions.push(bind);
    proof {
        start_views_push(actions@, StartAction::Banner);
    }
    actions.push(StartAction::Banner);
    proof {
        start_views_push(actions@, StartAction::OpenSocket);
    }
    actions.push(StartAction::OpenSocket);
    let peers = book.list();
    proof {
        assert(by_node(peer_views(peers@)) == book@);
        sorted_peers_determined(peer_views(peers@), listing(book@));
    }
    let join = StartAction::Join(peers);
    proof {
        start_views_push(actions@, join);
    }
    actions.push(join);
    actions
}

/// A start stands the node up exactly once, prints exactly the stored messages it
/// is to print, in their order and before that, and joins last of all.
pub proof fn a_start_binds_once_and_prints_before(
    shown: Seq<EnvelopeView>,
    save: bool,
    config: ConfigView,
    peers: Seq<PeerView>,
)
    ensures
        ({
            let actions = start_actions(shown, save, config, peers);
            let bind = actions.len() - 4;
            &&& bind >= shown.len()
            &&& actions[bind] == StartView::Bind(config)
            &&& actions.last() == StartView::Join(peers)
            &&& forall|i: int|
                0 <= i < shown.len() ==> #[trigger] actions[i] == StartView::Show(shown[i])
            &&& forall|i: int|
                0 <= i < actions.len() && i != bind ==> !(#[trigger] actions[i] is Bind)
            &&& forall|i: int|
                shown.len() <= i < actions.len() ==> !(#[trigger] actions[i] is Show)
        }),
{
}

/// A run of the log: where it stood at each moment, and the message that was
/// inserted from one to the next.
pub open spec fn is_run(logs: Seq<Seq<EnvelopeView>>, inserted: Seq<EnvelopeView>) -> bool {
    &&& logs.len() == inserted.len() + 1
    &&& forall|i: int| 0 <= i < logs.len() ==> rows_sorted(#[trigger] logs[i])
    &&& forall|i: int|
        0 <= i < inserted.len() ==> put_in(logs[i], #[trigger] inserted[i], logs[i + 1])
}

/// What a log holds at one moment of a run it holds at every later one.
proof fn held_on(
    logs: Seq<Seq<EnvelopeView>>,
    inserted: Seq<EnvelopeView>,
    from: int,
    to: int,
    slot: (NodeId, u64),
)
    requires
        is_run(logs, inserted),
        0 <= from <= to < logs.len(),
        holds(logs[from], slot),
    ensures
        holds(logs[to], slot),
    decreases to - from,
{
    if from < to {
        held_on(logs, inserted, from, to - 1, slot);
        let e = inserted[to - 1];
        assert(put_in(logs[to - 1], e, logs[to - 1 + 1]));
        assert(rows_sorted(logs[to]));
        let at = choose|at: int|
            0 <= at <= logs[to - 1].len() && logs[to] == #[trigger] logs[to - 1].insert(at, e);
        put_in_facts(logs[to - 1], e, at);
    }
}

/// No message is printed twice: the stored ones that a start prints, and every one
/// that the run inserts after it, stand each in another place of the log. Only a
/// message that was inserted is printed once the loop is live.
pub proof fn nothing_is_printed_twice(
    logs: Seq<Seq<EnvelopeView>>,
    inserted: Seq<EnvelopeView>,
    limit: nat,
    shown: Seq<EnvelopeView>,
    i: int,
    j: int,
)
    requires
        is_run(logs, inserted),
        newest(logs[0], limit, shown),
        0 <= i < j < shown.len() + inserted.len(),
    ensures
        slot_of((shown + inserted)[i]) != slot_of((shown + inserted)[j]),
{
    let printed = shown + inserted;
    if j < shown.len() {
        let a = shown[i];
        let b = shown[j];
        assert(logs[0].contains(a) && logs[0].contains(b));
        let x = choose|x: int| 0 <= x < logs[0].len() && logs[0][x] == a;
        let y = choose|y: int| 0 <= y < logs[0].len() && logs[0][y] == b;
        assert(show_lt(a, b));
        show_order(a, b, a);
        assert(rows_sorted(logs[0]));
        if x < y {
            assert(slot_lt(slot_of(logs[0][x]), slot_of(logs[0][y])));
        } else if y < x {
            assert(slot_lt(slot_of(logs[0][y]), slot_of(logs[0][x])));
        }
        slot_order(slot_of(a), slot_of(b), slot_of(a));
    } else {
        let k = j - shown.len();
        let e = inserted[k];
        assert(put_in(logs[k], e, logs[k + 1]));
        assert(rows_sorted(logs[k + 1]));
        let at = choose|at: int|
            0 <= at <= logs[k].len() && logs[k + 1] == #[trigger] logs[k].insert(at, e);
        put_in_facts(logs[k], e, at);
        let slot = slot_of(printed[i]);
        if i < shown.len() {
            assert(logs[0].contains(shown[i]));
            let x = choose|x: int| 0 <= x < logs[0].len() && logs[0][x] == shown[i];
            assert(slot_of(logs[0][x]) == slot);
            held_on(logs, inserted, 0, k, slot);
        } else {
            let m = i - shown.len();
            let f = inserted[m];
            assert(put_in(logs[m], f, logs[m + 1]));
            assert(rows_sorted(logs[m + 1]));
            let there = choose|there: int|
                0 <= there <= logs[m].len() && logs[m + 1] == #[trigger] logs[m].insert(there, f);
            put_in_facts(logs[m], f, there);
            held_on(logs, inserted, m + 1, k, slot);
        }
    }
}

/// The loop ends well exactly when it is told to stop, and a live message is
/// printed exactly when it was inserted.
pub proof fn the_loop_ends_well_only_when_told(s: TailView, event: TailEvent)
    ensures
        told(s, event) == TailAction::Stop <==> event == TailEvent::Stop,
        (told(s, event) matches TailAction::Show { print, .. } ==> print == (event
            == TailEvent::Message(Ingested::Inserted))),
{
}

/// A node is bound with what its context and its caller say: the topic, the fabric
/// and the relay, the two limits, the channel's room, and the session protocol where
/// there is one.
pub proof fn a_node_is_bound_as_its_context_says(
    ctx: TopicContext,
    topic: TopicId,
    session: Option<Seq<u8>>,
    admit_recheck: u64,
    replay_limit: u32,
)
    ensures
        ({
            let config = config_of(ctx, topic, session, admit_recheck, replay_limit);
            &&& config.topic == topic
            &&& config.fabric_root == ctx.fabric_root
            &&& (config.relay_url is Some) == (ctx.relay_url is Some)
            &&& ctx.relay_url is Some ==> config.relay_url->0 == ctx.relay_url->0@
            &&& config.admit_recheck == admit_recheck
            &&& config.replay_limit == replay_limit
            &&& config.channel_cap == 256
            &&& session is None ==> config.protocols.len() == 0
            &&& session is Some ==> config.protocols.len() == 1 && config.protocols[0]
                == session->0
        }),
{
}

/// Starting up saves the book exactly where it changed, after what is printed and
/// before the node is bound; the banner and the socket follow the binding, and the
/// join comes last.
pub proof fn a_start_saves_what_changed(
    shown: Seq<EnvelopeView>,
    save: bool,
    config: ConfigView,
    peers: Seq<PeerView>,
)
    ensures
        ({
            let actions = start_actions(shown, save, config, peers);
            let n = shown.len() as int;
            let bind = if save {
                n + 1
            } else {
                n
            };
            &&& actions.len() == bind + 4
            &&& save ==> actions[n] == StartView::SaveBook
            &&& actions[bind] == StartView::Bind(config)
            &&& actions[bind + 1] == StartView::Banner
            &&& actions[bind + 2] == StartView::OpenSocket
            &&& actions[bind + 3] == StartView::Join(peers)
            &&& forall|i: int| 0 <= i < n ==> #[trigger] actions[i] == StartView::Show(shown[i])
        }),
{
}

/// What is printed at the start is the newest messages up to the limit, and whom the
/// node joins is the whole book in the order of the ids: there is one such list of
/// each, and that is the one.
pub proof fn a_start_shows_the_newest_and_joins_the_book(
    rows: Seq<EnvelopeView>,
    limit: nat,
    shown: Seq<EnvelopeView>,
    book: Map<NodeId, PeerView>,
    list: Seq<PeerView>,
)
    requires
        newest(rows, limit, shown),
        peers_sorted(list),
        by_node(list) == book,
    ensures
        transcript(rows, limit) == shown,
        listing(book) == list,
{
    backfill_is_determined(rows, limit, transcript(rows, limit), shown);
    sorted_peers_determined(listing(book), list);
}

} // verus!

//! The client: which paths it has subscribed to, and on which connection and
//! for which handler each subscription stands.
//!
//! The client opens no socket. To subscribe, the caller asks for the request
//! frame, opens a connection, writes the frame to it, and reports how that
//! went; the client then records the subscription or returns the error. To
//! listen, the caller takes the subscriptions and runs one dispatch loop for
//! each.

use vstd::prelude::*;
use vstd::utf8::encode_utf8;
use crate::confd::{fits_header, frame, send};
use crate::dispatch::{closing_error, deliveries, run, Run};
use crate::error::Error;
use crate::json::{request_text, SubscriptionRequest};
use crate::path::same_path;
use crate::registry::{
    count, distinct, holds, inserted, is_place, lemma_count_of_distinct, lemma_inserted_distinct,
    lemma_inserted_holds, lemma_place_is_first, lemma_place_of_held, names, pairs, place, value_at,
    Entry, Registry,
};

verus! {

/// The connection of a subscription and the handler that its messages go to.
pub struct SocketCallback<C, H> {
    pub socket: C,
    pub callback: H,
}

/// The frame that subscribes `subscriber` to `path`, or the error with which
/// making it fails.
pub open spec fn request_frame(path: Seq<char>, subscriber: Seq<char>) -> Result<Seq<u8>, Error> {
    match request_text(path, subscriber) {
        Ok(text) => if fits_header(encode_utf8(text).len()) {
            Ok(frame(encode_utf8(text)))
        } else {
            Err(Error::IntegerConversionError)
        },
        Err(e) => Err(e),
    }
}

/// Makes the frame that subscribes `subscriber` to `path`.
pub fn subscription_frame(path: &str, subscriber: &str) -> (r: Result<Vec<u8>, Error>)
    ensures
        match request_frame(path@, subscriber@) {
            Ok(bytes) => r matches Ok(made) && made@ == bytes,
            Err(e) => r == Err::<Vec<u8>, Error>(e),
        },
{
    let request = SubscriptionRequest { path: path.to_owned(), subscriber: subscriber.to_owned() };
    let text = request.to_json()?;
    let mut bytes: Vec<u8> = Vec::new();
    send(&mut bytes, text)?;
    assert(bytes@ =~= frame(encode_utf8(text@)));
    Ok(bytes)
}

/// A client of the configuration service.
pub struct Client<C, H> {
    client_name: String,
    socket_path: String,
    subscribers: Registry<SocketCallback<C, H>>,
}

impl<C, H> Client<C, H> {
    /// The name by which the client is known to the service.
    pub closed spec fn name(&self) -> Seq<char> {
        self.client_name@
    }

    /// The path of the service's socket.
    pub closed spec fn socket(&self) -> Seq<char> {
        self.socket_path@
    }

    /// The subscriptions, in the order in which their paths were first
    /// subscribed to.
    pub closed spec fn subscriptions(&self) -> Seq<(Seq<char>, SocketCallback<C, H>)> {
        self.subscribers@
    }

    /// A client without subscriptions. Nothing is opened.
    pub fn new(client_name: &str, socket_path: &str) -> (client: Self)
        ensures
            client.name() == client_name@,
            client.socket() == socket_path@,
            client.subscriptions() == Seq::<(Seq<char>, SocketCallback<C, H>)>::empty(),
    {
        Client {
            client_name: client_name.to_owned(),
            socket_path: socket_path.to_owned(),
            subscribers: Registry::new(),
        }
    }

    /// The name by which the client is known to the service.
    pub fn client_name(&self) -> (name: &str)
        ensures
            name@ == self.name(),
    {
        self.client_name.as_str()
    }

    /// The path of the socket on which each subscription's connection is
    /// opened.
    pub fn socket_path(&self) -> (path: &str)
        ensures
            path@ == self.socket(),
    {
        self.socket_path.as_str()
    }

    /// The number of subscriptions.
    pub fn len(&self) -> (n: usize)
        ensures
            n == self.subscriptions().len(),
            distinct(self.subscriptions()),
    {
        self.subscribers.len()
    }

    /// The frame to write to a fresh connection in order to subscribe to
    /// `path`.
    pub fn request(&self, path: &str) -> (r: Result<Vec<u8>, Error>)
        ensures
            match request_frame(path@, self.name()) {
                Ok(bytes) => r matches Ok(made) && made@ == bytes,
                Err(e) => r == Err::<Vec<u8>, Error>(e),
            },
    {
        subscription_frame(path, self.client_name.as_str())
    }

    /// Records a subscription to `path`, or the failure to open it.
    ///
    /// `opened` tells how opening a connection and writing the request to it
    /// went. A connection that is ready becomes the subscription for `path`,
    /// in place of the one that the path had, if it had one; the superseded
    /// connection and handler are dropped here. A failure is returned as it
    /// is, and the subscriptions stay as they were.
    pub fn subscribe(&mut self, path: &str, callback: H, opened: Result<C, Error>) -> (r: Result<
        (),
        Error,
    >)
        ensures
            final(self).name() == old(self).name(),
            final(self).socket() == old(self).socket(),
            distinct(final(self).subscriptions()),
            match opened {
                Ok(socket) => r is Ok && final(self).subscriptions() == inserted(
                    old(self).subscriptions(),
                    path@,
                    SocketCallback { socket, callback },
                ),
                Err(e) => r == Err::<(), Error>(e) && final(self).subscriptions() == old(
                    self,
                ).subscriptions(),
            },
    {
        match opened {
            Ok(socket) => {
                self.subscribers.insert(path, SocketCallback { socket, callback });
                Ok(())
            },
            Err(e) => {
                proof {
                    use_type_invariant(&self.subscribers);
                }
                Err(e)
            },
        }
    }

    /// Ends the time in which subscriptions can be made and gives them up, in
    /// order, to whoever runs their loops.
    pub fn into_subscriptions(self) -> (subscriptions: Vec<Entry<SocketCallback<C, H>>>)
        ensures
            pairs(subscriptions@) == self.subscriptions(),
            distinct(self.subscriptions()),
    {
        self.subscribers.into_entries()
    }
}

/// Subscribing again to a path replaces its subscription: afterwards the
/// path has exactly one subscription, with the connection and the handler of
/// the second call, at the place that the first call gave it. This holds
/// however the second call spells the path.
pub proof fn lemma_resubscribe_replaces<C, H>(
    subscriptions: Seq<(Seq<char>, SocketCallback<C, H>)>,
    path: Seq<char>,
    again: Seq<char>,
    first: SocketCallback<C, H>,
    second: SocketCallback<C, H>,
)
    requires
        distinct(subscriptions),
        same_path(encode_utf8(path), encode_utf8(again)),
    ensures
        ({
            let once = inserted(subscriptions, path, first);
            let twice = inserted(once, again, second);
            &&& count(twice, path) == 1
            &&& value_at(twice, path) == Some(second)
            &&& twice.len() == once.len()
            &&& twice == once.update(place(once, path), (once[place(once, path)].0, second))
        }),
{
    let once = inserted(subscriptions, path, first);
    let twice = inserted(once, again, second);
    lemma_inserted_distinct(subscriptions, path, first);
    lemma_inserted_holds(subscriptions, path, first);
    lemma_place_of_held(once, path);
    let p = place(once, path);
    assert(is_place(once, again, p)) by {
        assert(names(once[p], again));
        assert forall|j: int| 0 <= j < p implies !names(#[trigger] once[j], again) by {
            assert(!names(once[j], path));
        }
    }
    lemma_place_is_first(once, again, p);
    lemma_inserted_holds(once, again, second);
    lemma_inserted_distinct(once, again, second);
    assert(is_place(twice, path, p)) by {
        assert(names(twice[p], path));
        assert forall|j: int| 0 <= j < p implies !names(#[trigger] twice[j], path) by {
            assert(!names(once[j], path));
        }
    }
    lemma_place_is_first(twice, path, p);
    lemma_count_of_distinct(twice, path);
}

/// How the loop of one subscription went.
pub struct Finished<H> {
    /// The path of the subscription.
    pub path: String,
    /// Its handler.
    pub callback: H,
    /// What the handler was given, and the error that ended the loop.
    pub run: Run,
}

/// Whether `finished` tells, subscription by subscription and in order, how
/// the loop went that ran on what the subscription's connection supplied.
pub open spec fn listened<H>(
    subscriptions: Seq<(Seq<char>, SocketCallback<Vec<u8>, H>)>,
    finished: Seq<Finished<H>>,
) -> bool {
    &&& finished.len() == subscriptions.len()
    &&& forall|i: int|
        0 <= i < finished.len() ==> {
            &&& (#[trigger] finished[i]).path@ == subscriptions[i].0
            &&& finished[i].callback == subscriptions[i].1.callback
            &&& finished[i].run.delivered@ == deliveries(subscriptions[i].1.socket@)
            &&& finished[i].run.error == closing_error(subscriptions[i].1.socket@)
        }
}

/// What a connection supplies decides the outcome of its own subscription
/// and of no other: two clients whose subscriptions at one place got the same
/// bytes see the same deliveries and the same closing error there, whatever
/// their other subscriptions went through.
pub proof fn lemma_listen_is_independent<H>(
    subscriptions: Seq<(Seq<char>, SocketCallback<Vec<u8>, H>)>,
    finished: Seq<Finished<H>>,
    others: Seq<(Seq<char>, SocketCallback<Vec<u8>, H>)>,
    finished_others: Seq<Finished<H>>,
    i: int,
    j: int,
)
    requires
        listened(subscriptions, finished),
        listened(others, finished_others),
        0 <= i < subscriptions.len(),
        0 <= j < others.len(),
        subscriptions[i].1.socket@ == others[j].1.socket@,
    ensures
        finished[i].run.delivered@ == finished_others[j].run.delivered@,
        finished[i].run.error == finished_others[j].run.error,
{
}

impl<H> Client<Vec<u8>, H> {
    /// Runs every subscription's loop to its end, each on the bytes that its
    /// connection supplied before closing.
    ///
    /// Each loop ends with an error, if only the end of its stream. None of
    /// them is an error of listening: the result is always `Ok`, and what one
    /// subscription went through has no part in the outcome of another.
    pub fn listen(self) -> (r: Result<Vec<Finished<H>>, Error>)
        ensures
            r matches Ok(finished) && listened(self.subscriptions(), finished@),
    {
        let subscriptions = self.into_subscriptions();
        let mut finished: Vec<Finished<H>> = Vec::new();
        for entry in all: subscriptions
            invariant
                finished.len() == all.index(),
                forall|i: int|
                    0 <= i < finished.len() ==> {
                        &&& (#[trigger] finished[i]).path@ == all.seq()[i].path@
                        &&& finished[i].callback == all.seq()[i].value.callback
                        &&& finished[i].run.delivered@ == deliveries(all.seq()[i].value.socket@)
                        &&& finished[i].run.error == closing_error(all.seq()[i].value.socket@)
                    },
        {
            let outcome = run(entry.value.socket.as_slice());
            finished.push(Finished { path: entry.path, callback: entry.value.callback, run: outcome });
        }
        Ok(finished)
    }
}

/// The name that a client has unless it is given another.
pub const DEFAULT_NAME: &'static str = "confd-rs-client";

/// The socket on which the service listens unless the client is told
/// otherwise.
pub const DEFAULT_SOCKET_PATH: &'static str = "/var/confd/service-interface.socket";

/// Collects a client's name, socket path and subscriptions before anything
/// is opened.
pub struct ClientBuilder<H> {
    name: String,
    socket_path: String,
    subscribers: Registry<H>,
}

impl<H> Default for ClientBuilder<H> {
    /// A builder with the default name, the default socket path and no
    /// subscriptions.
    fn default() -> (builder: Self)
        ensures
            builder.client_name() == DEFAULT_NAME@,
            builder.socket() == DEFAULT_SOCKET_PATH@,
            builder.subscriptions() == Seq::<(Seq<char>, H)>::empty(),
    {
        ClientBuilder {
            name: DEFAULT_NAME.to_owned(),
            socket_path: DEFAULT_SOCKET_PATH.to_owned(),
            subscribers: Registry::new(),
        }
    }
}

impl<H> ClientBuilder<H> {
    /// The name that the client will have.
    pub closed spec fn client_name(&self) -> Seq<char> {
        self.name@
    }

    /// The socket path that the client will have.
    pub closed spec fn socket(&self) -> Seq<char> {
        self.socket_path@
    }

    /// The paths to subscribe to, each with its handler, in the order in
    /// which the paths were first named.
    pub closed spec fn subscriptions(&self) -> Seq<(Seq<char>, H)> {
        self.subscribers@
    }

    /// Sets the socket path.
    pub fn with_socket_path(self, path: String) -> (builder: Self)
        ensures
            builder.socket() == path@,
            builder.client_name() == self.client_name(),
            builder.subscriptions() == self.subscriptions(),
    {
        ClientBuilder { name: self.name, socket_path: path, subscribers: self.subscribers }
    }

    /// Sets the client's name.
    pub fn with_name(self, name: &str) -> (builder: Self)
        ensures
            builder.client_name() == name@,
            builder.socket() == self.socket(),
            builder.subscriptions() == self.subscriptions(),
    {
        ClientBuilder {
            name: name.to_owned(),
            socket_path: self.socket_path,
            subscribers: self.subscribers,
        }
    }

    /// Adds a subscription to `path`. A path that was named before keeps its
    /// place and gets the new handler.
    pub fn with_subscription(self, path: &str, callback: H) -> (builder: Self)
        ensures
            builder.subscriptions() == inserted(self.subscriptions(), path@, callback),
            distinct(builder.subscriptions()),
            builder.client_name() == self.client_name(),
            builder.socket() == self.socket(),
    {
        let mut subscribers = self.subscribers;
        subscribers.insert(path, callback);
        ClientBuilder { name: self.name, socket_path: self.socket_path, subscribers }
    }

    /// Starts building the client: a client without subscriptions, and
    /// every collected subscription waiting to be opened, in order.
    pub fn build<C>(self) -> (step: Build<C, H>)
        ensures
            step.client().name() == self.client_name(),
            step.client().socket() == self.socket(),
            step.client().subscriptions() == Seq::<(Seq<char>, SocketCallback<C, H>)>::empty(),
            step.pending() == self.subscriptions(),
            distinct(step.pending()),
    {
        let client = Client::new(self.name.as_str(), self.socket_path.as_str());
        proceed(client, self.subscribers.into_entries())
    }
}

/// Where building a client stands.
pub enum Build<C, H> {
    /// A subscription waits for its connection.
    Connect(Connecting<C, H>),
    /// Every subscription is open: the client is ready.
    Done(Client<C, H>),
}

/// A client under construction, and the subscription whose connection is to
/// be opened next.
pub struct Connecting<C, H> {
    /// The client, with the subscriptions opened so far.
    pub client: Client<C, H>,
    /// The path to subscribe to next.
    pub path: String,
    /// The handler for that path.
    pub callback: H,
    /// The subscriptions to open after that, in order.
    pub later: Vec<Entry<H>>,
}

impl<C, H> Build<C, H> {
    /// The client as far as it is built.
    pub open spec fn client(self) -> Client<C, H> {
        match self {
            Build::Connect(connecting) => connecting.client,
            Build::Done(client) => client,
        }
    }

    /// The subscriptions still to be opened, the next one first.
    pub open spec fn pending(self) -> Seq<(Seq<char>, H)> {
        match self {
            Build::Connect(connecting) => connecting.pending(),
            Build::Done(_) => Seq::empty(),
        }
    }
}

/// Goes on with a build: done if nothing is pending, else waiting for the
/// first pending subscription.
fn proceed<C, H>(client: Client<C, H>, pending: Vec<Entry<H>>) -> (step: Build<C, H>)
    ensures
        step.client() == client,
        step.pending() == pairs(pending@),
        step is Done <==> pending@.len() == 0,
{
    let mut later = pending;
    if later.len() == 0 {
        assert(pairs(pending@) =~= Seq::<(Seq<char>, H)>::empty());
        Build::Done(client)
    } else {
        let next = later.remove(0);
        assert(seq![(next.path@, next.value)] + pairs(later@) =~= pairs(pending@));
        Build::Connect(Connecting { client, path: next.path, callback: next.value, later })
    }
}

impl<C, H> Connecting<C, H> {
    /// The subscriptions still to be opened, the next one first.
    pub open spec fn pending(self) -> Seq<(Seq<char>, H)> {
        seq![(self.path@, self.callback)] + pairs(self.later@)
    }

    /// The frame to write to the connection that is opened next.
    pub fn request(&self) -> (r: Result<Vec<u8>, Error>)
        ensures
            match request_frame(self.path@, self.client.name()) {
                Ok(bytes) => r matches Ok(made) && made@ == bytes,
                Err(e) => r == Err::<Vec<u8>, Error>(e),
            },
    {
        self.client.request(self.path.as_str())
    }

    /// Takes the build one step further: `opened` tells how opening the
    /// connection and writing the request to it went.
    ///
    /// A failure ends the build at once. It is returned as it is, no later
    /// subscription is attempted, and the client under construction is given
    /// up together with the connections that it holds.
    pub fn advance(self, opened: Result<C, Error>) -> (r: Result<Build<C, H>, Error>)
        ensures
            match opened {
                Ok(socket) => r matches Ok(step) && {
                    &&& step.client().name() == self.client.name()
                    &&& step.client().socket() == self.client.socket()
                    &&& step.client().subscriptions() == inserted(
                        self.client.subscriptions(),
                        self.path@,
                        SocketCallback { socket, callback: self.callback },
                    )
                    &&& step.pending() == pairs(self.later@)
                },
                Err(e) => r == Err::<Build<C, H>, Error>(e),
            },
    {
        let mut client = self.client;
        client.subscribe(self.path.as_str(), self.callback, opened)?;
        Ok(proceed(client, self.later))
    }
}

/// What a build comes to from where it stands, if the connections of the
/// pending subscriptions open as `outcomes` tell, one after another: the
/// client's subscriptions, or the first failure.
pub open spec fn build_result<C, H>(
    subscriptions: Seq<(Seq<char>, SocketCallback<C, H>)>,
    pending: Seq<(Seq<char>, H)>,
    outcomes: Seq<Result<C, Error>>,
) -> Result<Seq<(Seq<char>, SocketCallback<C, H>)>, Error>
    decreases pending.len(),
{
    if pending.len() == 0 || outcomes.len() == 0 {
        Ok(subscriptions)
    } else {
        match outcomes[0] {
            Ok(socket) => build_result(
                inserted(
                    subscriptions,
                    pending[0].0,
                    SocketCallback { socket, callback: pending[0].1 },
                ),
                pending.skip(1),
                outcomes.skip(1),
            ),
            Err(e) => Err(e),
        }
    }
}

/// Each pending subscription on the connection that was opened for it.
pub open spec fn opened_all<C, H>(
    pending: Seq<(Seq<char>, H)>,
    outcomes: Seq<Result<C, Error>>,
) -> Seq<(Seq<char>, SocketCallback<C, H>)> {
    Seq::new(
        pending.len(),
        |i: int|
            (pending[i].0, SocketCallback { socket: outcomes[i]->Ok_0, callback: pending[i].1 }),
    )
}

/// A build fails fast: the first connection that fails to open ends it with
/// that failure, whatever the subscriptions after it would have met.
pub proof fn lemma_build_fails_fast<C, H>(
    subscriptions: Seq<(Seq<char>, SocketCallback<C, H>)>,
    pending: Seq<(Seq<char>, H)>,
    outcomes: Seq<Result<C, Error>>,
    failed: int,
)
    requires
        0 <= failed < pending.len(),
        failed < outcomes.len(),
        outcomes[failed] is Err,
        forall|i: int| 0 <= i < failed ==> (#[trigger] outcomes[i]) is Ok,
    ensures
        build_result(subscriptions, pending, outcomes) == Err::<
            Seq<(Seq<char>, SocketCallback<C, H>)>,
            Error,
        >(outcomes[failed]->Err_0),
    decreases failed,
{
    if failed > 0 {
        assert(outcomes[0] is Ok);
        let socket = outcomes[0]->Ok_0;
        let next = inserted(
            subscriptions,
            pending[0].0,
            SocketCallback { socket, callback: pending[0].1 },
        );
        assert forall|i: int| 0 <= i < failed - 1 implies (#[trigger] outcomes.skip(1)[i]) is Ok by {
            assert(outcomes[i + 1] is Ok);
        }
        lemma_build_fails_fast(next, pending.skip(1), outcomes.skip(1), failed - 1);
    }
}

/// Where every connection opens, a build that starts without subscriptions
/// ends with one subscription for each collected path, in the order in which
/// the paths were collected.
pub proof fn lemma_build_in_order<C, H>(
    pending: Seq<(Seq<char>, H)>,
    outcomes: Seq<Result<C, Error>>,
)
    requires
        distinct(pending),
        outcomes.len() == pending.len(),
        forall|i: int| 0 <= i < outcomes.len() ==> (#[trigger] outcomes[i]) is Ok,
    ensures
        build_result(Seq::empty(), pending, outcomes) == Ok::<
            Seq<(Seq<char>, SocketCallback<C, H>)>,
            Error,
        >(opened_all(pending, outcomes)),
{
    lemma_build_appends(Seq::empty(), pending, outcomes);
    assert(Seq::<(Seq<char>, SocketCallback<C, H>)>::empty() + opened_all(pending, outcomes)
        =~= opened_all(pending, outcomes));
}

/// Where every connection opens and no pending path is subscribed to yet,
/// a build adds the pending subscriptions at the end, in order.
proof fn lemma_build_appends<C, H>(
    subscriptions: Seq<(Seq<char>, SocketCallback<C, H>)>,
    pending: Seq<(Seq<char>, H)>,
    outcomes: Seq<Result<C, Error>>,
)
    requires
        distinct(pending),
        outcomes.len() == pending.len(),
        forall|i: int| 0 <= i < outcomes.len() ==> (#[trigger] outcomes[i]) is Ok,
        forall|i: int, j: int|
            0 <= i < subscriptions.len() && 0 <= j < pending.len() ==> !names(
                #[trigger] subscriptions[i],
                (#[trigger] pending[j]).0,
            ),
    ensures
        build_result(subscriptions, pending, outcomes) == Ok::<
            Seq<(Seq<char>, SocketCallback<C, H>)>,
            Error,
        >(subscriptions + opened_all(pending, outcomes)),
    decreases pending.len(),
{
    if pending.len() == 0 {
        assert(subscriptions + opened_all(pending, outcomes) =~= subscriptions);
    } else {
        assert(outcomes[0] is Ok);
        let added = (
            pending[0].0,
            SocketCallback { socket: outcomes[0]->Ok_0, callback: pending[0].1 },
        );
        let next = inserted(subscriptions, added.0, added.1);
        let rest = pending.skip(1);
        let later = outcomes.skip(1);
        assert(!holds(subscriptions, pending[0].0)) by {
            if holds(subscriptions, pending[0].0) {
                let i = choose|i: int|
                    0 <= i < subscriptions.len() && names(
                        #[trigger] subscriptions[i],
                        pending[0].0,
                    );
                assert(!names(subscriptions[i], pending[0].0));
            }
        }
        assert(next == subscriptions.push(added));
        assert forall|i: int, j: int| 0 <= i < j < rest.len() implies !names(
            #[trigger] rest[i],
            (#[trigger] rest[j]).0,
        ) by {
            assert(!names(pending[i + 1], pending[j + 1].0));
        }
        assert forall|i: int| 0 <= i < later.len() implies (#[trigger] later[i]) is Ok by {
            assert(outcomes[i + 1] is Ok);
        }
        assert forall|i: int, j: int| 0 <= i < next.len() && 0 <= j < rest.len() implies !names(
            #[trigger] next[i],
            (#[trigger] rest[j]).0,
        ) by {
            if i < subscriptions.len() {
                assert(!names(subscriptions[i], pending[j + 1].0));
            } else {
                assert(!names(pending[0], pending[j + 1].0));
            }
        }
        lemma_build_appends(next, rest, later);
        assert(next + opened_all(rest, later) =~= subscriptions + opened_all(pending, outcomes));
    }
}

} // verus!

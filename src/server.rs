//! The request dispatcher: what the server does with each request of a
//! connection, and the state of a connection between requests.
use crate::engines::KvsEngine;
use crate::error::KvStoreError;
use crate::thread_pool::ThreadPool;
use vstd::prelude::*;

verus! {

/// A request of the wire protocol.
#[derive(Debug)]
pub enum Request {
    Put { key: String, value: String },
    Get { key: String },
    Remove { key: String },
}

/// The response to a request: the engine's result, or its error as text.
#[derive(Debug)]
pub enum Response {
    Put(core::result::Result<(), String>),
    Get(core::result::Result<Option<String>, String>),
    Remove(core::result::Result<(), String>),
}

/// The response to a `Put`: `Ok` when the engine set the key, else the
/// error's text.
pub fn put_response(r: crate::error::Result<()>) -> (resp: Response)
    ensures
        r is Ok ==> resp == Response::Put(Ok(())),
        r matches Err(e) ==> (resp matches Response::Put(Err(m)) && m@ == e.message_spec()),
{
    match r {
        Ok(()) => Response::Put(Ok(())),
        Err(e) => Response::Put(Err(e.message())),
    }
}

/// The response to a `Get`: the value the engine found, else the error's
/// text.
pub fn get_response(r: crate::error::Result<Option<String>>) -> (resp: Response)
    ensures
        r matches Ok(v) ==> resp == Response::Get(Ok(v)),
        r matches Err(e) ==> (resp matches Response::Get(Err(m)) && m@ == e.message_spec()),
{
    match r {
        Ok(v) => Response::Get(Ok(v)),
        Err(e) => Response::Get(Err(e.message())),
    }
}

/// The response to a `Remove`: `Ok` when the engine removed the key, else
/// the error's text.
pub fn remove_response(r: crate::error::Result<()>) -> (resp: Response)
    ensures
        r is Ok ==> resp == Response::Remove(Ok(())),
        r matches Err(e) ==> (resp matches Response::Remove(Err(m)) && m@ == e.message_spec()),
{
    match r {
        Ok(()) => Response::Remove(Ok(())),
        Err(e) => Response::Remove(Err(e.message())),
    }
}

/// `resp` answers `req`, and the engine's map went from `before` to `after`:
/// the response has the request's kind; a `Put` answered `Ok` set the key
/// and one answered `Err` changed nothing; a `Get` changes nothing, and an
/// `Ok` answer holds the key's value; a `Remove` answered `Ok` removed a key
/// that was there, and one answered `Err` changed nothing. A `Get` or a
/// `Remove` is answered "Key not found" exactly when the key had no value.
pub open spec fn handled(
    before: Map<Seq<char>, Seq<char>>,
    after: Map<Seq<char>, Seq<char>>,
    req: Request,
    resp: Response,
) -> bool {
    match req {
        Request::Put { key, value } => {
            &&& resp is Put
            &&& resp matches Response::Put(Ok(_)) ==> after == before.insert(key@, value@)
            &&& resp matches Response::Put(Err(_)) ==> after == before
        },
        Request::Get { key } => {
            &&& resp is Get
            &&& after == before
            &&& resp matches Response::Get(Ok(v)) ==> v matches Some(s) && before.contains_key(
                key@,
            ) && before[key@] == s@
            &&& !before.contains_key(key@) ==> (resp matches Response::Get(Err(_)))
            &&& resp matches Response::Get(Err(m)) ==> (m@ == "Key not found"@
                <==> !before.contains_key(key@))
        },
        Request::Remove { key } => {
            &&& resp is Remove
            &&& resp matches Response::Remove(Ok(_)) ==> before.contains_key(key@) && after
                == before.remove(key@)
            &&& resp matches Response::Remove(Err(_)) ==> after == before
            &&& !before.contains_key(key@) ==> (resp matches Response::Remove(Err(_)))
            &&& resp matches Response::Remove(Err(m)) ==> (m@ == "Key not found"@
                <==> !before.contains_key(key@))
        },
    }
}

/// Runs one request against the engine and turns its outcome into the
/// response that goes back to the client.
pub fn handle_request<E: KvsEngine>(engine: &mut E, req: Request) -> (r: Response)
    requires
        old(engine).inv(),
    ensures
        final(engine).inv(),
        handled(old(engine).model(), final(engine).model(), req, r),
{
    match req {
        Request::Put { key, value } => put_response(engine.set(key, value)),
        Request::Get { key } => {
            let r = engine.get(key);
            proof {
                if r is Err {
                    r->Err_0.lemma_not_found_distinct();
                }
            }
            get_response(r)
        },
        Request::Remove { key } => {
            let r = engine.remove(key);
            proof {
                if r is Err {
                    r->Err_0.lemma_not_found_distinct();
                }
            }
            remove_response(r)
        },
    }
}

/// Where a connection stands.
pub enum ConnState {
    /// Waiting for the next request.
    Reading,
    /// A response is being written back.
    Responding,
    /// The connection is over.
    Closed,
}

/// What happened on a connection.
pub enum ConnEvent {
    /// A whole request was read.
    Decoded(Request),
    /// The bytes read are not a request.
    DecodeFailed,
    /// The client went away.
    Disconnected,
    /// The response was written and flushed.
    Flushed,
    /// Writing the response failed.
    WriteFailed,
}

/// Takes a connection one step: a request read while reading is run against
/// the engine and its response is to be written; a written response goes
/// back to reading; a failure to decode, a disconnect or a failed write
/// closes the connection. Nothing else changes the state.
pub fn step<E: KvsEngine>(engine: &mut E, state: ConnState, event: ConnEvent) -> (r: (
    ConnState,
    Option<Response>,
))
    requires
        old(engine).inv(),
    ensures
        final(engine).inv(),
        match (state, event) {
            (ConnState::Reading, ConnEvent::Decoded(req)) => r.0 is Responding && (r.1 matches Some(
                resp,
            ) && handled(old(engine).model(), final(engine).model(), req, resp)),
            (ConnState::Reading, ConnEvent::DecodeFailed) => r.0 is Closed && r.1 is None,
            (ConnState::Reading, ConnEvent::Disconnected) => r.0 is Closed && r.1 is None,
            (ConnState::Responding, ConnEvent::Flushed) => r.0 is Reading && r.1 is None,
            (ConnState::Responding, ConnEvent::WriteFailed) => r.0 is Closed && r.1 is None,
            (ConnState::Responding, ConnEvent::Disconnected) => r.0 is Closed && r.1 is None,
            (ConnState::Closed, _) => r.0 is Closed && r.1 is None,
            (s, _) => r.0 == s && r.1 is None,
        },
        r.1 is None ==> final(engine).model() == old(engine).model(),
{
    match state {
        ConnState::Reading => match event {
            ConnEvent::Decoded(req) => (ConnState::Responding, Some(handle_request(engine, req))),
            ConnEvent::DecodeFailed => (ConnState::Closed, None),
            ConnEvent::Disconnected => (ConnState::Closed, None),
            _ => (ConnState::Reading, None),
        },
        ConnState::Responding => match event {
            ConnEvent::Flushed => (ConnState::Reading, None),
            ConnEvent::WriteFailed => (ConnState::Closed, None),
            ConnEvent::Disconnected => (ConnState::Closed, None),
            _ => (ConnState::Responding, None),
        },
        ConnState::Closed => (ConnState::Closed, None),
    }
}

/// A server: an engine shared by its connections, and the pool of workers
/// that serves them.
pub struct KvsServer<E: KvsEngine, P: ThreadPool> {
    engine: E,
    pool: P,
}

impl<E: KvsEngine, P: ThreadPool> KvsServer<E, P> {
    /// The engine the server was made with.
    pub closed spec fn engine_view(&self) -> E {
        self.engine
    }

    /// The pool the server was made with.
    pub closed spec fn pool_view(&self) -> P {
        self.pool
    }

    /// Makes a server from an engine and a pool.
    pub fn new(engine: E, pool: P) -> (r: Self)
        ensures
            r.engine_view() == engine,
            r.pool_view() == pool,
    {
        KvsServer { engine, pool }
    }

    /// The engine that requests run against.
    pub fn engine(&self) -> (r: &E)
        ensures
            *r == self.engine_view(),
    {
        &self.engine
    }

    /// Takes the server apart into its engine and its pool.
    pub fn into_parts(self) -> (r: (E, P))
        ensures
            r.0 == self.engine_view(),
            r.1 == self.pool_view(),
    {
        (self.engine, self.pool)
    }

    /// The pool that serves the connections.
    pub fn pool(&self) -> (r: &P)
        ensures
            *r == self.pool_view(),
    {
        &self.pool
    }
}

} // verus!

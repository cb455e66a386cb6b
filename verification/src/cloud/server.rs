//! The fleet server: connections, admission limits, sessions, and the fleet.
//!
//! Sockets stay with the caller, who reports what was accepted and read and
//! carries out what the server says. Connections are served one request each,
//! without keep-alive.
use vstd::prelude::*;
use crate::cloud::auth::{handshake_resp_to_json, reply_value, CipherSuite, Verdict};
use crate::cloud::dispatch::{answers, dispatch, Action};
use crate::cloud::error::{CloudError, CloudErrorView};
use crate::cloud::fleet::{is_fresh, result_of, unit_at, Fleet, UnitState, UnitTransport};
use crate::cloud::http::{
    json_response, request_in, text_response, Request, RequestView, Response, ResponseView,
};
use crate::cloud::mcp::McpServer;
use crate::cloud::recorder::Recorder;
use crate::bytes::push_slice;
use crate::runtime::eventloop::{EventHandler, Ready, Token};
use crate::runtime::mode::{default_edge, Mode};

verus! {

/// Registration token for the listening socket inside the event loop.
pub const LISTENER_TOKEN: Token = 0;

/// Most bytes that may wait on a connection for a complete request.
pub const MAX_BUFFERED: usize = 0x10_0000;

/// Server admission limits: bound concurrent connections and drop idle ones so
/// a single peer cannot exhaust file descriptors or pin memory.
#[derive(Debug, Clone, Copy)]
pub struct ServerLimits {
    /// Maximum number of accepted client connections (0 = unbounded).
    pub max_conns: usize,
    /// Idle timeout in nanoseconds: a connection with no activity for longer
    /// than this is reclaimed by [`FleetServer::sweep_idle`].
    pub idle_timeout_ns: u64,
}

impl Default for ServerLimits {
    fn default() -> (r: ServerLimits)
        ensures
            r.max_conns == 1024,
            r.idle_timeout_ns == 30_000_000_000,
    {
        ServerLimits { max_conns: 1024, idle_timeout_ns: 30_000_000_000 }
    }
}

/// One accepted client connection being served.
struct Conn {
    token: Token,
    read_buf: Vec<u8>,
    registered: bool,
    last_active_ns: u64,
}

/// What is known of a connection.
#[verifier::ext_equal]
pub ghost struct Connection {
    pub token: Token,
    /// Bytes that were read and make no complete request yet.
    pub buffered: Seq<u8>,
    /// Whether the event loop watches it.
    pub registered: bool,
    pub last_active_ns: u64,
}

spec fn connection(c: Conn) -> Connection {
    Connection {
        token: c.token,
        buffered: c.read_buf@,
        registered: c.registered,
        last_active_ns: c.last_active_ns,
    }
}

/// The connections other than `token`.
pub open spec fn others(conns: Seq<Connection>, token: Token) -> Seq<Connection>
    decreases conns.len(),
{
    if conns.len() == 0 {
        Seq::empty()
    } else if conns.last().token == token {
        others(conns.drop_last(), token)
    } else {
        others(conns.drop_last(), token).push(conns.last())
    }
}

/// Where the connection `token` stands.
pub open spec fn conn_at(conns: Seq<Connection>, token: Token) -> Option<int>
    decreases conns.len(),
{
    if conns.len() == 0 {
        None
    } else if conns.last().token == token {
        Some(conns.len() - 1)
    } else {
        conn_at(conns.drop_last(), token)
    }
}

/// Whether a connection has been idle for longer than `timeout_ns`.
pub open spec fn is_idle(c: Connection, now_ns: u64, timeout_ns: u64) -> bool {
    now_ns - c.last_active_ns > timeout_ns
}

/// The connections that are not idle.
pub open spec fn awake(conns: Seq<Connection>, now_ns: u64, timeout_ns: u64) -> Seq<Connection>
    decreases conns.len(),
{
    if conns.len() == 0 {
        Seq::empty()
    } else if is_idle(conns.last(), now_ns, timeout_ns) {
        awake(conns.drop_last(), now_ns, timeout_ns)
    } else {
        awake(conns.drop_last(), now_ns, timeout_ns).push(conns.last())
    }
}

/// The tokens of the connections that are idle.
pub open spec fn idle_tokens(conns: Seq<Connection>, now_ns: u64, timeout_ns: u64) -> Seq<Token>
    decreases conns.len(),
{
    if conns.len() == 0 {
        Seq::empty()
    } else if is_idle(conns.last(), now_ns, timeout_ns) {
        idle_tokens(conns.drop_last(), now_ns, timeout_ns).push(conns.last().token)
    } else {
        idle_tokens(conns.drop_last(), now_ns, timeout_ns)
    }
}

/// The tokens of the connections that the event loop does not watch yet.
pub open spec fn unwatched(conns: Seq<Connection>) -> Seq<Token>
    decreases conns.len(),
{
    if conns.len() == 0 {
        Seq::empty()
    } else if conns.last().registered {
        unwatched(conns.drop_last())
    } else {
        unwatched(conns.drop_last()).push(conns.last().token)
    }
}

/// What became of a connection that was read.
#[derive(Debug)]
pub enum Service {
    /// The connection is not known.
    Unknown,
    /// The peer is gone, or sent too much or no HTTP: close it.
    Close,
    /// Keep it; the request is not complete.
    Wait,
    /// Answer this request and close it.
    Serve(Request),
}

/// What a [`Service`] says.
pub ghost enum ServiceView {
    Unknown,
    Close,
    Wait,
    Serve(RequestView),
}

impl View for Service {
    type V = ServiceView;

    open spec fn view(&self) -> ServiceView {
        match *self {
            Service::Unknown => ServiceView::Unknown,
            Service::Close => ServiceView::Close,
            Service::Wait => ServiceView::Wait,
            Service::Serve(r) => ServiceView::Serve(r@),
        }
    }
}

/// What becomes of a connection whose buffer now holds `buffered`.
pub open spec fn verdict_on(buffered: Seq<u8>, ended: bool) -> ServiceView {
    if ended || buffered.len() > MAX_BUFFERED {
        ServiceView::Close
    } else {
        match request_in(buffered) {
            Ok(Some((req, _))) => ServiceView::Serve(req),
            Ok(None) => ServiceView::Wait,
            Err(_) => ServiceView::Close,
        }
    }
}

/// The connections after `data` was read on `token`.
pub open spec fn served(
    conns: Seq<Connection>,
    token: Token,
    data: Seq<u8>,
    ended: bool,
    now_ns: u64,
) -> Seq<Connection> {
    match conn_at(conns, token) {
        Some(i) => {
            let c = conns[i];
            let next = Connection {
                buffered: c.buffered + data,
                last_active_ns: if data.len() > 0 {
                    now_ns
                } else {
                    c.last_active_ns
                },
                ..c
            };
            if verdict_on(next.buffered, ended) is Wait {
                conns.update(i, next)
            } else {
                conns.remove(i)
            }
        },
        None => conns,
    }
}

/// What the caller found when it answered a handshake.
#[derive(Debug)]
pub enum HandshakeResult {
    /// The bytes are no attestation.
    BadAttestation,
    /// The session stands; the bytes of the server's attestation and the suite.
    Established { attestation: Vec<u8>, suite: CipherSuite },
    /// The peer was refused, and why.
    Rejected(String),
}

/// The answer to a handshake.
pub open spec fn handshake_answer(r: HandshakeResult) -> ResponseView {
    match r {
        HandshakeResult::BadAttestation => text_response(400, "missing attestation or suites"@),
        HandshakeResult::Established { attestation, suite } => json_response(
            200,
            reply_value(attestation@, suite),
        ),
        HandshakeResult::Rejected(e) => text_response(403, "handshake rejected: "@ + e@),
    }
}

/// The fleet server: owns the fleet, the MCP server, and the state of its
/// connections and secure sessions.
pub struct FleetServer<T: UnitTransport, R: Recorder> {
    listening: bool,
    next_token: u64,
    conns: Vec<Conn>,
    fleet: Fleet<T, R>,
    mcp: McpServer,
    gated: bool,
    has_identity: bool,
    sessions: Vec<u64>,
    limits: ServerLimits,
}

impl<T: UnitTransport, R: Recorder> FleetServer<T, R> {
    pub closed spec fn wf(&self) -> bool {
        self.fleet.wf()
    }

    /// The fleet.
    pub closed spec fn fleet_view(&self) -> Fleet<T, R> {
        self.fleet
    }

    /// The connections, oldest first.
    pub closed spec fn connections(&self) -> Seq<Connection> {
        self.conns@.map_values(|c: Conn| connection(c))
    }

    /// The token that the next connection gets.
    pub closed spec fn coming_token(&self) -> Token {
        self.next_token
    }

    /// Whether a gate is installed.
    pub closed spec fn is_gated(&self) -> bool {
        self.gated
    }

    /// Whether the server has an identity to sign with.
    pub closed spec fn can_sign(&self) -> bool {
        self.has_identity
    }

    /// The units that a secure session stands for.
    pub closed spec fn secured(&self) -> Set<u64> {
        self.sessions@.to_set()
    }

    /// The admission limits.
    pub closed spec fn bounds(&self) -> ServerLimits {
        self.limits
    }

    /// Whether a listener is bound.
    pub closed spec fn is_listening(&self) -> bool {
        self.listening
    }

    /// All that stays the same while connections come and go.
    pub open spec fn same_service(&self, other: &Self) -> bool {
        &&& self.fleet_view() == other.fleet_view()
        &&& self.same_rules(other)
        &&& self.secured() == other.secured()
    }

    /// The same gate, identity, limits and listener.
    pub open spec fn same_rules(&self, other: &Self) -> bool {
        &&& self.is_gated() == other.is_gated()
        &&& self.can_sign() == other.can_sign()
        &&& self.bounds() == other.bounds()
        &&& self.is_listening() == other.is_listening()
    }

    /// The same connections.
    pub open spec fn same_connections(&self, other: &Self) -> bool {
        &&& self.connections() == other.connections()
        &&& self.coming_token() == other.coming_token()
    }

    /// Creates a server with no bound listener.
    pub fn new(transport: T) -> (r: FleetServer<T, R>)
        ensures
            r.wf(),
            r.fleet_view().units() == Seq::<UnitState<R>>::empty(),
            r.fleet_view().transport() == transport,
            forall|a: Mode, b: Mode| #[trigger]
                r.fleet_view().policy().edge(a, b) == default_edge(a, b),
            r.connections() == Seq::<Connection>::empty(),
            r.coming_token() == 1,
            !r.is_gated(),
            !r.can_sign(),
            r.secured() == Set::<u64>::empty(),
            r.bounds().max_conns == 1024,
            r.bounds().idle_timeout_ns == 30_000_000_000,
            !r.is_listening(),
    {
        let r: FleetServer<T, R> = FleetServer {
            listening: false,
            next_token: 1,
            conns: Vec::new(),
            fleet: Fleet::new(transport),
            mcp: McpServer::new(),
            gated: false,
            has_identity: false,
            sessions: Vec::new(),
            limits: ServerLimits::default(),
        };
        assert(r.connections() =~= Seq::<Connection>::empty());
        assert(r.secured() =~= Set::<u64>::empty());
        r
    }

    /// Notes that a listener is bound.
    pub fn bound(&mut self)
        requires
            old(self).wf(),
        ensures
            final(self).wf(),
            final(self).is_listening(),
            final(self).fleet_view() == old(self).fleet_view(),
            final(self).same_connections(&*old(self)),
            final(self).is_gated() == old(self).is_gated(),
            final(self).can_sign() == old(self).can_sign(),
            final(self).bounds() == old(self).bounds(),
            final(self).secured() == old(self).secured(),
    {
        self.listening = true;
    }

    /// Requires attestations, with the server's signing identity. With a gate
    /// installed, every privileged fleet/MCP action requires a verified
    /// attestation.
    pub fn with_security(&mut self)
        requires
            old(self).wf(),
        ensures
            final(self).wf(),
            final(self).is_gated(),
            final(self).can_sign(),
            final(self).fleet_view() == old(self).fleet_view(),
            final(self).same_connections(&*old(self)),
            final(self).bounds() == old(self).bounds(),
            final(self).is_listening() == old(self).is_listening(),
            final(self).secured() == old(self).secured(),
    {
        self.gated = true;
        self.has_identity = true;
    }

    /// Overrides the server admission limits (connection cap / idle timeout).
    pub fn with_limits(&mut self, limits: ServerLimits)
        requires
            old(self).wf(),
        ensures
            final(self).wf(),
            final(self).bounds() == limits,
            final(self).fleet_view() == old(self).fleet_view(),
            final(self).same_connections(&*old(self)),
            final(self).is_gated() == old(self).is_gated(),
            final(self).can_sign() == old(self).can_sign(),
            final(self).is_listening() == old(self).is_listening(),
            final(self).secured() == old(self).secured(),
    {
        self.limits = limits;
    }

    /// Immutable fleet view.
    pub fn fleet(&self) -> (r: &Fleet<T, R>)
        ensures
            *r == self.fleet_view(),
            self.wf() ==> r.wf(),
    {
        &self.fleet
    }

    /// Mutable fleet view.
    pub fn fleet_mut(&mut self) -> (r: &mut Fleet<T, R>)
        requires
            old(self).wf(),
        ensures
            r.wf(),
            *r == old(self).fleet_view(),
            final(self).fleet_view() == *final(r),
            final(r).wf() ==> final(self).wf(),
            final(self).same_rules(&*old(self)),
            final(self).same_connections(&*old(self)),
            final(self).secured() == old(self).secured(),
    {
        &mut self.fleet
    }

    /// Explicitly registers a unit with the given recorder.
    pub fn register_unit(&mut self, id: u64, addr: String, recorder: R, now_ns: u64) -> (r: Result<
        (),
        CloudError,
    >)
        requires
            old(self).wf(),
        ensures
            final(self).wf(),
            final(self).same_rules(&*old(self)),
            final(self).same_connections(&*old(self)),
            final(self).secured() == old(self).secured(),
            ({
                let before = old(self).fleet_view();
                let after = final(self).fleet_view();
                match unit_at(before.units(), id) {
                    Some(_) => {
                        &&& after.same(&before)
                        &&& result_of(r) == Err::<(), CloudErrorView>(
                            CloudErrorView::AlreadyExists(id),
                        )
                    },
                    None => {
                        &&& r is Ok
                        &&& after.same_setup(&before)
                        &&& after.transport() == before.transport()
                        &&& after.units().len() == before.units().len() + 1
                        &&& after.units().drop_last() == before.units()
                        &&& is_fresh(after.units().last(), id, addr, recorder, now_ns)
                    },
                }
            }),
    {
        self.fleet.register_unit(id, addr, recorder, now_ns)
    }

    /// Handles one parsed HTTP request without touching the network. `verdict`
    /// says what verifying the request's attestation showed.
    pub fn handle_request(&mut self, req: &Request, verdict: &Verdict, now_ns: u64) -> (action:
        Action)
        requires
            old(self).wf(),
        ensures
            final(self).wf(),
            final(self).same_rules(&*old(self)),
            final(self).same_connections(&*old(self)),
            final(self).secured() == old(self).secured(),
            answers(
                old(self).fleet_view(),
                final(self).fleet_view(),
                old(self).is_gated(),
                old(self).can_sign(),
                *verdict,
                req@,
                now_ns,
                action@,
            ),
    {
        dispatch(
            &mut self.fleet,
            &self.mcp,
            self.gated,
            self.has_identity,
            verdict,
            req,
            now_ns,
        )
    }

    /// Answers a handshake for `unit` that the caller carried out. An
    /// established session is noted for the unit.
    pub fn finish_handshake(&mut self, unit: u64, result: HandshakeResult) -> (r: Response)
        requires
            old(self).wf(),
        ensures
            final(self).wf(),
            final(self).fleet_view() == old(self).fleet_view(),
            final(self).same_rules(&*old(self)),
            final(self).same_connections(&*old(self)),
            final(self).secured() == (if result is Established {
                old(self).secured().insert(unit)
            } else {
                old(self).secured()
            }),
            r@ == handshake_answer(result),
    {
        match result {
            HandshakeResult::BadAttestation => Response::error(
                400,
                "missing attestation or suites",
            ),
            HandshakeResult::Established { attestation, suite } => {
                if !self.session(unit) {
                    self.sessions.push(unit);
                    proof {
                        let before = old(self).sessions@;
                        assert forall|x: u64| #[trigger]
                            self.secured().contains(x) <==> old(self).secured().insert(
                                unit,
                            ).contains(x) by {
                            if old(self).secured().contains(x) {
                                let k = choose|k: int| 0 <= k < before.len() && before[k] == x;
                                assert(self.sessions@[k] == x);
                            }
                            if x == unit {
                                assert(self.sessions@[before.len() as int] == unit);
                            }
                        }
                    }
                }
                assert(self.secured() =~= old(self).secured().insert(unit));
                Response::json(200, handshake_resp_to_json(attestation.as_slice(), suite))
            },
            HandshakeResult::Rejected(e) => {
                let mut msg: String = "handshake rejected: ".to_owned();
                msg.append(e.as_str());
                Response::error(403, msg.as_str())
            },
        }
    }

    /// Whether a secure session was established for a unit.
    pub fn session(&self, id: u64) -> (r: bool)
        ensures
            r == self.secured().contains(id),
    {
        let mut i: usize = 0;
        while i < self.sessions.len()
            invariant
                i <= self.sessions@.len(),
                forall|j: int| 0 <= j < i ==> self.sessions@[j] != id,
            decreases self.sessions@.len() - i,
        {
            if self.sessions[i] == id {
                assert(self.sessions@.contains(id));
                return true;
            }
            i = i + 1;
        }
        false
    }

    /// Takes in a connection that was just accepted and returns its token, or
    /// `None` where the limit is reached: the connection is to be closed and no
    /// more are to be accepted for now.
    pub fn accept_conn(&mut self, now_ns: u64) -> (r: Option<Token>)
        requires
            old(self).wf(),
        ensures
            final(self).wf(),
            final(self).same_service(&*old(self)),
            match r {
                Some(token) => {
                    &&& old(self).bounds().max_conns == 0 || old(self).connections().len() < old(
                        self,
                    ).bounds().max_conns
                    &&& token == old(self).coming_token()
                    &&& final(self).coming_token() == (if token == u64::MAX {
                        0
                    } else {
                        (token + 1) as u64
                    })
                    &&& final(self).connections() == others(old(self).connections(), token).push(
                        Connection {
                            token,
                            buffered: Seq::empty(),
                            registered: false,
                            last_active_ns: now_ns,
                        },
                    )
                },
                None => {
                    &&& old(self).bounds().max_conns > 0
                    &&& old(self).connections().len() >= old(self).bounds().max_conns
                    &&& final(self).same_connections(&*old(self))
                },
            },
    {
        assert(self.connections().len() == self.conns@.len());
        if self.limits.max_conns > 0 && self.conns.len() >= self.limits.max_conns {
            return None;
        }
        let token: Token = self.next_token;
        self.next_token = token.wrapping_add(1);
        self.forget(token);
        let ghost before = self.connections();
        self.conns.push(
            Conn { token, read_buf: Vec::new(), registered: false, last_active_ns: now_ns },
        );
        assert(self.connections() =~= before.push(
            Connection {
                token,
                buffered: Seq::empty(),
                registered: false,
                last_active_ns: now_ns,
            },
        ));
        Some(token)
    }

    /// Drops every connection with the token.
    fn forget(&mut self, token: Token)
        requires
            old(self).wf(),
        ensures
            final(self).wf(),
            final(self).same_service(&*old(self)),
            final(self).coming_token() == old(self).coming_token(),
            final(self).connections() == others(old(self).connections(), token),
    {
        let ghost all = self.connections();
        let ghost mut k: int = 0;
        let mut i: usize = 0;
        proof {
            assert(all.take(0) =~= Seq::<Connection>::empty());
            assert(self.connections().take(0) =~= Seq::<Connection>::empty());
            assert(self.connections().skip(0) =~= all.skip(0));
        }
        while i < self.conns.len()
            invariant
                self.wf(),
                self.same_service(&*old(self)),
                self.coming_token() == old(self).coming_token(),
                0 <= k <= all.len(),
                i <= self.connections().len(),
                self.connections().len() == self.conns@.len(),
                self.connections().take(i as int) == others(all.take(k), token),
                self.connections().skip(i as int) == all.skip(k),
            decreases self.conns@.len() - i,
        {
            let ghost before = self.connections();
            proof {
                lemma_walk(before, all, i as int, k);
            }
            if self.conns[i].token == token {
                let gone: Conn = self.conns.remove(i);
                assert(self.connections() =~= before.remove(i as int));
                assert(self.connections().take(i as int) =~= before.take(i as int));
                assert(self.connections().skip(i as int) =~= before.skip(i + 1));
            } else {
                assert(before.take(i + 1) =~= before.take(i as int).push(before[i as int]));
                i = i + 1;
            }
            proof {
                k = k + 1;
            }
        }
        proof {
            assert(all.skip(k).len() == 0);
            assert(all.take(k) =~= all);
            assert(self.connections().take(i as int) =~= self.connections());
        }
    }

    fn find(&self, token: Token) -> (r: Option<usize>)
        ensures
            match r {
                Some(i) => conn_at(self.connections(), token) == Some(i as int) && i
                    < self.connections().len(),
                None => conn_at(self.connections(), token) is None,
            },
    {
        let mut i: usize = self.conns.len();
        proof {
            assert(self.connections().take(i as int) =~= self.connections());
        }
        while i > 0
            invariant
                i <= self.conns@.len(),
                self.connections().len() == self.conns@.len(),
                conn_at(self.connections(), token) == conn_at(
                    self.connections().take(i as int),
                    token,
                ),
            decreases i,
        {
            proof {
                assert(self.connections().take(i as int).drop_last() =~= self.connections().take(
                    i - 1,
                ));
            }
            i = i - 1;
            if self.conns[i].token == token {
                return Some(i);
            }
        }
        None
    }

    /// Takes in what was read on a connection, which has `ended` where the peer
    /// closed it or reading failed, and says what is to be done. A connection
    /// whose request is to be answered, or that is to be closed, is forgotten.
    pub fn service_conn(&mut self, token: Token, data: &[u8], ended: bool, now_ns: u64) -> (r:
        Service)
        requires
            old(self).wf(),
        ensures
            final(self).wf(),
            final(self).same_service(&*old(self)),
            final(self).coming_token() == old(self).coming_token(),
            final(self).connections() == served(
                old(self).connections(),
                token,
                data@,
                ended,
                now_ns,
            ),
            r@ == (match conn_at(old(self).connections(), token) {
                Some(i) => verdict_on(old(self).connections()[i].buffered + data@, ended),
                None => ServiceView::Unknown,
            }),
    {
        let i: usize = match self.find(token) {
            Some(i) => i,
            None => {
                return Service::Unknown;
            },
        };
        let ghost c = self.connections()[i as int];
        push_slice(&mut self.conns[i].read_buf, data);
        if data.len() > 0 {
            self.conns[i].last_active_ns = now_ns;
        }
        let ghost next = Connection {
            buffered: c.buffered + data@,
            last_active_ns: if data@.len() > 0 {
                now_ns
            } else {
                c.last_active_ns
            },
            ..c
        };
        assert(self.connections() =~= old(self).connections().update(i as int, next));
        let ghost kept = self.connections();
        let answer: Service = if ended || self.conns[i].read_buf.len() > MAX_BUFFERED {
            Service::Close
        } else {
            match Request::parse(self.conns[i].read_buf.as_slice()) {
                Ok(Some((req, _))) => Service::Serve(req),
                Ok(None) => Service::Wait,
                Err(_) => Service::Close,
            }
        };
        assert(answer@ == verdict_on(next.buffered, ended));
        if !matches!(answer, Service::Wait) {
            let gone: Conn = self.conns.remove(i);
            assert(self.connections() =~= old(self).connections().remove(i as int));
        }
        answer
    }

    /// Reclaims idle client connections (no activity for longer than the idle
    /// timeout) and returns their tokens. Call periodically from the event loop.
    pub fn sweep_idle(&mut self, now_ns: u64) -> (r: Vec<Token>)
        requires
            old(self).wf(),
        ensures
            final(self).wf(),
            final(self).same_service(&*old(self)),
            final(self).coming_token() == old(self).coming_token(),
            final(self).connections() == awake(
                old(self).connections(),
                now_ns,
                old(self).bounds().idle_timeout_ns,
            ),
            r@ == idle_tokens(
                old(self).connections(),
                now_ns,
                old(self).bounds().idle_timeout_ns,
            ),
    {
        let timeout: u64 = self.limits.idle_timeout_ns;
        let ghost all = self.connections();
        let ghost mut k: int = 0;
        let mut i: usize = 0;
        let mut gone: Vec<Token> = Vec::new();
        proof {
            assert(all.take(0) =~= Seq::<Connection>::empty());
            assert(self.connections().take(0) =~= Seq::<Connection>::empty());
            assert(self.connections().skip(0) =~= all.skip(0));
        }
        while i < self.conns.len()
            invariant
                self.wf(),
                self.same_service(&*old(self)),
                self.coming_token() == old(self).coming_token(),
                timeout == old(self).bounds().idle_timeout_ns,
                0 <= k <= all.len(),
                i <= self.connections().len(),
                self.connections().len() == self.conns@.len(),
                self.connections().take(i as int) == awake(all.take(k), now_ns, timeout),
                self.connections().skip(i as int) == all.skip(k),
                gone@ == idle_tokens(all.take(k), now_ns, timeout),
            decreases self.conns@.len() - i,
        {
            let ghost before = self.connections();
            proof {
                lemma_walk(before, all, i as int, k);
            }
            let last: u64 = self.conns[i].last_active_ns;
            if now_ns > last && now_ns - last > timeout {
                let conn: Conn = self.conns.remove(i);
                gone.push(conn.token);
                assert(self.connections() =~= before.remove(i as int));
                assert(self.connections().take(i as int) =~= before.take(i as int));
                assert(self.connections().skip(i as int) =~= before.skip(i + 1));
            } else {
                assert(before.take(i + 1) =~= before.take(i as int).push(before[i as int]));
                i = i + 1;
            }
            proof {
                k = k + 1;
            }
        }
        proof {
            assert(all.skip(k).len() == 0);
            assert(all.take(k) =~= all);
            assert(self.connections().take(i as int) =~= self.connections());
        }
        gone
    }

    /// The connections that are to be registered with the event loop: those it
    /// does not watch yet, where a listener is bound.
    pub fn register_pending(&self) -> (r: Vec<Token>)
        ensures
            r@ == (if self.is_listening() {
                unwatched(self.connections())
            } else {
                Seq::empty()
            }),
    {
        let mut out: Vec<Token> = Vec::new();
        if !self.listening {
            assert(out@ =~= Seq::<Token>::empty());
            return out;
        }
        let mut i: usize = 0;
        proof {
            assert(self.connections().take(0) =~= Seq::<Connection>::empty());
        }
        while i < self.conns.len()
            invariant
                i <= self.conns@.len(),
                self.connections().len() == self.conns@.len(),
                out@ == unwatched(self.connections().take(i as int)),
            decreases self.conns@.len() - i,
        {
            proof {
                assert(self.connections().take(i + 1).drop_last() =~= self.connections().take(
                    i as int,
                ));
            }
            if !self.conns[i].registered {
                out.push(self.conns[i].token);
            }
            i = i + 1;
        }
        proof {
            assert(self.connections().take(i as int) =~= self.connections());
        }
        out
    }

    /// Notes that the event loop watches a connection.
    pub fn mark_registered(&mut self, token: Token)
        requires
            old(self).wf(),
        ensures
            final(self).wf(),
            final(self).same_service(&*old(self)),
            final(self).coming_token() == old(self).coming_token(),
            final(self).connections() == (match conn_at(old(self).connections(), token) {
                Some(i) => old(self).connections().update(
                    i,
                    Connection { registered: true, ..old(self).connections()[i] },
                ),
                None => old(self).connections(),
            }),
    {
        if let Some(i) = self.find(token) {
            self.conns[i].registered = true;
            assert(self.connections() =~= old(self).connections().update(
                i as int,
                Connection { registered: true, ..old(self).connections()[i as int] },
            ));
        }
    }

    /// The tokens of all connections.
    pub fn tokens(&self) -> (r: Vec<Token>)
        ensures
            r@ == self.connections().map_values(|c: Connection| c.token),
    {
        let mut out: Vec<Token> = Vec::new();
        let mut i: usize = 0;
        while i < self.conns.len()
            invariant
                i <= self.conns@.len(),
                out@.len() == i,
                forall|j: int| 0 <= j < i ==> out@[j] == self.conns@[j].token,
            decreases self.conns@.len() - i,
        {
            out.push(self.conns[i].token);
            i = i + 1;
        }
        assert(out@ =~= self.connections().map_values(|c: Connection| c.token));
        out
    }
}

proof fn lemma_walk(before: Seq<Connection>, all: Seq<Connection>, i: int, k: int)
    requires
        0 <= i < before.len(),
        0 <= k <= all.len(),
        before.skip(i) == all.skip(k),
    ensures
        k < all.len(),
        before[i] == all[k],
        all.take(k + 1).drop_last() == all.take(k),
        all.take(k + 1).last() == all[k],
        before.skip(i + 1) == all.skip(k + 1),
{
    assert(before.skip(i).len() == before.len() - i);
    assert(all.skip(k).len() == all.len() - k);
    assert(before[i] == before.skip(i)[0]);
    assert(all.skip(k)[0] == all[k]);
    assert(all.take(k + 1).drop_last() =~= all.take(k));
    assert(before.skip(i).drop_first() =~= before.skip(i + 1));
    assert(all.skip(k).drop_first() =~= all.skip(k + 1));
}

/// What readiness events ask of the server.
#[derive(Debug)]
pub struct PendingWork {
    /// Connections wait to be accepted.
    pub accept: bool,
    /// Connections to read, in the order of their events.
    pub service: Vec<Token>,
}

impl PendingWork {
    /// Nothing to do.
    pub fn new() -> (r: PendingWork)
        ensures
            !r.accept,
            r.service@ == Seq::<Token>::empty(),
    {
        PendingWork { accept: false, service: Vec::new() }
    }
}

impl EventHandler for PendingWork {
    /// A readable listener has connections to accept, any other readable token is
    /// a connection to read. Nothing else matters.
    open spec fn handles(
        before: PendingWork,
        after: PendingWork,
        token: Token,
        ready: Ready,
    ) -> bool {
        if !ready.meets(Ready::read()) {
            after.accept == before.accept && after.service@ == before.service@
        } else if token == LISTENER_TOKEN {
            after.accept && after.service@ == before.service@
        } else {
            after.accept == before.accept && after.service@ == before.service@.push(token)
        }
    }

    fn ready(&mut self, token: Token, ready: Ready) {
        if ready.intersects(Ready::read()) {
            if token == LISTENER_TOKEN {
                self.accept = true;
            } else {
                self.service.push(token);
            }
        }
    }
}

// --- Laws ----------------------------------------------------------------------------

/// The connection cap holds: taking connections in never leads past it.
pub proof fn law_connection_cap_holds(conns: Seq<Connection>, token: Token, c: Connection, max: nat)
    requires
        conns.len() < max,
    ensures
        others(conns, token).push(c).len() <= max,
{
    lemma_others(conns, token);
}

proof fn lemma_others(conns: Seq<Connection>, token: Token)
    ensures
        others(conns, token).len() <= conns.len(),
    decreases conns.len(),
{
    if conns.len() > 0 {
        lemma_others(conns.drop_last(), token);
    }
}

/// After a sweep exactly the connections that are not idle are left, and every
/// token that was swept belonged to one that was idle.
pub proof fn law_sweep_takes_the_idle(conns: Seq<Connection>, now_ns: u64, timeout_ns: u64, c: Connection)
    ensures
        awake(conns, now_ns, timeout_ns).contains(c) <==> conns.contains(c) && !is_idle(
            c,
            now_ns,
            timeout_ns,
        ),
        awake(conns, now_ns, timeout_ns).len() + idle_tokens(conns, now_ns, timeout_ns).len()
            == conns.len(),
    decreases conns.len(),
{
    if conns.len() > 0 {
        let front = conns.drop_last();
        let kept = awake(front, now_ns, timeout_ns);
        let next = awake(conns, now_ns, timeout_ns);
        law_sweep_takes_the_idle(front, now_ns, timeout_ns, c);
        if kept.contains(c) {
            let k = choose|k: int| 0 <= k < kept.len() && kept[k] == c;
            assert(next[k] == c);
        }
        if front.contains(c) {
            let k = choose|k: int| 0 <= k < front.len() && front[k] == c;
            assert(conns[k] == c);
        }
        if conns.contains(c) && c != conns.last() {
            let k = choose|k: int| 0 <= k < conns.len() && conns[k] == c;
            assert(front[k] == c);
        }
        if c == conns.last() {
            assert(conns[conns.len() - 1] == c);
            if !is_idle(c, now_ns, timeout_ns) {
                assert(next[next.len() - 1] == c);
            }
        }
        if next.contains(c) && !is_idle(conns.last(), now_ns, timeout_ns) && c != conns.last() {
            let k = choose|k: int| 0 <= k < next.len() && next[k] == c;
            assert(kept[k] == c);
        }
    }
}

/// Bytes that come in pieces are served like bytes that come at once: while a
/// request is not complete nothing of it is lost.
pub proof fn law_pieces_add_up(
    conns: Seq<Connection>,
    token: Token,
    first: Seq<u8>,
    second: Seq<u8>,
    now_ns: u64,
)
    requires
        conn_at(conns, token) matches Some(i) && verdict_on(conns[i].buffered + first, false)
            is Wait,
        second.len() > 0,
    ensures
        served(served(conns, token, first, false, now_ns), token, second, false, now_ns) == served(
            conns,
            token,
            first + second,
            false,
            now_ns,
        ),
{
    let i = conn_at(conns, token)->0;
    lemma_conn_at(conns, token);
    let mid = served(conns, token, first, false, now_ns);
    lemma_conn_at_update(conns, token, mid[i]);
    assert(conns[i].buffered + first + second =~= conns[i].buffered + (first + second));
    let once = Connection {
        buffered: conns[i].buffered + (first + second),
        last_active_ns: now_ns,
        ..conns[i]
    };
    assert(mid.update(i, once) =~= conns.update(i, once));
    assert(mid.remove(i) =~= conns.remove(i));
}

proof fn lemma_conn_at(conns: Seq<Connection>, token: Token)
    ensures
        conn_at(conns, token) matches Some(i) ==> 0 <= i < conns.len() && conns[i].token == token,
    decreases conns.len(),
{
    if conns.len() > 0 && conns.last().token != token {
        lemma_conn_at(conns.drop_last(), token);
    }
}

proof fn lemma_conn_at_update(conns: Seq<Connection>, token: Token, c: Connection)
    requires
        conn_at(conns, token) is Some,
        c.token == token,
    ensures
        conn_at(conns.update(conn_at(conns, token)->0, c), token) == conn_at(conns, token),
    decreases conns.len(),
{
    let i = conn_at(conns, token)->0;
    lemma_conn_at(conns, token);
    let next = conns.update(i, c);
    if i == conns.len() - 1 {
        assert(next.last() == c);
    } else {
        assert(conns.last().token != token);
        lemma_conn_at_update(conns.drop_last(), token, c);
        assert(next.drop_last() =~= conns.drop_last().update(i, c));
    }
}

} // verus!

//! Multi-unit fleet orchestration.
//!
//! One [`UnitState`] is kept per connected unit. Each session owns its media
//! fan-out, its recorder, and the cloud's view of the unit's autonomy mode.
//! Commands to units go through a [`UnitTransport`].
//!
//! Addresses are held as text. The time comes from the caller.
use vstd::prelude::*;
use crate::cloud::error::{transport_err, transport_failure, CloudError, CloudErrorView};
use crate::cloud::json::{uint_value, Json, Value};
use crate::cloud::recorder::{Frame, Recorder};
use crate::cloud::sfu::{
    carries, live_count, place_of, published, released, waits, without, MediaFrame, SfuFanout,
    Subscriber,
};
use crate::runtime::mode::{default_edge, mode_name, mode_number, Mode, TransitionTable};
use crate::runtime::ring::rounded;
use crate::runtime::wire::{ControlCommand, FRAME_MAGIC, PROTOCOL_VERSION};
use crate::text::{chars_of, decimal, is_text, lower_ascii, lowered, push_decimal, text_opt, Text};

verus! {

/// What an outcome says, failures by their text.
pub open spec fn outcome(r: Result<(), String>) -> Result<(), Seq<char>> {
    match r {
        Ok(_) => Ok(()),
        Err(e) => Err(e@),
    }
}

/// What a result of the fleet says.
pub open spec fn result_of<T>(r: Result<T, CloudError>) -> Result<T, CloudErrorView> {
    match r {
        Ok(v) => Ok(v),
        Err(e) => Err(e@),
    }
}

// --- Transports --------------------------------------------------------------

/// Sink for commands the cloud sends down to a unit.
pub trait UnitTransport: Sized {
    /// Sending `cmd` to `addr` can lead from `before` to `after` with the
    /// outcome `r`.
    spec fn sends(
        before: Self,
        after: Self,
        addr: Text,
        cmd: ControlCommand,
        r: Result<(), Text>,
    ) -> bool;

    /// Sends `cmd` to `addr`. Failures are surfaced to the caller so policy
    /// (e.g. a dead peer) can be applied.
    fn send_command(&mut self, addr: &str, cmd: &ControlCommand) -> (r: Result<(), String>)
        ensures
            Self::sends(*old(self), *final(self), addr@, *cmd, outcome(r)),
    ;
}

/// A transport that drops every command (standalone tests / dry runs).
#[derive(Debug, Clone)]
pub struct NullTransport;

impl Default for NullTransport {
    fn default() -> (r: NullTransport)
        ensures
            r == NullTransport,
    {
        NullTransport
    }
}

impl UnitTransport for NullTransport {
    open spec fn sends(
        before: NullTransport,
        after: NullTransport,
        addr: Seq<char>,
        cmd: ControlCommand,
        r: Result<(), Seq<char>>,
    ) -> bool {
        r is Ok
    }

    fn send_command(&mut self, addr: &str, cmd: &ControlCommand) -> (r: Result<(), String>) {
        Ok(())
    }
}

/// A transport that records every command it is asked to send.
#[derive(Debug)]
pub struct CapturingTransport {
    /// Captured `(destination, command)` pairs in send order.
    pub sent: Vec<(String, ControlCommand)>,
}

impl View for CapturingTransport {
    type V = Seq<(Seq<char>, ControlCommand)>;

    open spec fn view(&self) -> Seq<(Seq<char>, ControlCommand)> {
        self.sent@.map_values(|p: (String, ControlCommand)| (p.0@, p.1))
    }
}

impl CapturingTransport {
    /// An empty capturing transport.
    pub fn new() -> (r: CapturingTransport)
        ensures
            r@ == Seq::<(Seq<char>, ControlCommand)>::empty(),
    {
        let r: CapturingTransport = CapturingTransport { sent: Vec::new() };
        assert(r@ =~= Seq::<(Seq<char>, ControlCommand)>::empty());
        r
    }
}

impl Default for CapturingTransport {
    fn default() -> (r: CapturingTransport)
        ensures
            r@ == Seq::<(Seq<char>, ControlCommand)>::empty(),
    {
        CapturingTransport::new()
    }
}

impl UnitTransport for CapturingTransport {
    open spec fn sends(
        before: CapturingTransport,
        after: CapturingTransport,
        addr: Seq<char>,
        cmd: ControlCommand,
        r: Result<(), Seq<char>>,
    ) -> bool {
        r is Ok && after@ == before@.push((addr, cmd))
    }

    fn send_command(&mut self, addr: &str, cmd: &ControlCommand) -> (r: Result<(), String>) {
        self.sent.push((addr.to_owned(), *cmd));
        assert(self@ =~= old(self)@.push((addr@, *cmd)));
        Ok(())
    }
}

// --- Commands ------------------------------------------------------------------

/// `c` commands `mode` with all axes at rest.
pub open spec fn is_command(c: ControlCommand, mode: Mode, seq: u64, now_ns: u64) -> bool {
    &&& c.magic == FRAME_MAGIC
    &&& c.version == PROTOCOL_VERSION
    &&& c.mode == mode_number(mode)
    &&& c.flags == 0
    &&& c.seq == seq
    &&& c.timestamp_ns == now_ns
    &&& c.axes@ == seq![0u32, 0u32, 0u32, 0u32, 0u32, 0u32]
}

/// Builds a control command for `mode` with the given sequence.
pub fn make_command(mode: Mode, seq: u64, now_ns: u64) -> (c: ControlCommand)
    ensures
        is_command(c, mode, seq, now_ns),
{
    let mut c: ControlCommand = ControlCommand::zeroed(mode);
    c.seq = seq;
    c.timestamp_ns = now_ns;
    c
}

/// The mode that a name stands for, letter case aside.
pub open spec fn mode_named(name: Seq<char>) -> Option<Mode> {
    let n = lower_ascii(name);
    if n == "auto"@ {
        Some(Mode::Auto)
    } else if n == "assist"@ {
        Some(Mode::Assist)
    } else if n == "teleop"@ || n == "fullteleop"@ || n == "full_teleop"@ {
        Some(Mode::FullTeleop)
    } else if n == "estop"@ || n == "emergency"@ || n == "emergencystop"@ {
        Some(Mode::EmergencyStop)
    } else {
        None
    }
}

/// Parses a mode name as used by the dashboard/MCP (`auto`, `assist`,
/// `teleop`/`fullteleop`, `estop`).
pub fn parse_mode(name: &str) -> (r: Option<Mode>)
    ensures
        r == mode_named(name@),
{
    let chars: Vec<char> = chars_of(name);
    let low: Vec<char> = lowered(chars.as_slice());
    let n: &[char] = low.as_slice();
    if is_text(n, "auto") {
        Some(Mode::Auto)
    } else if is_text(n, "assist") {
        Some(Mode::Assist)
    } else if is_text(n, "teleop") || is_text(n, "fullteleop") || is_text(n, "full_teleop") {
        Some(Mode::FullTeleop)
    } else if is_text(n, "estop") || is_text(n, "emergency") || is_text(n, "emergencystop") {
        Some(Mode::EmergencyStop)
    } else {
        None
    }
}

/// The modes to go through from `from` to `to`: directly where the table has
/// the edge, else by way of Assist.
pub open spec fn staged_path(table: TransitionTable, from: Mode, to: Mode) -> Option<Seq<Mode>> {
    if from == to {
        Some(Seq::empty())
    } else if table.edge(from, to) {
        Some(seq![to])
    } else if from != Mode::Assist && to != Mode::Assist && table.edge(from, Mode::Assist)
        && table.edge(Mode::Assist, to) {
        Some(seq![Mode::Assist, to])
    } else {
        None
    }
}

/// Every step of a staged path is an edge of the table, and the last one leads
/// to the target.
pub proof fn law_staged_paths_are_legal(table: TransitionTable, from: Mode, to: Mode)
    ensures
        staged_path(table, from, to) matches Some(p) ==> {
            &&& p.len() == 0 <==> from == to
            &&& p.len() > 0 ==> table.edge(from, p[0]) && p.last() == to
            &&& forall|i: int|
                0 < i < p.len() ==> table.edge(#[trigger] p[i - 1], p[i])
        },
{
}

/// Under the default policy every mode can be reached from every other, an
/// emergency stop in a single step.
pub proof fn law_default_policy_reaches_all(table: TransitionTable, from: Mode, to: Mode)
    requires
        forall|a: Mode, b: Mode| #[trigger] table.edge(a, b) == default_edge(a, b),
    ensures
        staged_path(table, from, to) is Some,
        from != Mode::EmergencyStop ==> staged_path(table, from, Mode::EmergencyStop) == Some(
            seq![Mode::EmergencyStop],
        ),
        (from == Mode::Auto && to == Mode::FullTeleop) || (from == Mode::FullTeleop && to
            == Mode::Auto) || (from == Mode::EmergencyStop && (to == Mode::Auto || to
            == Mode::FullTeleop)) ==> staged_path(table, from, to) == Some(seq![Mode::Assist, to]),
{
}

/// The sequence number after `n`.
pub open spec fn seq_after(n: u64) -> u64 {
    if n == u64::MAX {
        0
    } else {
        (n + 1) as u64
    }
}

/// Commanding a unit along `path`, one command per step, can lead from the
/// transport `t0` to `t1`, from the mode and sequence number `m0`, `n0` to `m1`,
/// `n1`, with the outcome `r`. A command that fails ends it, and its step is
/// not taken.
pub open spec fn drives<T: UnitTransport>(
    t0: T,
    t1: T,
    addr: Seq<char>,
    path: Seq<Mode>,
    m0: Mode,
    n0: u64,
    now_ns: u64,
    m1: Mode,
    n1: u64,
    r: Result<(), Seq<char>>,
) -> bool
    decreases path.len(),
{
    if path.len() == 0 {
        t1 == t0 && m1 == m0 && n1 == n0 && r is Ok
    } else {
        exists|t: T, cmd: ControlCommand, s: Result<(), Seq<char>>| #[trigger]
            T::sends(t0, t, addr, cmd, s) && is_command(cmd, path[0], n0, now_ns) && match s {
                Ok(_) => drives(
                    t,
                    t1,
                    addr,
                    path.drop_first(),
                    path[0],
                    seq_after(n0),
                    now_ns,
                    m1,
                    n1,
                    r,
                ),
                Err(e) => t1 == t && m1 == m0 && n1 == n0 && r == Err::<(), Seq<char>>(e),
            }
    }
}

fn drive<T: UnitTransport>(
    t: &mut T,
    addr: &str,
    path: &[Mode],
    from: usize,
    mode: Mode,
    seq: u64,
    now_ns: u64,
) -> (r: (Mode, u64, Result<(), String>))
    requires
        from <= path@.len(),
    ensures
        drives(
            *old(t),
            *final(t),
            addr@,
            path@.skip(from as int),
            mode,
            seq,
            now_ns,
            r.0,
            r.1,
            outcome(r.2),
        ),
    decreases path@.len() - from,
{
    if from == path.len() {
        return (mode, seq, Ok(()));
    }
    let ghost rest = path@.skip(from as int);
    let next: Mode = path[from];
    let cmd: ControlCommand = make_command(next, seq, now_ns);
    let sent: Result<(), String> = t.send_command(addr, &cmd);
    assert(T::sends(*old(t), *t, addr@, cmd, outcome(sent)));
    assert(rest[0] == next);
    match sent {
        Ok(_) => {
            assert(rest.drop_first() =~= path@.skip(from + 1));
            drive(t, addr, path, from + 1, next, seq.wrapping_add(1), now_ns)
        },
        Err(e) => (mode, seq, Err(e)),
    }
}

/// A unit that was commanded along a path ends in its last mode, one sequence
/// number further per step; where a command failed it stays in a mode that it
/// was in or was commanded into before.
pub proof fn law_commands_move_along_the_path<T: UnitTransport>(
    t0: T,
    t1: T,
    addr: Seq<char>,
    path: Seq<Mode>,
    m0: Mode,
    n0: u64,
    now_ns: u64,
    m1: Mode,
    n1: u64,
    r: Result<(), Seq<char>>,
)
    requires
        drives(t0, t1, addr, path, m0, n0, now_ns, m1, n1, r),
    ensures
        r is Ok ==> m1 == (if path.len() == 0 {
            m0
        } else {
            path.last()
        }),
        r is Ok ==> n1 == (n0 + path.len()) % 0x1_0000_0000_0000_0000,
        r is Err ==> m1 == m0 || path.drop_last().contains(m1),
        m1 == m0 || path.contains(m1),
    decreases path.len(),
{
    if path.len() > 0 {
        let (t, cmd, s) = choose|t: T, cmd: ControlCommand, s: Result<(), Seq<char>>| #[trigger]
            T::sends(t0, t, addr, cmd, s) && is_command(cmd, path[0], n0, now_ns) && match s {
                Ok(_) => drives(
                    t,
                    t1,
                    addr,
                    path.drop_first(),
                    path[0],
                    seq_after(n0),
                    now_ns,
                    m1,
                    n1,
                    r,
                ),
                Err(e) => t1 == t && m1 == m0 && n1 == n0 && r == Err::<(), Seq<char>>(e),
            };
        if s is Ok {
            let rest = path.drop_first();
            law_commands_move_along_the_path(
                t,
                t1,
                addr,
                rest,
                path[0],
                seq_after(n0),
                now_ns,
                m1,
                n1,
                r,
            );
            assert(path.contains(path[0]));
            if rest.contains(m1) {
                let k = choose|k: int| 0 <= k < rest.len() && rest[k] == m1;
                assert(path[k + 1] == m1);
            }
            if r is Err {
                let front = path.drop_last();
                if rest.len() == 0 {
                } else {
                    assert(front[0] == path[0]);
                    if rest.drop_last().contains(m1) {
                        let k = choose|k: int|
                            0 <= k < rest.drop_last().len() && rest.drop_last()[k] == m1;
                        assert(front[k + 1] == m1);
                    }
                }
            }
        }
    }
}

// --- Units ---------------------------------------------------------------------

/// Live per-unit session state held by the fleet.
pub struct UnitState<R: Recorder> {
    /// Stable unit identity.
    pub id: u64,
    /// Last known wire address.
    pub addr: String,
    /// Cloud-side view of the unit's autonomy mode.
    pub mode: Mode,
    /// Operator currently assigned (if any).
    pub assigned_operator: Option<String>,
    /// Last ingested frame sequence.
    pub last_seq: u64,
    /// Per-unit monotonic command sequence number.
    pub cmd_seq: u64,
    /// Session creation timestamp (UNIX ns).
    pub created_ns: u64,
    /// Last inbound frame timestamp (UNIX ns).
    pub last_seen_ns: u64,
    /// Media/telemetry fan-out to subscribers.
    pub sfu: SfuFanout,
    /// Raw-frame session recorder.
    pub recorder: R,
}

/// Serializable unit snapshot.
#[derive(Debug, Clone, PartialEq)]
pub struct UnitInfo {
    /// Unit id.
    pub id: u64,
    /// Address string.
    pub addr: String,
    /// Mode name (`AUTO`/`ASSIST`/`TELEOP`/`ESTOP`).
    pub mode: String,
    /// Assigned operator (if any).
    pub assigned_operator: Option<String>,
    /// Last ingested sequence.
    pub last_seq: u64,
    /// Frames recorded this session.
    pub frames_recorded: u64,
    /// Current subscriber count.
    pub subscribers: usize,
    /// Last inbound activity (UNIX ns).
    pub last_seen_ns: u64,
}

/// What a [`UnitInfo`] says.
#[verifier::ext_equal]
pub ghost struct Info {
    pub id: u64,
    pub addr: Seq<char>,
    pub mode: Seq<char>,
    pub assigned_operator: Option<Seq<char>>,
    pub last_seq: u64,
    pub frames_recorded: u64,
    pub subscribers: nat,
    pub last_seen_ns: u64,
}

impl View for UnitInfo {
    type V = Info;

    open spec fn view(&self) -> Info {
        Info {
            id: self.id,
            addr: self.addr@,
            mode: self.mode@,
            assigned_operator: text_opt(self.assigned_operator),
            last_seq: self.last_seq,
            frames_recorded: self.frames_recorded,
            subscribers: self.subscribers as nat,
            last_seen_ns: self.last_seen_ns,
        }
    }
}

/// The snapshot of a unit.
pub open spec fn info_of<R: Recorder>(u: UnitState<R>) -> Info {
    Info {
        id: u.id,
        addr: u.addr@,
        mode: mode_name(u.mode),
        assigned_operator: text_opt(u.assigned_operator),
        last_seq: u.last_seq,
        frames_recorded: u.recorder.count(),
        subscribers: live_count(u.sfu@),
        last_seen_ns: u.last_seen_ns,
    }
}

/// A snapshot as a JSON object.
pub open spec fn info_value(i: Info) -> Value {
    Value::Obj(
        seq![
            ("id"@, uint_value(i.id)),
            ("addr"@, Value::Str(i.addr)),
            ("mode"@, Value::Str(i.mode)),
            (
                "assigned_operator"@,
                match i.assigned_operator {
                    Some(o) => Value::Str(o),
                    None => Value::Null,
                },
            ),
            ("last_seq"@, uint_value(i.last_seq)),
            ("frames_recorded"@, uint_value(i.frames_recorded)),
            ("subscribers"@, uint_value(i.subscribers as u64)),
            ("last_seen_ns"@, uint_value(i.last_seen_ns)),
        ],
    )
}

impl<R: Recorder> UnitState<R> {
    /// A flattened, serializable snapshot for the dashboard / MCP.
    pub fn info(&self) -> (r: UnitInfo)
        requires
            self.sfu.wf(),
        ensures
            r@ == info_of(*self),
    {
        let assigned_operator: Option<String> = match &self.assigned_operator {
            Some(o) => Some(o.as_str().to_owned()),
            None => None,
        };
        let r: UnitInfo = UnitInfo {
            id: self.id,
            addr: self.addr.as_str().to_owned(),
            mode: self.mode.name().to_owned(),
            assigned_operator,
            last_seq: self.last_seq,
            frames_recorded: self.recorder.frames(),
            subscribers: self.sfu.subscriber_count(),
            last_seen_ns: self.last_seen_ns,
        };
        assert(r@ =~= info_of(*self));
        r
    }
}

impl UnitInfo {
    /// Renders the snapshot as a JSON object.
    pub fn to_json(&self) -> (r: Json)
        ensures
            r@ == info_value(self@),
    {
        let operator: Json = match &self.assigned_operator {
            Some(o) => Json::str(o.as_str()),
            None => Json::Null,
        };
        let all: [(&str, Json); 8] = [
            ("id", Json::uint(self.id)),
            ("addr", Json::str(self.addr.as_str())),
            ("mode", Json::str(self.mode.as_str())),
            ("assigned_operator", operator),
            ("last_seq", Json::uint(self.last_seq)),
            ("frames_recorded", Json::uint(self.frames_recorded)),
            ("subscribers", Json::uint(self.subscribers as u64)),
            ("last_seen_ns", Json::uint(self.last_seen_ns)),
        ];
        let r: Json = Json::obj(all.as_slice());
        assert(r@->Obj_0 =~= info_value(self@)->Obj_0);
        r
    }
}

/// Where the unit `id` stands.
pub open spec fn unit_at<R: Recorder>(units: Seq<UnitState<R>>, id: u64) -> Option<int>
    decreases units.len(),
{
    if units.len() == 0 {
        None
    } else if units.last().id == id {
        Some(units.len() - 1)
    } else {
        unit_at(units.drop_last(), id)
    }
}

pub proof fn lemma_unit_at<R: Recorder>(units: Seq<UnitState<R>>, id: u64)
    ensures
        match unit_at(units, id) {
            Some(i) => 0 <= i < units.len() && units[i].id == id,
            None => forall|j: int| 0 <= j < units.len() ==> (#[trigger] units[j]).id != id,
        },
    decreases units.len(),
{
    if units.len() > 0 && units.last().id != id {
        lemma_unit_at(units.drop_last(), id);
        if unit_at(units, id) is None {
            assert forall|j: int| 0 <= j < units.len() implies (#[trigger] units[j]).id != id by {
                if j < units.len() - 1 {
                    assert(units.drop_last()[j].id != id);
                }
            }
        }
    }
}

/// Every id stands for one unit only.
pub open spec fn ids_distinct<R: Recorder>(units: Seq<UnitState<R>>) -> bool {
    forall|i: int, j: int|
        0 <= i < j < units.len() ==> (#[trigger] units[i]).id != (#[trigger] units[j]).id
}

/// `u` is a unit that was just provisioned: in Assist mode, unassigned, with
/// nobody watching.
pub open spec fn is_fresh<R: Recorder>(
    u: UnitState<R>,
    id: u64,
    addr: String,
    recorder: R,
    now_ns: u64,
) -> bool {
    &&& u.id == id
    &&& u.addr == addr
    &&& u.mode == Mode::Assist
    &&& u.assigned_operator is None
    &&& u.last_seq == 0
    &&& u.cmd_seq == 0
    &&& u.created_ns == now_ns
    &&& u.last_seen_ns == now_ns
    &&& u.sfu.wf()
    &&& u.sfu@ == Seq::<Subscriber>::empty()
    &&& u.sfu.next_id() == 1
    &&& u.recorder == recorder
}

/// The fleet: many concurrent unit sessions behind one orchestrator.
pub struct Fleet<T: UnitTransport, R: Recorder> {
    units: Vec<UnitState<R>>,
    transport: T,
    table: TransitionTable,
    record_dir: Option<String>,
}

impl<T: UnitTransport, R: Recorder> Fleet<T, R> {
    /// Every id stands for one unit, and every fan-out is sound.
    pub closed spec fn wf(&self) -> bool {
        &&& ids_distinct(self.units@)
        &&& forall|i: int| 0 <= i < self.units@.len() ==> (#[trigger] self.units@[i]).sfu.wf()
    }

    /// The units, in order of their provisioning.
    pub closed spec fn units(&self) -> Seq<UnitState<R>> {
        self.units@
    }

    /// The transport for outbound commands.
    pub closed spec fn transport(&self) -> T {
        self.transport
    }

    /// The transitions that are permitted.
    pub closed spec fn policy(&self) -> TransitionTable {
        self.table
    }

    /// Where recordings go, if units are recorded on disk.
    pub closed spec fn recordings(&self) -> Option<Seq<char>> {
        text_opt(self.record_dir)
    }

    /// Nothing but the units and the transport differs.
    pub open spec fn same_setup(&self, other: &Self) -> bool {
        &&& self.policy() == other.policy()
        &&& self.recordings() == other.recordings()
    }

    /// Nothing differs.
    pub open spec fn same(&self, other: &Self) -> bool {
        &&& self.units() == other.units()
        &&& self.transport() == other.transport()
        &&& self.same_setup(other)
    }

    /// In a sound fleet an id stands for one unit.
    pub proof fn lemma_units(&self, i: int, j: int)
        requires
            self.wf(),
            0 <= i < self.units().len(),
            0 <= j < self.units().len(),
            self.units()[i].id == self.units()[j].id,
        ensures
            i == j,
            self.units()[i].sfu.wf(),
    {
    }

    /// Creates an empty fleet using `transport` for outbound commands.
    pub fn new(transport: T) -> (r: Fleet<T, R>)
        ensures
            r.wf(),
            r.units() == Seq::<UnitState<R>>::empty(),
            r.transport() == transport,
            forall|a: Mode, b: Mode| #[trigger] r.policy().edge(a, b) == default_edge(a, b),
            r.recordings() is None,
    {
        let r: Fleet<T, R> = Fleet {
            units: Vec::new(),
            transport,
            table: TransitionTable::spec_default(),
            record_dir: None,
        };
        assert(r.units() =~= Seq::<UnitState<R>>::empty());
        r
    }

    /// Enables on-disk session recording: newly provisioned units are recorded
    /// under `dir`.
    pub fn set_record_dir(&mut self, dir: String)
        requires
            old(self).wf(),
        ensures
            final(self).wf(),
            final(self).units() == old(self).units(),
            final(self).transport() == old(self).transport(),
            final(self).policy() == old(self).policy(),
            final(self).recordings() == Some(dir@),
    {
        self.record_dir = Some(dir);
    }

    /// The file that the recorder of a unit is to be opened on before the unit
    /// is provisioned: none where it is known already or nothing is recorded.
    pub fn recording_path(&self, id: u64) -> (r: Option<String>)
        requires
            self.wf(),
        ensures
            match r {
                Some(p) => {
                    &&& unit_at(self.units(), id) is None
                    &&& self.recordings() matches Some(dir) && p@ == dir + "/unit-"@ + decimal(
                        id as nat,
                    ) + ".tptr"@
                },
                None => unit_at(self.units(), id) is Some || self.recordings() is None,
            },
    {
        if self.find(id).is_some() {
            return None;
        }
        match &self.record_dir {
            Some(dir) => {
                let mut p: String = dir.as_str().to_owned();
                p.append("/unit-");
                push_decimal(&mut p, id);
                p.append(".tptr");
                Some(p)
            },
            None => None,
        }
    }

    fn find(&self, id: u64) -> (r: Option<usize>)
        ensures
            match r {
                Some(i) => unit_at(self.units(), id) == Some(i as int) && i < self.units().len()
                    && self.units()[i as int].id == id,
                None => unit_at(self.units(), id) is None,
            },
    {
        let mut i: usize = self.units.len();
        proof {
            assert(self.units@.take(i as int) =~= self.units@);
        }
        while i > 0
            invariant
                i <= self.units@.len(),
                unit_at(self.units@, id) == unit_at(self.units@.take(i as int), id),
            decreases i,
        {
            proof {
                assert(self.units@.take(i as int).drop_last() =~= self.units@.take(i - 1));
            }
            i = i - 1;
            if self.units[i].id == id {
                return Some(i);
            }
        }
        None
    }

    /// Adds a unit that is not known yet.
    fn enter(&mut self, id: u64, addr: String, recorder: R, now_ns: u64)
        requires
            old(self).wf(),
            unit_at(old(self).units(), id) is None,
        ensures
            final(self).wf(),
            final(self).same_setup(&*old(self)),
            final(self).transport() == old(self).transport(),
            final(self).units().len() == old(self).units().len() + 1,
            final(self).units().drop_last() == old(self).units(),
            is_fresh(final(self).units().last(), id, addr, recorder, now_ns),
            unit_at(final(self).units(), id) == Some(old(self).units().len() as int),
    {
        proof {
            lemma_unit_at(self.units@, id);
        }
        self.units.push(
            UnitState {
                id,
                addr,
                mode: Mode::Assist,
                assigned_operator: None,
                last_seq: 0,
                cmd_seq: 0,
                created_ns: now_ns,
                last_seen_ns: now_ns,
                sfu: SfuFanout::new(),
                recorder,
            },
        );
        assert(self.units@.drop_last() =~= old(self).units@);
    }

    /// Explicitly registers a unit with a caller-supplied recorder.
    pub fn register_unit(&mut self, id: u64, addr: String, recorder: R, now_ns: u64) -> (r: Result<
        (),
        CloudError,
    >)
        requires
            old(self).wf(),
        ensures
            final(self).wf(),
            final(self).same_setup(&*old(self)),
            final(self).transport() == old(self).transport(),
            match unit_at(old(self).units(), id) {
                Some(_) => {
                    &&& final(self).same(&*old(self))
                    &&& result_of(r) == Err::<(), CloudErrorView>(CloudErrorView::AlreadyExists(id))
                },
                None => {
                    &&& r is Ok
                    &&& final(self).units().len() == old(self).units().len() + 1
                    &&& final(self).units().drop_last() == old(self).units()
                    &&& is_fresh(final(self).units().last(), id, addr, recorder, now_ns)
                },
            },
    {
        if self.find(id).is_some() {
            return Err(CloudError::AlreadyExists(id));
        }
        self.enter(id, addr, recorder, now_ns);
        Ok(())
    }

    /// All unit snapshots.
    pub fn list_units(&self) -> (r: Vec<UnitInfo>)
        requires
            self.wf(),
        ensures
            r@.len() == self.units().len(),
            forall|i: int| 0 <= i < r@.len() ==> (#[trigger] r@[i])@ == info_of(self.units()[i]),
    {
        let mut out: Vec<UnitInfo> = Vec::new();
        let mut i: usize = 0;
        while i < self.units.len()
            invariant
                self.wf(),
                i <= self.units@.len(),
                out@.len() == i,
                forall|j: int| 0 <= j < i ==> (#[trigger] out@[j])@ == info_of(self.units@[j]),
            decreases self.units@.len() - i,
        {
            out.push(self.units[i].info());
            i = i + 1;
        }
        out
    }

    /// Number of units.
    pub fn unit_count(&self) -> (r: usize)
        ensures
            r == self.units().len(),
    {
        self.units.len()
    }

    /// Immutable unit lookup.
    pub fn get(&self, id: u64) -> (r: Option<&UnitState<R>>)
        ensures
            match r {
                Some(u) => unit_at(self.units(), id) matches Some(i) && *u == self.units()[i]
                    && u.id == id && 0 <= i < self.units().len(),
                None => unit_at(self.units(), id) is None,
            },
    {
        match self.find(id) {
            Some(i) => Some(&self.units[i]),
            None => None,
        }
    }

    /// The transport, to look at.
    pub fn transport_ref(&self) -> (r: &T)
        ensures
            *r == self.transport(),
    {
        &self.transport
    }

    /// Assigns an operator to a unit.
    pub fn assign(&mut self, id: u64, operator: String) -> (r: Result<(), CloudError>)
        requires
            old(self).wf(),
        ensures
            final(self).wf(),
            assigns(*old(self), *final(self), id, operator@, result_of(r)),
    {
        let i: usize = match self.find(id) {
            Some(i) => i,
            None => {
                return Err(CloudError::NotFound(id));
            },
        };
        self.units[i].assigned_operator = Some(operator);
        assert(self.units@ =~= old(self).units@.update(
            i as int,
            UnitState { assigned_operator: Some(operator), ..old(self).units@[i as int] },
        ));
        Ok(())
    }

    /// Computes a legal staged transition path `from -> to`, or `None` if the
    /// transition table forbids it even through `Assist`.
    fn path_via(&self, from: Mode, to: Mode) -> (r: Option<Vec<Mode>>)
        ensures
            match r {
                Some(p) => staged_path(self.policy(), from, to) == Some(p@),
                None => staged_path(self.policy(), from, to) is None,
            },
    {
        let mut p: Vec<Mode> = Vec::new();
        if from == to {
            assert(p@ =~= Seq::<Mode>::empty());
            return Some(p);
        }
        if self.table.allows(from, to) {
            p.push(to);
            assert(p@ =~= seq![to]);
            return Some(p);
        }
        // Staged handover through Assist.
        if from != Mode::Assist && to != Mode::Assist && self.table.allows(from, Mode::Assist)
            && self.table.allows(Mode::Assist, to) {
            p.push(Mode::Assist);
            p.push(to);
            assert(p@ =~= seq![Mode::Assist, to]);
            return Some(p);
        }
        None
    }

    /// Commands a unit into `target` mode, enforcing the transition table.
    /// Staged paths (e.g. Auto to FullTeleop by way of Assist) emit one command
    /// per step.
    pub fn set_mode(&mut self, id: u64, target: Mode, now_ns: u64) -> (r: Result<(), CloudError>)
        requires
            old(self).wf(),
        ensures
            final(self).wf(),
            mode_change(*old(self), *final(self), id, target, now_ns, result_of(r)),
    {
        let i: usize = match self.find(id) {
            Some(i) => i,
            None => {
                return Err(CloudError::NotFound(id));
            },
        };
        let from: Mode = self.units[i].mode;
        let path: Vec<Mode> = match self.path_via(from, target) {
            Some(p) => p,
            None => {
                return Err(CloudError::ModeDisallowed { from, to: target });
            },
        };
        let seq: u64 = self.units[i].cmd_seq;
        let addr: String = self.units[i].addr.as_str().to_owned();
        let (mode, next, sent): (Mode, u64, Result<(), String>) = drive(
            &mut self.transport,
            addr.as_str(),
            path.as_slice(),
            0,
            from,
            seq,
            now_ns,
        );
        self.units[i].mode = mode;
        self.units[i].cmd_seq = next;
        proof {
            assert(path@.skip(0) =~= path@);
        }
        let r: Result<(), CloudError> = match &sent {
            Ok(_) => Ok(()),
            Err(e) => Err(transport_err(addr.as_str(), e.as_str())),
        };
        proof {
            let u = old(self).units()[i as int];
            let v = self.units()[i as int];
            assert(v == (UnitState { mode: v.mode, cmd_seq: v.cmd_seq, ..u }));
            assert(self.units() =~= old(self).units().update(i as int, v));
            assert(drives(
                old(self).transport(),
                self.transport(),
                u.addr@,
                path@,
                u.mode,
                u.cmd_seq,
                now_ns,
                v.mode,
                v.cmd_seq,
                outcome(sent),
            ));
            assert(result_of(r) == (match outcome(sent) {
                Ok(_) => Ok::<(), CloudErrorView>(()),
                Err(e) => Err(transport_failure(u.addr@, e)),
            }));
            assert(commanded(*old(self), *self, i as int, path@, now_ns, result_of(r)));
        }
        r
    }

    /// Commands a unit into [`Mode::Auto`].
    pub fn engage_autonomy(&mut self, id: u64, now_ns: u64) -> (r: Result<(), CloudError>)
        requires
            old(self).wf(),
        ensures
            final(self).wf(),
            mode_change(*old(self), *final(self), id, Mode::Auto, now_ns, result_of(r)),
    {
        self.set_mode(id, Mode::Auto, now_ns)
    }

    /// Commands a unit into [`Mode::FullTeleop`].
    pub fn take_manual_control(&mut self, id: u64, now_ns: u64) -> (r: Result<(), CloudError>)
        requires
            old(self).wf(),
        ensures
            final(self).wf(),
            mode_change(*old(self), *final(self), id, Mode::FullTeleop, now_ns, result_of(r)),
    {
        self.set_mode(id, Mode::FullTeleop, now_ns)
    }

    /// Ingests one frame for a unit: records it and fans it out to subscribers.
    /// Unknown units are provisioned first, with `fresh` as their recorder.
    pub fn ingest(
        &mut self,
        id: u64,
        addr: String,
        channel: u8,
        seq: u64,
        payload: &[u8],
        fresh: R,
        now_ns: u64,
    ) -> (r: Result<(), CloudError>)
        requires
            old(self).wf(),
        ensures
            final(self).wf(),
            final(self).same_setup(&*old(self)),
            final(self).transport() == old(self).transport(),
            ingests(
                old(self).units(),
                final(self).units(),
                id,
                addr,
                (Frame { channel, seq, payload: payload@ }),
                fresh,
                now_ns,
                result_of(r),
            ),
    {
        let ghost frame = Frame { channel, seq, payload: payload@ };
        let i: usize = match self.find(id) {
            Some(i) => {
                self.units[i].addr = addr;
                i
            },
            None => {
                let n: usize = self.units.len();
                self.enter(id, addr, fresh, now_ns);
                n
            },
        };
        let ghost base = self.units@;
        let ghost u = base[i as int];
        let ghost known = unit_at(old(self).units@, id) is Some;
        proof {
            if known {
                assert(u == (UnitState { addr, ..old(self).units@[i as int] }));
            } else {
                assert(is_fresh(u, id, addr, fresh, now_ns));
            }
        }
        self.units[i].last_seq = seq;
        self.units[i].last_seen_ns = now_ns;
        let written: Result<(), String> = self.units[i].recorder.record(channel, seq, payload);
        let ghost rec = self.units@[i as int].recorder;
        assert(R::records(u.recorder, rec, frame, written));
        match written {
            Ok(_) => {
                let media: MediaFrame = MediaFrame::new(channel, seq, payload);
                let ghost before = self.units@[i as int].sfu;
                let delivered: usize = self.units[i].sfu.publish(media);
                proof {
                    let v = self.units@[i as int];
                    assert(self.units@ =~= base.update(i as int, v));
                    if known {
                        assert(self.units@ =~= old(self).units@.update(i as int, v));
                    } else {
                        assert(self.units@.drop_last() =~= old(self).units@);
                    }
                    assert(carries(media, frame.channel, frame.seq, frame.payload));
                    assert(v.sfu@ == published(u.sfu@, media));
                    assert(R::records(u.recorder, v.recorder, frame, written));
                    assert(v == (UnitState {
                        last_seq: frame.seq,
                        last_seen_ns: now_ns,
                        recorder: v.recorder,
                        sfu: v.sfu,
                        ..u
                    }));
                    assert(takes_in(u, v, frame, now_ns, Ok::<(), CloudErrorView>(())));
                }
                Ok(())
            },
            Err(e) => {
                proof {
                    let v = self.units@[i as int];
                    assert(self.units@ =~= base.update(i as int, v));
                    if known {
                        assert(self.units@ =~= old(self).units@.update(i as int, v));
                    } else {
                        assert(self.units@.drop_last() =~= old(self).units@);
                    }
                    assert(takes_in(
                        u,
                        v,
                        frame,
                        now_ns,
                        Err::<(), CloudErrorView>(CloudErrorView::Recorder(e@)),
                    ));
                }
                Err(CloudError::Recorder(e))
            },
        }
    }

    /// Attaches a media subscriber to a unit, returning its id.
    pub fn attach_subscriber(&mut self, id: u64, capacity: usize) -> (r: Result<u64, CloudError>)
        requires
            old(self).wf(),
            capacity <= usize::MAX / 2 + 1,
        ensures
            final(self).wf(),
            final(self).same_setup(&*old(self)),
            final(self).transport() == old(self).transport(),
            match unit_at(old(self).units(), id) {
                Some(i) => {
                    let u = old(self).units()[i];
                    let v = final(self).units()[i];
                    &&& result_of(r) == Ok::<u64, CloudErrorView>(u.sfu.next_id())
                    &&& final(self).units() == old(self).units().update(i, v)
                    &&& v == (UnitState { sfu: v.sfu, ..u })
                    &&& v.sfu.next_id() == (if u.sfu.next_id() == u64::MAX {
                        0
                    } else {
                        (u.sfu.next_id() + 1) as u64
                    })
                    &&& v.sfu@ == without(u.sfu@, u.sfu.next_id()).push(
                        Subscriber {
                            id: u.sfu.next_id(),
                            listed: true,
                            held: true,
                            queue: Seq::empty(),
                            limit: rounded(
                                if capacity == 0 {
                                    1
                                } else {
                                    capacity as nat
                                },
                            ),
                        },
                    )
                },
                None => {
                    &&& final(self).units() == old(self).units()
                    &&& result_of(r) == Err::<u64, CloudErrorView>(CloudErrorView::NotFound(id))
                },
            },
    {
        let i: usize = match self.find(id) {
            Some(i) => i,
            None => {
                return Err(CloudError::NotFound(id));
            },
        };
        let sub: u64 = self.units[i].sfu.subscribe(capacity);
        assert(self.units@ =~= old(self).units@.update(i as int, self.units@[i as int]));
        Ok(sub)
    }

    /// Takes the oldest frame that waits for a subscriber of a unit.
    pub fn receive(&mut self, id: u64, subscriber: u64) -> (r: Option<MediaFrame>)
        requires
            old(self).wf(),
        ensures
            final(self).wf(),
            final(self).same_setup(&*old(self)),
            final(self).transport() == old(self).transport(),
            match r {
                Some(f) => {
                    let i = unit_at(old(self).units(), id)->0;
                    let u = old(self).units()[i];
                    let v = final(self).units()[i];
                    let k = place_of(u.sfu@, subscriber)->0;
                    let s = u.sfu@[k];
                    &&& unit_at(old(self).units(), id) is Some
                    &&& waits(u.sfu@, subscriber)
                    &&& f == s.queue[0]
                    &&& final(self).units() == old(self).units().update(i, v)
                    &&& v == (UnitState { sfu: v.sfu, ..u })
                    &&& v.sfu.next_id() == u.sfu.next_id()
                    &&& v.sfu@ == u.sfu@.update(
                        k,
                        Subscriber { queue: s.queue.drop_first(), ..s },
                    )
                },
                None => match unit_at(old(self).units(), id) {
                    Some(i) => {
                        let u = old(self).units()[i];
                        let v = final(self).units()[i];
                        &&& !waits(u.sfu@, subscriber)
                        &&& final(self).units() == old(self).units().update(i, v)
                        &&& v == (UnitState { sfu: v.sfu, ..u })
                        &&& v.sfu.next_id() == u.sfu.next_id()
                        &&& v.sfu@ == u.sfu@
                    },
                    None => final(self).units() == old(self).units(),
                },
            },
    {
        let i: usize = match self.find(id) {
            Some(i) => i,
            None => {
                return None;
            },
        };
        let r: Option<MediaFrame> = self.units[i].sfu.receive(subscriber);
        assert(self.units@ =~= old(self).units@.update(i as int, self.units@[i as int]));
        r
    }

    /// A subscriber of a unit stops reading.
    pub fn detach_subscriber(&mut self, id: u64, subscriber: u64)
        requires
            old(self).wf(),
        ensures
            final(self).wf(),
            final(self).same_setup(&*old(self)),
            final(self).transport() == old(self).transport(),
            match unit_at(old(self).units(), id) {
                Some(i) => {
                    let u = old(self).units()[i];
                    let v = final(self).units()[i];
                    &&& final(self).units() == old(self).units().update(i, v)
                    &&& v == (UnitState { sfu: v.sfu, ..u })
                    &&& v.sfu.next_id() == u.sfu.next_id()
                    &&& v.sfu@ == released(u.sfu@, subscriber)
                },
                None => final(self).units() == old(self).units(),
            },
    {
        if let Some(i) = self.find(id) {
            self.units[i].sfu.detach(subscriber);
            assert(self.units@ =~= old(self).units@.update(i as int, self.units@[i as int]));
        }
    }

    /// Live subscriber count for a unit.
    pub fn subscriber_count(&self, id: u64) -> (r: Result<usize, CloudError>)
        requires
            self.wf(),
        ensures
            match unit_at(self.units(), id) {
                Some(i) => r is Ok && r->Ok_0 == live_count(self.units()[i].sfu@),
                None => result_of(r) == Err::<usize, CloudErrorView>(CloudErrorView::NotFound(id)),
            },
    {
        match self.find(id) {
            Some(i) => Ok(self.units[i].sfu.subscriber_count()),
            None => Err(CloudError::NotFound(id)),
        }
    }
}

/// Assigning `operator` to the unit `id` leads from `before` to `after`.
pub open spec fn assigns<T: UnitTransport, R: Recorder>(
    before: Fleet<T, R>,
    after: Fleet<T, R>,
    id: u64,
    operator: Seq<char>,
    r: Result<(), CloudErrorView>,
) -> bool {
    match unit_at(before.units(), id) {
        Some(i) => {
            let u = before.units()[i];
            let v = after.units()[i];
            &&& r is Ok
            &&& after.same_setup(&before)
            &&& after.transport() == before.transport()
            &&& after.units() == before.units().update(i, v)
            &&& v == (UnitState { assigned_operator: v.assigned_operator, ..u })
            &&& text_opt(v.assigned_operator) == Some(operator)
        },
        None => {
            &&& after.same(&before)
            &&& r == Err::<(), CloudErrorView>(CloudErrorView::NotFound(id))
        },
    }
}

/// Commanding the unit at `i` along `path` can lead from `before` to `after` with
/// the result `r`.
pub open spec fn commanded<T: UnitTransport, R: Recorder>(
    before: Fleet<T, R>,
    after: Fleet<T, R>,
    i: int,
    path: Seq<Mode>,
    now_ns: u64,
    r: Result<(), CloudErrorView>,
) -> bool {
    let u = before.units()[i];
    let v = after.units()[i];
    &&& after.same_setup(&before)
    &&& after.units() == before.units().update(i, v)
    &&& v == (UnitState { mode: v.mode, cmd_seq: v.cmd_seq, ..u })
    &&& exists|sent: Result<(), Seq<char>>| #[trigger]
        drives(
            before.transport(),
            after.transport(),
            u.addr@,
            path,
            u.mode,
            u.cmd_seq,
            now_ns,
            v.mode,
            v.cmd_seq,
            sent,
        ) && r == (match sent {
            Ok(_) => Ok::<(), CloudErrorView>(()),
            Err(e) => Err(transport_failure(u.addr@, e)),
        })
}

/// Commanding the unit `id` into `target` can lead from `before` to `after` with
/// the result `r`.
pub open spec fn mode_change<T: UnitTransport, R: Recorder>(
    before: Fleet<T, R>,
    after: Fleet<T, R>,
    id: u64,
    target: Mode,
    now_ns: u64,
    r: Result<(), CloudErrorView>,
) -> bool {
    match unit_at(before.units(), id) {
        None => {
            &&& after.same(&before)
            &&& r == Err::<(), CloudErrorView>(CloudErrorView::NotFound(id))
        },
        Some(i) => {
            let u = before.units()[i];
            let v = after.units()[i];
            match staged_path(before.policy(), u.mode, target) {
                None => {
                    &&& after.same(&before)
                    &&& r == Err::<(), CloudErrorView>(
                        CloudErrorView::ModeDisallowed { from: u.mode, to: target },
                    )
                },
                Some(path) => commanded(before, after, i, path, now_ns, r),
            }
        },
    }
}

/// Taking in `frame` leads from the unit `u` to `v` with the result `r`.
pub open spec fn takes_in<R: Recorder>(
    u: UnitState<R>,
    v: UnitState<R>,
    frame: Frame,
    now_ns: u64,
    r: Result<(), CloudErrorView>,
) -> bool {
    &&& v == (UnitState {
        last_seq: frame.seq,
        last_seen_ns: now_ns,
        recorder: v.recorder,
        sfu: v.sfu,
        ..u
    })
    &&& exists|w: Result<(), String>| #[trigger]
        R::records(u.recorder, v.recorder, frame, w) && match w {
            Ok(_) => {
                &&& r is Ok
                &&& exists|m: MediaFrame| #[trigger]
                    carries(m, frame.channel, frame.seq, frame.payload) && v.sfu@ == published(
                        u.sfu@,
                        m,
                    )
            },
            Err(e) => {
                &&& r == Err::<(), CloudErrorView>(CloudErrorView::Recorder(e@))
                &&& v.sfu == u.sfu
            },
        }
}

/// Ingesting `frame` for the unit `id` leads from the units `before` to `after`
/// with the result `r`.
pub open spec fn ingests<R: Recorder>(
    before: Seq<UnitState<R>>,
    after: Seq<UnitState<R>>,
    id: u64,
    addr: String,
    frame: Frame,
    fresh: R,
    now_ns: u64,
    r: Result<(), CloudErrorView>,
) -> bool {
    match unit_at(before, id) {
        Some(i) => {
            &&& after == before.update(i, after[i])
            &&& takes_in(UnitState { addr, ..before[i] }, after[i], frame, now_ns, r)
        },
        None => {
            &&& after.len() == before.len() + 1
            &&& after.drop_last() == before
            &&& exists|u: UnitState<R>| #[trigger]
                is_fresh(u, id, addr, fresh, now_ns) && takes_in(u, after.last(), frame, now_ns, r)
        },
    }
}

/// A fleet with the default policy never refuses a mode change as disallowed,
/// and one whose commands all went through has the unit in the target mode.
pub proof fn law_mode_change_reaches_target<T: UnitTransport, R: Recorder>(
    before: Fleet<T, R>,
    after: Fleet<T, R>,
    id: u64,
    target: Mode,
    now_ns: u64,
    r: Result<(), CloudErrorView>,
)
    requires
        mode_change(before, after, id, target, now_ns, r),
        forall|a: Mode, b: Mode| #[trigger] before.policy().edge(a, b) == default_edge(a, b),
    ensures
        unit_at(before.units(), id) matches Some(i) ==> {
            &&& !(r matches Err(CloudErrorView::ModeDisallowed { from, to }))
            &&& r is Ok ==> after.units()[i].mode == target
            &&& r is Err ==> after.units()[i].mode == before.units()[i].mode || after.units()[i].mode
                == Mode::Assist
        },
        unit_at(before.units(), id) is None ==> r == Err::<(), CloudErrorView>(
            CloudErrorView::NotFound(id),
        ),
{
    if let Some(i) = unit_at(before.units(), id) {
        let u = before.units()[i];
        let v = after.units()[i];
        law_default_policy_reaches_all(before.policy(), u.mode, target);
        let path = staged_path(before.policy(), u.mode, target)->0;
        let sent = choose|sent: Result<(), Seq<char>>| #[trigger]
            drives(
                before.transport(),
                after.transport(),
                u.addr@,
                path,
                u.mode,
                u.cmd_seq,
                now_ns,
                v.mode,
                v.cmd_seq,
                sent,
            ) && r == (match sent {
                Ok(_) => Ok::<(), CloudErrorView>(()),
                Err(e) => Err(transport_failure(u.addr@, e)),
            });
        law_commands_move_along_the_path(
            before.transport(),
            after.transport(),
            u.addr@,
            path,
            u.mode,
            u.cmd_seq,
            now_ns,
            v.mode,
            v.cmd_seq,
            sent,
        );
        if r is Err && path.len() > 1 {
            assert(path.drop_last() =~= seq![Mode::Assist]);
        }
    }
}

} // verus!

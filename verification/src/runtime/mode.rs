//! Operating modes and the legal-transition table.
//!
//! Modes:
//!
//! * [`Mode::Auto`] - vehicle autonomy in command; operator supervises.
//! * [`Mode::Assist`] - shared control: operator inputs are blended with
//!   autonomy outputs.
//! * [`Mode::FullTeleop`] - operator commands drive actuators directly.
//! * [`Mode::EmergencyStop`] - latched hard stop; exit requires explicit
//!   operator acknowledgment into [`Mode::Assist`].
//!
//! The default table forbids direct Auto <-> FullTeleop jumps: both directions
//! must stage through Assist so the handover can be smoothed instead of
//! snapping.
use vstd::prelude::*;
use crate::text::{lemma_words_last, lemma_words_push, one_word, spaces, words};

verus! {

/// Control authority mode.
#[derive(Debug, Clone, Copy, PartialEq, Eq, Hash, Structural)]
pub enum Mode {
    /// Vehicle autonomy drives; operator supervises.
    Auto,
    /// Shared control between autonomy and operator.
    Assist,
    /// Operator commands actuate directly.
    FullTeleop,
    /// Latched hard stop; exit requires operator acknowledgment.
    EmergencyStop,
}

/// The number of a mode.
pub open spec fn mode_number(m: Mode) -> u8 {
    match m {
        Mode::Auto => 0,
        Mode::Assist => 1,
        Mode::FullTeleop => 2,
        Mode::EmergencyStop => 3,
    }
}

/// The mode of a number.
pub open spec fn mode_of(v: u8) -> Option<Mode> {
    if v == 0 {
        Some(Mode::Auto)
    } else if v == 1 {
        Some(Mode::Assist)
    } else if v == 2 {
        Some(Mode::FullTeleop)
    } else if v == 3 {
        Some(Mode::EmergencyStop)
    } else {
        None
    }
}

/// The name of a mode.
pub open spec fn mode_name(m: Mode) -> Seq<char> {
    match m {
        Mode::Auto => "AUTO"@,
        Mode::Assist => "ASSIST"@,
        Mode::FullTeleop => "TELEOP"@,
        Mode::EmergencyStop => "ESTOP"@,
    }
}

impl Mode {
    /// All modes, in the order of their numbers.
    pub const ALL: [Mode; 4] = [Mode::Auto, Mode::Assist, Mode::FullTeleop, Mode::EmergencyStop];

    /// Lossless number mapping.
    pub fn as_u8(self) -> (r: u8)
        ensures
            r == mode_number(self),
    {
        match self {
            Mode::Auto => 0,
            Mode::Assist => 1,
            Mode::FullTeleop => 2,
            Mode::EmergencyStop => 3,
        }
    }

    /// Inverse of [`as_u8`](Self::as_u8); `None` for out-of-range values.
    pub fn from_u8(v: u8) -> (r: Option<Mode>)
        ensures
            r == mode_of(v),
    {
        match v {
            0 => Some(Mode::Auto),
            1 => Some(Mode::Assist),
            2 => Some(Mode::FullTeleop),
            3 => Some(Mode::EmergencyStop),
            _ => None,
        }
    }

    /// Human-readable name for logs/HUDs.
    pub fn name(self) -> (r: &'static str)
        ensures
            r@ == mode_name(self),
    {
        match self {
            Mode::Auto => "AUTO",
            Mode::Assist => "ASSIST",
            Mode::FullTeleop => "TELEOP",
            Mode::EmergencyStop => "ESTOP",
        }
    }
}

/// The number of a mode leads back to the mode, and every number that names a
/// mode is that mode's number.
pub proof fn law_mode_numbers(m: Mode, v: u8)
    ensures
        mode_of(mode_number(m)) == Some(m),
        mode_of(v) matches Some(n) ==> mode_number(n) == v,
        mode_of(v) is None <==> v > 3,
{
}

/// A completed mode change, timestamped (wall-clock nanos).
#[derive(Debug, Clone, Copy, PartialEq, Eq, Structural)]
pub struct Transition {
    /// Mode before the change.
    pub from: Mode,
    /// Mode after the change.
    pub to: Mode,
    /// UNIX-epoch nanoseconds of the commit instant.
    pub at_unix_ns: u64,
}

/// Rejected-transition error.
#[derive(Debug, Clone, Copy, PartialEq, Eq, Structural)]
pub enum ModeError {
    /// The table forbids `from -> to`.
    Disallowed { from: Mode, to: Mode },
}

/// Why a transition is refused, in words.
pub open spec fn refusal_text(from: Mode, to: Mode) -> Seq<char> {
    "mode transition "@ + mode_name(from) + " -> "@ + mode_name(to) + " is not permitted"@
}

impl ModeError {
    /// The error in words.
    pub fn message(&self) -> (r: String)
        ensures
            ({
                let ModeError::Disallowed { from, to } = *self;
                &&& r@ == "mode transition "@ + mode_name(from) + " -> "@ + mode_name(to)
                    + " is not permitted"@
                &&& r@ == refusal_text(from, to)
            }),
    {
        match self {
            ModeError::Disallowed { from, to } => {
                let mut out: String = "mode transition ".to_owned();
                out.append(from.name());
                out.append(" -> ");
                out.append(to.name());
                out.append(" is not permitted");
                out
            },
        }
    }
}

/// Dense adjacency matrix of legal transitions.
///
/// Defaults implement the staged-handover policy (see module docs).
#[derive(Debug, Clone)]
pub struct TransitionTable {
    edges: [bool; 16],
}

/// Where the edge `from -> to` stands.
spec fn edge_place(from: Mode, to: Mode) -> int {
    4 * mode_number(from) + mode_number(to)
}

fn place(from: Mode, to: Mode) -> (r: usize)
    ensures
        r == edge_place(from, to),
        r < 16,
{
    4 * (from.as_u8() as usize) + to.as_u8() as usize
}

/// The default policy: staged handovers through Assist, emergency stop from
/// anywhere, and out of it into Assist alone.
pub open spec fn default_edge(from: Mode, to: Mode) -> bool {
    ||| to == Mode::EmergencyStop
    ||| (to == Mode::Assist && from != Mode::Assist)
    ||| (from == Mode::Assist && (to == Mode::Auto || to == Mode::FullTeleop))
}

impl TransitionTable {
    /// Whether the table permits `from -> to`.
    pub closed spec fn edge(&self, from: Mode, to: Mode) -> bool {
        self.edges@[edge_place(from, to)]
    }

    /// The default policy.
    pub fn spec_default() -> (t: TransitionTable)
        ensures
            forall|from: Mode, to: Mode| #[trigger] t.edge(from, to) == default_edge(from, to),
    {
        let mut t: TransitionTable = TransitionTable {
            edges: [
                false,
                false,
                false,
                false,
                false,
                false,
                false,
                false,
                false,
                false,
                false,
                false,
                false,
                false,
                false,
                false,
            ],
        };
        // Staged handovers through Assist.
        t.set_allowed(Mode::Auto, Mode::Assist, true);
        t.set_allowed(Mode::Assist, Mode::Auto, true);
        t.set_allowed(Mode::Assist, Mode::FullTeleop, true);
        t.set_allowed(Mode::FullTeleop, Mode::Assist, true);
        // Emergency stop is enterable from anywhere...
        t.set_allowed(Mode::Auto, Mode::EmergencyStop, true);
        t.set_allowed(Mode::Assist, Mode::EmergencyStop, true);
        t.set_allowed(Mode::FullTeleop, Mode::EmergencyStop, true);
        t.set_allowed(Mode::EmergencyStop, Mode::EmergencyStop, true);
        // ...but only exitable into Assist (operator acknowledgment), which
        // then stages onward per normal rules.
        t.set_allowed(Mode::EmergencyStop, Mode::Assist, true);
        t
    }

    /// Reads one edge.
    pub fn allows(&self, from: Mode, to: Mode) -> (r: bool)
        ensures
            r == self.edge(from, to),
    {
        self.edges[place(from, to)]
    }

    /// Writes one edge.
    pub fn set_allowed(&mut self, from: Mode, to: Mode, allowed: bool)
        ensures
            forall|a: Mode, b: Mode| #[trigger]
                final(self).edge(a, b) == (if a == from && b == to {
                    allowed
                } else {
                    old(self).edge(a, b)
                }),
    {
        let i: usize = place(from, to);
        self.edges[i] = allowed;
        proof {
            assert forall|a: Mode, b: Mode| #[trigger] self.edge(a, b) == (if a == from && b == to {
                allowed
            } else {
                old(self).edge(a, b)
            }) by {
                if edge_place(a, b) == edge_place(from, to) {
                    assert(mode_number(a) == mode_number(from) && mode_number(b) == mode_number(to));
                }
            }
        }
    }

    /// Convenience: forbid every edge into `to`.
    pub fn deny_entry(&mut self, to: Mode)
        ensures
            forall|a: Mode, b: Mode| #[trigger]
                final(self).edge(a, b) == (b != to && old(self).edge(a, b)),
    {
        self.set_allowed(Mode::Auto, to, false);
        self.set_allowed(Mode::Assist, to, false);
        self.set_allowed(Mode::FullTeleop, to, false);
        self.set_allowed(Mode::EmergencyStop, to, false);
    }
}

impl Default for TransitionTable {
    fn default() -> (t: TransitionTable)
        ensures
            forall|from: Mode, to: Mode| #[trigger] t.edge(from, to) == default_edge(from, to),
    {
        TransitionTable::spec_default()
    }
}

/// Under the default policy an emergency stop can be entered from every mode
/// and left into Assist alone, and Auto and FullTeleop never follow each other
/// directly.
pub proof fn law_default_policy(from: Mode, to: Mode)
    ensures
        default_edge(from, Mode::EmergencyStop),
        default_edge(Mode::EmergencyStop, to) <==> to == Mode::Assist || to == Mode::EmergencyStop,
        !default_edge(Mode::Auto, Mode::FullTeleop),
        !default_edge(Mode::FullTeleop, Mode::Auto),
        from != Mode::Assist ==> default_edge(from, Mode::Assist),
{
}

/// The numbers of the modes on the wire, in the order from full autonomy to a
/// stop, and their names.
pub proof fn law_modes_by_number(m: Mode)
    ensures
        mode_number(m) == 0 <==> m == Mode::Auto,
        mode_number(m) == 1 <==> m == Mode::Assist,
        mode_number(m) == 2 <==> m == Mode::FullTeleop,
        mode_number(m) == 3 <==> m == Mode::EmergencyStop,
        mode_name(m) == (if m == Mode::Auto {
            "AUTO"@
        } else if m == Mode::Assist {
            "ASSIST"@
        } else if m == Mode::FullTeleop {
            "TELEOP"@
        } else {
            "ESTOP"@
        }),
{
}

/// Under the default policy, autonomy and full control are entered from Assist
/// alone, and Assist from every other mode.
pub proof fn law_handover_goes_through_assist(from: Mode)
    ensures
        default_edge(from, Mode::Auto) <==> from == Mode::Assist,
        default_edge(from, Mode::FullTeleop) <==> from == Mode::Assist,
        default_edge(from, Mode::Assist) <==> from != Mode::Assist,
{
}

/// A refused transition names the mode it was to leave and then the one it was to
/// enter.
pub proof fn law_refused_transition_in_words(from: Mode, to: Mode)
    ensures
        words(refusal_text(from, to)) == seq![
            "mode"@,
            "transition"@,
            mode_name(from),
            "->"@,
            mode_name(to),
            "is"@,
            "not"@,
            "permitted"@,
        ],
{
    assert("mode transition "@ == "mode"@ + spaces(1) + "transition"@ + spaces(1) && " -> "@
        == spaces(1) + "->"@ + spaces(1) && " is not permitted"@ == spaces(1) + "is"@ + spaces(1)
        + "not"@ + spaces(1) + "permitted"@) by {
        reveal_strlit("mode transition ");
        reveal_strlit("mode");
        reveal_strlit("transition");
        reveal_strlit(" -> ");
        reveal_strlit("->");
        reveal_strlit(" is not permitted");
        reveal_strlit("is");
        reveal_strlit("not");
        reveal_strlit("permitted");
        assert("mode transition "@ =~= "mode"@ + spaces(1) + "transition"@ + spaces(1));
        assert(" -> "@ =~= spaces(1) + "->"@ + spaces(1));
        assert(" is not permitted"@ =~= spaces(1) + "is"@ + spaces(1) + "not"@ + spaces(1)
            + "permitted"@);
    }
    assert(one_word("mode"@) && one_word("transition"@) && one_word("->"@) && one_word("is"@)
        && one_word("not"@) && one_word("permitted"@) && one_word("AUTO"@) && one_word("ASSIST"@)
        && one_word("TELEOP"@) && one_word("ESTOP"@)) by {
        reveal_strlit("mode");
        reveal_strlit("transition");
        reveal_strlit("->");
        reveal_strlit("is");
        reveal_strlit("not");
        reveal_strlit("permitted");
        reveal_strlit("AUTO");
        reveal_strlit("ASSIST");
        reveal_strlit("TELEOP");
        reveal_strlit("ESTOP");
    }
    let a = mode_name(from);
    let b = mode_name(to);
    lemma_words_last("mode"@);
    let t1 = "mode"@ + spaces(1) + "transition"@;
    lemma_words_push("mode"@, 1, "transition"@);
    let t2 = t1 + spaces(1) + a;
    lemma_words_push(t1, 1, a);
    let t3 = t2 + spaces(1) + "->"@;
    lemma_words_push(t2, 1, "->"@);
    let t4 = t3 + spaces(1) + b;
    lemma_words_push(t3, 1, b);
    let t5 = t4 + spaces(1) + "is"@;
    lemma_words_push(t4, 1, "is"@);
    let t6 = t5 + spaces(1) + "not"@;
    lemma_words_push(t5, 1, "not"@);
    let t7 = t6 + spaces(1) + "permitted"@;
    lemma_words_push(t6, 1, "permitted"@);
    assert(refusal_text(from, to) =~= t7);
    assert(words(t7) =~= seq!["mode"@, "transition"@, a, "->"@, b, "is"@, "not"@, "permitted"@]);
}

} // verus!

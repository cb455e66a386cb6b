//! Motor commands of a quadrotor, as its CAN frames carry them.
use vstd::prelude::*;
use crate::hal::ids::MOTOR_CMD;
use crate::hal::types::CanFrame;
use crate::num::binary::{
    law_rounding_keeps_order, lemma_nearest, nearest, nearest_exec, rounds_to, Width,
};
use crate::num::natural::Nat;

verus! {

/// Number of rotors.
pub const N_MOTORS: usize = 4;

/// Nanoseconds from one command to the next.
pub const COMMAND_NS: u64 = 5_000_000;

/// The big-endian number of two bytes.
pub open spec fn be_pair(high: u8, low: u8) -> u16 {
    (256 * high + low) as u16
}

/// The thrust of the motor `i` in the payload of a command.
pub open spec fn raw_thrust(payload: Seq<u8>, i: int) -> u16 {
    be_pair(payload[2 * i], payload[2 * i + 1])
}

/// A raw thrust as a fraction of the full one, in single precision.
pub open spec fn thrust_fraction(raw: u16) -> u32 {
    nearest(Width::Single, raw as nat, 65535) as u32
}

/// A thrust command for one motor.
#[derive(Debug, Clone, Copy, PartialEq, Eq, Structural)]
pub struct ThrustCommand {
    /// Number of the command.
    pub seq: u64,
    /// Time of the command (ns).
    pub timestamp_ns: u64,
    /// Fraction of the full thrust, as the bit pattern of a single-precision
    /// number.
    pub value: u32,
}

/// Commands that were taken in so far.
#[derive(Debug)]
pub struct CommandInput {
    cmd_seq: u64,
}

impl CommandInput {
    /// Number of the next command.
    pub closed spec fn next_seq(&self) -> u64 {
        self.cmd_seq
    }

    /// No commands yet; the first has number 1.
    pub fn new() -> (r: CommandInput)
        ensures
            r.next_seq() == 1,
    {
        CommandInput { cmd_seq: 1 }
    }

    /// Parses a motor-command CAN frame (four big-endian 16-bit thrusts). Returns
    /// the commands for the four motors when the frame is one.
    pub fn handle_can(&mut self, frame: &CanFrame) -> (r: Option<[ThrustCommand; 4]>)
        requires
            old(self).next_seq() < u64::MAX,
        ensures
            match r {
                Some(all) => {
                    &&& frame.id == MOTOR_CMD
                    &&& frame.len >= 8
                    &&& final(self).next_seq() == old(self).next_seq() + 1
                    &&& forall|i: int|
                        0 <= i < 4 ==> #[trigger] all@[i] == (ThrustCommand {
                            seq: old(self).next_seq(),
                            timestamp_ns: ((old(self).next_seq() * 5_000_000)
                                % 0x1_0000_0000_0000_0000) as u64,
                            value: thrust_fraction(raw_thrust(frame.data@, i)),
                        })
                    &&& forall|i: int|
                        0 <= i < 4 ==> rounds_to(
                            Width::Single,
                            (256 * frame.data@[2 * i] + frame.data@[2 * i + 1]) as nat,
                            65535,
                            (#[trigger] all@[i]).value as nat,
                        )
                },
                None => (frame.id != MOTOR_CMD || frame.len < 8) && final(self).next_seq() == old(
                    self,
                ).next_seq(),
            },
    {
        if frame.id != MOTOR_CMD || frame.len < 8 {
            return None;
        }
        let seq: u64 = self.cmd_seq;
        let stamp: u64 = ((seq as u128 * 5_000_000) % 0x1_0000_0000_0000_0000) as u64;
        let idle: ThrustCommand = ThrustCommand { seq, timestamp_ns: stamp, value: 0 };
        let mut all: [ThrustCommand; 4] = [idle, idle, idle, idle];
        let mut i: usize = 0;
        while i < 4
            invariant
                i <= 4,
                forall|j: int|
                    0 <= j < i ==> #[trigger] all@[j] == (ThrustCommand {
                        seq,
                        timestamp_ns: stamp,
                        value: thrust_fraction(raw_thrust(frame.data@, j)),
                    }),
            decreases 4 - i,
        {
            let raw: u64 = 256 * frame.data[2 * i] as u64 + frame.data[2 * i + 1] as u64;
            let value: u32 = nearest_exec(
                Width::Single,
                &Nat::from_u64(raw),
                &Nat::from_u64(65535),
            ) as u32;
            all[i] = ThrustCommand { seq, timestamp_ns: stamp, value };
            i = i + 1;
        }
        self.cmd_seq = seq + 1;
        proof {
            assert forall|i: int| 0 <= i < 4 implies rounds_to(
                Width::Single,
                (256 * frame.data@[2 * i] + frame.data@[2 * i + 1]) as nat,
                65535,
                (#[trigger] all@[i]).value as nat,
            ) by {
                lemma_nearest(
                    Width::Single,
                    (256 * frame.data@[2 * i] + frame.data@[2 * i + 1]) as nat,
                    65535,
                );
            }
        }
        Some(all)
    }
}

/// A thrust command says what was put in: of four 16-bit numbers, each with its
/// high byte first, motor `i` gets the single-precision number nearest to the
/// `i`th part of the full thrust `65535`.
pub proof fn law_thrusts_read_back(n: Seq<u16>, payload: Seq<u8>, i: int)
    requires
        n.len() == 4,
        payload.len() >= 8,
        forall|j: int|
            0 <= j < 4 ==> payload[2 * j] == #[trigger] n[j] / 256 && payload[2 * j + 1] == n[j] % 256,
        0 <= i < 4,
    ensures
        rounds_to(
            Width::Single,
            n[i] as nat,
            65535,
            thrust_fraction(raw_thrust(payload, i)) as nat,
        ),
{
    assert(payload[2 * i] == n[i] / 256);
    assert(256 * (n[i] / 256) + n[i] % 256 == n[i]);
    lemma_nearest(Width::Single, n[i] as nat, 65535);
}

/// No motor gets less thrust for a larger number: a larger high byte, or as
/// large a one with a larger low byte, never means a smaller thrust.
pub proof fn law_thrust_keeps_order(a: Seq<u8>, b: Seq<u8>, i: int)
    requires
        0 <= i < 4,
        a[2 * i] < b[2 * i] || (a[2 * i] == b[2 * i] && a[2 * i + 1] <= b[2 * i + 1]),
    ensures
        thrust_fraction(raw_thrust(a, i)) <= thrust_fraction(raw_thrust(b, i)),
{
    let x = (256 * a[2 * i] + a[2 * i + 1]) as nat;
    let y = (256 * b[2 * i] + b[2 * i + 1]) as nat;
    lemma_nearest(Width::Single, x, 65535);
    lemma_nearest(Width::Single, y, 65535);
    law_rounding_keeps_order(Width::Single, x, y, 65535);
}

} // verus!

//! Which cores a thread may be pinned to.
//!
//! The system calls that pin are made by the caller, with what is checked here.
use vstd::prelude::*;
use crate::num::decimal::lemma_decimal_digits;
use crate::text::{
    decimal, is_digit, is_space, lemma_words_last, lemma_words_push, one_word, push_decimal, spaces,
    words,
};

verus! {

/// Pinning failures.
#[derive(Debug)]
pub enum AffinityError {
    /// Empty core list supplied.
    NoCores,
    /// A requested core does not exist on this machine.
    OutOfRange { core: usize, max: usize },
    /// Underlying OS syscall failed.
    Os(String),
    /// Mach kernel return code (macOS).
    Mach(i32),
}

/// An integer as decimal text.
pub open spec fn signed_text(n: int) -> Seq<char> {
    if n < 0 {
        seq!['-'] + decimal((-n) as nat)
    } else {
        decimal(n as nat)
    }
}

impl AffinityError {
    /// The message of an error.
    pub open spec fn text(&self) -> Seq<char> {
        match *self {
            AffinityError::NoCores => "no cores requested"@,
            AffinityError::OutOfRange { core, max } => "core "@ + decimal(core as nat)
                + " out of range (machine has "@ + decimal(max as nat) + ")"@,
            AffinityError::Os(e) => "affinity syscall failed: "@ + e@,
            AffinityError::Mach(kr) => "mach thread_policy_set failed: kern="@ + signed_text(
                kr as int,
            ),
        }
    }

    /// The message of the error.
    pub fn message(&self) -> (r: String)
        ensures
            r@ == self.text(),
    {
        match self {
            AffinityError::NoCores => "no cores requested".to_owned(),
            AffinityError::OutOfRange { core, max } => {
                let mut s: String = "core ".to_owned();
                push_decimal(&mut s, *core as u64);
                s.append(" out of range (machine has ");
                push_decimal(&mut s, *max as u64);
                s.append(")");
                s
            },
            AffinityError::Os(e) => {
                let mut s: String = "affinity syscall failed: ".to_owned();
                s.append(e.as_str());
                s
            },
            AffinityError::Mach(kr) => {
                let mut s: String = "mach thread_policy_set failed: kern=".to_owned();
                let ghost start = s@;
                let n: i64 = *kr as i64;
                if n < 0 {
                    s.push('-');
                    push_decimal(&mut s, (-n) as u64);
                    assert(s@ =~= start + signed_text(n as int));
                } else {
                    push_decimal(&mut s, n as u64);
                }
                s
            },
        }
    }
}

/// The first core of a list that a machine of `max` cores does not have.
pub open spec fn first_missing(cores: Seq<usize>, max: usize) -> Option<usize>
    decreases cores.len(),
{
    if cores.len() == 0 {
        None
    } else if cores[0] >= max {
        Some(cores[0])
    } else {
        first_missing(cores.drop_first(), max)
    }
}

/// Checks that a thread can be pinned to `cores` on a machine of `max` cores:
/// there must be at least one, and each must exist.
pub fn pin_current(cores: &[usize], max: usize) -> (r: Result<(), AffinityError>)
    ensures
        match r {
            Ok(_) => cores@.len() > 0 && first_missing(cores@, max) is None,
            Err(AffinityError::NoCores) => cores@.len() == 0,
            Err(AffinityError::OutOfRange { core, max: m }) => {
                &&& cores@.len() > 0
                &&& first_missing(cores@, max) == Some(core)
                &&& m == max
            },
            Err(_) => false,
        },
{
    if cores.len() == 0 {
        return Err(AffinityError::NoCores);
    }
    let mut i: usize = 0;
    proof {
        assert(cores@.skip(0) =~= cores@);
    }
    while i < cores.len()
        invariant
            i <= cores@.len(),
            cores@.len() > 0,
            first_missing(cores@, max) == first_missing(cores@.skip(i as int), max),
        decreases cores@.len() - i,
    {
        proof {
            assert(cores@.skip(i as int).drop_first() =~= cores@.skip(i + 1));
        }
        if cores[i] >= max {
            return Err(AffinityError::OutOfRange { core: cores[i], max });
        }
        i = i + 1;
    }
    Ok(())
}

/// Every core of an accepted list exists.
pub proof fn law_accepted_cores_exist(cores: Seq<usize>, max: usize, i: int)
    requires
        first_missing(cores, max) is None,
        0 <= i < cores.len(),
    ensures
        cores[i] < max,
    decreases cores.len(),
{
    if i > 0 {
        law_accepted_cores_exist(cores.drop_first(), max, i - 1);
    }
}

/// The bit of the core `c` in a 64-bit affinity mask.
pub open spec fn core_bit(c: usize) -> u64 {
    1u64 << (c as u64)
}

/// The affinity mask of several cores.
pub open spec fn mask_of(cores: Seq<usize>) -> u64
    decreases cores.len(),
{
    if cores.len() == 0 {
        0
    } else {
        mask_of(cores.drop_last()) | core_bit(cores.last())
    }
}

/// The affinity mask of `cores`, one bit per core.
pub fn affinity_mask(cores: &[usize]) -> (r: u64)
    requires
        forall|i: int| 0 <= i < cores@.len() ==> #[trigger] cores@[i] < 64,
    ensures
        r == mask_of(cores@),
{
    let mut mask: u64 = 0;
    let mut i: usize = 0;
    proof {
        assert(cores@.take(0) =~= Seq::<usize>::empty());
    }
    while i < cores.len()
        invariant
            i <= cores@.len(),
            forall|j: int| 0 <= j < cores@.len() ==> #[trigger] cores@[j] < 64,
            mask == mask_of(cores@.take(i as int)),
        decreases cores@.len() - i,
    {
        proof {
            assert(cores@.take(i + 1).drop_last() =~= cores@.take(i as int));
            assert(cores@.take(i + 1).last() == cores@[i as int]);
        }
        mask = mask | (1u64 << (cores[i] as u64));
        i = i + 1;
    }
    proof {
        assert(cores@.take(i as int) =~= cores@);
    }
    mask
}

/// A mask has the bit of every core that it was made for, and no other.
pub proof fn law_mask_holds_its_cores(cores: Seq<usize>, c: usize)
    requires
        forall|i: int| 0 <= i < cores.len() ==> #[trigger] cores[i] < 64,
        c < 64,
    ensures
        mask_of(cores) & core_bit(c) != 0 <==> cores.contains(c),
    decreases cores.len(),
{
    if cores.len() == 0 {
        let b = core_bit(c);
        assert(0u64 & b == 0) by (bit_vector);
    } else {
        let front = cores.drop_last();
        let l = cores.last();
        assert(cores[cores.len() - 1] < 64);
        assert forall|i: int| 0 <= i < front.len() implies #[trigger] front[i] < 64 by {
            assert(front[i] == cores[i]);
        }
        law_mask_holds_its_cores(front, c);
        let m = mask_of(front);
        let x = l as u64;
        let y = c as u64;
        assert(((m | (1u64 << x)) & (1u64 << y) != 0) <==> (m & (1u64 << y) != 0 || x == y))
            by (bit_vector)
            requires
                x < 64,
                y < 64,
        ;
        if front.contains(c) {
            let k = choose|k: int| 0 <= k < front.len() && front[k] == c;
            assert(cores[k] == c);
        }
        if cores.contains(c) && c != l {
            let k = choose|k: int| 0 <= k < cores.len() && cores[k] == c;
            assert(front[k] == c);
        }
    }
}

/// The name of a pinned thread.
pub fn thread_label(name: &str) -> (r: String)
    ensures
        r@ == "tpt:"@ + name@,
{
    let mut s: String = "tpt:".to_owned();
    s.append(name);
    s
}

/// The core that is refused is the first in the list that the machine lacks.
pub proof fn law_first_missing_core_is_named(cores: Seq<usize>, max: usize)
    ensures
        match first_missing(cores, max) {
            Some(c) => exists|i: int|
                0 <= i < cores.len() && #[trigger] cores[i] == c && c >= max && forall|j: int|
                    0 <= j < i ==> #[trigger] cores[j] < max,
            None => forall|j: int| 0 <= j < cores.len() ==> #[trigger] cores[j] < max,
        },
    decreases cores.len(),
{
    if cores.len() > 0 && cores[0] < max {
        let rest = cores.drop_first();
        law_first_missing_core_is_named(rest, max);
        match first_missing(rest, max) {
            Some(c) => {
                let i = choose|i: int|
                    0 <= i < rest.len() && #[trigger] rest[i] == c && c >= max && forall|j: int|
                        0 <= j < i ==> #[trigger] rest[j] < max;
                assert(cores[i + 1] == c);
                assert forall|j: int| 0 <= j < i + 1 implies #[trigger] cores[j] < max by {
                    if j > 0 {
                        assert(rest[j - 1] < max);
                    }
                }
            },
            None => {
                assert forall|j: int| 0 <= j < cores.len() implies #[trigger] cores[j] < max by {
                    if j > 0 {
                        assert(rest[j - 1] < max);
                    }
                }
            },
        }
    }
}

/// A core out of range is told apart from the number of cores: `core <core> out of
/// range (machine has <max>)`.
pub proof fn law_missing_core_in_words(core: usize, max: usize)
    ensures
        words((AffinityError::OutOfRange { core, max }).text()) == seq![
            "core"@,
            decimal(core as nat),
            "out"@,
            "of"@,
            "range"@,
            "(machine"@,
            "has"@,
            decimal(max as nat) + ")"@,
        ],
{
    let a = decimal(core as nat);
    let b = decimal(max as nat);
    lemma_affinity_words();
    lemma_number_is_a_word(core as nat);
    lemma_number_is_a_word(max as nat);
    let last = b + ")"@;
    assert(one_word(last)) by {
        assert forall|i: int| 0 <= i < last.len() implies !is_space(#[trigger] last[i]) by {
            if i < b.len() {
                assert(last[i] == b[i]);
            } else {
                assert(last[i] == ")"@[i - b.len()]);
            }
        }
    }
    lemma_words_last("core"@);
    let t1 = "core"@ + spaces(1) + a;
    lemma_words_push("core"@, 1, a);
    let t2 = t1 + spaces(1) + "out"@;
    lemma_words_push(t1, 1, "out"@);
    let t3 = t2 + spaces(1) + "of"@;
    lemma_words_push(t2, 1, "of"@);
    let t4 = t3 + spaces(1) + "range"@;
    lemma_words_push(t3, 1, "range"@);
    let t5 = t4 + spaces(1) + "(machine"@;
    lemma_words_push(t4, 1, "(machine"@);
    let t6 = t5 + spaces(1) + "has"@;
    lemma_words_push(t5, 1, "has"@);
    let t7 = t6 + spaces(1) + last;
    lemma_words_push(t6, 1, last);
    let text = (AffinityError::OutOfRange { core, max }).text();
    assert(text =~= t7);
    assert(words(text) =~= seq![
        "core"@,
        a,
        "out"@,
        "of"@,
        "range"@,
        "(machine"@,
        "has"@,
        last,
    ]);
}

proof fn lemma_number_is_a_word(n: nat)
    ensures
        one_word(decimal(n)),
{
    lemma_decimal_digits(n);
    let d = decimal(n);
    assert forall|i: int| 0 <= i < d.len() implies !is_space(#[trigger] d[i]) by {
        assert(is_digit(d[i]));
    }
}

proof fn lemma_affinity_words()
    ensures
        "core "@ == "core"@ + spaces(1),
        " out of range (machine has "@ == spaces(1) + "out"@ + spaces(1) + "of"@ + spaces(1)
            + "range"@ + spaces(1) + "(machine"@ + spaces(1) + "has"@ + spaces(1),
        one_word("core"@),
        one_word("out"@),
        one_word("of"@),
        one_word("range"@),
        one_word("(machine"@),
        one_word("has"@),
        one_word(")"@),
{
    reveal_strlit("core ");
    reveal_strlit("core");
    reveal_strlit(" out of range (machine has ");
    reveal_strlit("out");
    reveal_strlit("of");
    reveal_strlit("range");
    reveal_strlit("(machine");
    reveal_strlit("has");
    reveal_strlit(")");
}

} // verus!

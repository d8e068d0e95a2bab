//! The payout lifecycle state machine.
//!
//! A payout starts `Pending`, moves to `Processing` when a worker picks it
//! up, and ends in `Completed`, or in `Failed` on an unrecoverable error.
//! Transitions only move forward; a terminal status is never left.

use vstd::prelude::*;

verus! {

#[derive(Clone, Copy, Debug, PartialEq, Eq, Structural)]
pub enum PayoutStatus {
    Pending,
    Processing,
    Completed,
    Failed,
}

/// Position of a status along the lifecycle; terminal states share the
/// final rank, since neither can be reached from the other.
pub open spec fn status_rank(s: PayoutStatus) -> int {
    match s {
        PayoutStatus::Pending => 0,
        PayoutStatus::Processing => 1,
        PayoutStatus::Completed => 2,
        PayoutStatus::Failed => 2,
    }
}

pub open spec fn is_terminal(s: PayoutStatus) -> bool {
    s == PayoutStatus::Completed || s == PayoutStatus::Failed
}

/// The forward transition relation of the lifecycle:
/// `Pending -> Processing -> Completed`, with `Pending | Processing -> Failed`.
pub open spec fn can_transition(from: PayoutStatus, to: PayoutStatus) -> bool {
    ||| (from == PayoutStatus::Pending && to == PayoutStatus::Processing)
    ||| (from == PayoutStatus::Pending && to == PayoutStatus::Failed)
    ||| (from == PayoutStatus::Processing && to == PayoutStatus::Completed)
    ||| (from == PayoutStatus::Processing && to == PayoutStatus::Failed)
}

impl PayoutStatus {
    /// Decides whether the lifecycle allows moving from `self` to `to`.
    pub fn allows_transition_to(&self, to: PayoutStatus) -> (r: bool)
        ensures
            r == can_transition(*self, to),
    {
        match (*self, to) {
            (PayoutStatus::Pending, PayoutStatus::Processing) => true,
            (PayoutStatus::Pending, PayoutStatus::Failed) => true,
            (PayoutStatus::Processing, PayoutStatus::Completed) => true,
            (PayoutStatus::Processing, PayoutStatus::Failed) => true,
            _ => false,
        }
    }

    /// The display name of the status variant.
    pub fn label(&self) -> (r: String)
        ensures
            r@ == status_label(*self),
    {
        proof {
            reveal_strlit("Pending");
            reveal_strlit("Processing");
            reveal_strlit("Completed");
            reveal_strlit("Failed");
        }
        match self {
            PayoutStatus::Pending => String::from_str("Pending"),
            PayoutStatus::Processing => String::from_str("Processing"),
            PayoutStatus::Completed => String::from_str("Completed"),
            PayoutStatus::Failed => String::from_str("Failed"),
        }
    }
}

pub open spec fn status_label(s: PayoutStatus) -> Seq<char> {
    match s {
        PayoutStatus::Pending => "Pending"@,
        PayoutStatus::Processing => "Processing"@,
        PayoutStatus::Completed => "Completed"@,
        PayoutStatus::Failed => "Failed"@,
    }
}

/// Every allowed transition strictly increases the rank: the lifecycle
/// never revisits or re-enters an earlier stage.
pub proof fn lemma_transition_strictly_forward(from: PayoutStatus, to: PayoutStatus)
    requires
        can_transition(from, to),
    ensures
        status_rank(from) < status_rank(to),
        !is_terminal(from),
{
}

/// `s` is a subsequence of `t`: the elements of `s` occur in `t`, in
/// order.
pub open spec fn is_subsequence(s: Seq<PayoutStatus>, t: Seq<PayoutStatus>) -> bool
    decreases s.len() + t.len(),
{
    if s.len() == 0 {
        true
    } else if t.len() == 0 {
        false
    } else if s[0] == t[0] {
        is_subsequence(s.subrange(1, s.len() as int), t.subrange(1, t.len() as int))
    } else {
        is_subsequence(s, t.subrange(1, t.len() as int))
    }
}

/// Status monotonicity: a record's observed status history — starting at
/// `Pending` on creation, each later observation one allowed transition
/// after the one before — is a subsequence of
/// `Pending, Processing, Completed` or of `Pending, Processing, Failed`;
/// it never reverses.
pub proof fn lemma_status_monotonicity(h: Seq<PayoutStatus>)
    requires
        h.len() >= 1,
        h[0] == PayoutStatus::Pending,
        forall|i: int| 0 <= i < h.len() - 1 ==> can_transition(#[trigger] h[i], h[i + 1]),
    ensures
        is_subsequence(h, seq![PayoutStatus::Pending, PayoutStatus::Processing,
            PayoutStatus::Completed])
        || is_subsequence(h, seq![PayoutStatus::Pending, PayoutStatus::Processing,
            PayoutStatus::Failed]),
{
    reveal_with_fuel(is_subsequence, 8);
    let ok = seq![PayoutStatus::Pending, PayoutStatus::Processing, PayoutStatus::Completed];
    let bad = seq![PayoutStatus::Pending, PayoutStatus::Processing, PayoutStatus::Failed];
    if h.len() >= 4 {
        // ranks rise strictly, but only three ranks exist
        assert(can_transition(h[0], h[1]));
        assert(can_transition(h[1], h[2]));
        assert(can_transition(h[2], h[3]));
        assert(false);
    } else if h.len() == 1 {
        assert(h =~= seq![PayoutStatus::Pending]);
        assert(is_subsequence(h, ok));
    } else if h.len() == 2 {
        assert(can_transition(h[0], h[1]));
        if h[1] == PayoutStatus::Processing {
            assert(h =~= seq![PayoutStatus::Pending, PayoutStatus::Processing]);
            assert(is_subsequence(h, ok));
        } else {
            assert(h =~= seq![PayoutStatus::Pending, PayoutStatus::Failed]);
            assert(is_subsequence(h, bad));
        }
    } else {
        assert(can_transition(h[0], h[1]));
        assert(can_transition(h[1], h[2]));
        assert(h[1] == PayoutStatus::Processing);
        if h[2] == PayoutStatus::Completed {
            assert(h =~= ok);
            assert(is_subsequence(h, ok));
        } else {
            assert(h =~= bad);
            assert(is_subsequence(h, bad));
        }
    }
}

} // verus!

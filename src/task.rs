use vstd::prelude::*;

verus! {

/// A unit of work submitted on behalf of one user.
///
/// The priority is carried as the bit pattern of an IEEE-754 single
/// precision number (`f32::to_bits`); it is informational only and never
/// influences scheduling.
#[derive(Debug)]
pub struct Task {
    pub task_id: String,
    pub user_id: String,
    pub priority_bits: u32,
}

impl Task {
    pub fn new(task_id: String, user_id: String, priority_bits: u32) -> (t: Task)
        ensures
            t.task_id@ == task_id@,
            t.user_id@ == user_id@,
            t.priority_bits == priority_bits,
    {
        Task { task_id, user_id, priority_bits }
    }

    pub fn get_user_id(&self) -> (r: &String)
        ensures
            r@ == self.user_id@,
    {
        &self.user_id
    }
}

/// The priority bit pattern encodes a NaN.
pub open spec fn is_nan_bits(p: u32) -> bool {
    (p & 0x7fff_ffffu32) > 0x7f80_0000u32
}

/// Two priority bit patterns compare equal as floating-point numbers: neither
/// is a NaN, and they are the same pattern or both are zeros of either sign.
pub open spec fn same_priority(a: u32, b: u32) -> bool {
    !is_nan_bits(a) && !is_nan_bits(b) && (a == b || ((a & 0x7fff_ffffu32) == 0 && (b
        & 0x7fff_ffffu32) == 0))
}

fn priority_eq(a: u32, b: u32) -> (r: bool)
    ensures
        r == same_priority(a, b),
{
    let a_nan = (a & 0x7fff_ffffu32) > 0x7f80_0000u32;
    let b_nan = (b & 0x7fff_ffffu32) > 0x7f80_0000u32;
    !a_nan && !b_nan && (a == b || ((a & 0x7fff_ffffu32) == 0 && (b & 0x7fff_ffffu32) == 0))
}

/// Two tasks are equal when they have the same identifier and priorities
/// that compare equal as floating-point numbers; the owning user takes no
/// part in the comparison.
impl PartialEq for Task {
    fn eq(&self, other: &Task) -> (r: bool) {
        self.task_id == other.task_id && priority_eq(self.priority_bits, other.priority_bits)
    }
}

impl vstd::std_specs::cmp::PartialEqSpecImpl for Task {
    open spec fn obeys_eq_spec() -> bool {
        true
    }

    open spec fn eq_spec(&self, other: &Task) -> bool {
        self.task_id@ == other.task_id@ && same_priority(self.priority_bits, other.priority_bits)
    }
}

} // verus!

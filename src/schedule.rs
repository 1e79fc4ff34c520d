//! The boundary towards the external scheduling engine: what is sent, and where.

use vstd::prelude::*;

verus! {

/// Address of the scheduling engine.
pub fn scheduler_endpoint() -> (r: &'static str)
    ensures
        r@ == "http://[::1]:10000"@,
{
    "http://[::1]:10000"
}

/// A bookable slot offered to the engine: `[start, end)` and how many games
/// may run in it at once.
#[derive(Clone, Copy, Debug, PartialEq, Eq, Structural)]
pub struct SlotRequest {
    pub start: i64,
    pub end: i64,
    pub concurrency: u32,
}

/// A field offered to the engine, with its slots.
#[derive(Clone, Debug, PartialEq, Eq)]
pub struct FieldRequest {
    pub unique_id: i32,
    pub time_slots: Vec<SlotRequest>,
}

/// One scheduling problem: fields, and groups of team identities that play each other.
#[derive(Clone, Debug, PartialEq, Eq)]
pub struct ScheduleInput {
    pub fields: Vec<FieldRequest>,
    pub team_groups: Vec<Vec<i32>>,
}

/// A scheduling problem tagged with its position in the stream.
#[derive(Clone, Debug, PartialEq, Eq)]
pub struct ScheduleMessage {
    pub unique_id: u32,
    pub input: ScheduleInput,
}

/// Tags each input with its zero-based position, in order.
pub fn schedule_messages(inputs: Vec<ScheduleInput>) -> (r: Vec<ScheduleMessage>)
    requires
        inputs@.len() <= u32::MAX + 1,
    ensures
        r@.len() == inputs@.len(),
        forall|i: int| 0 <= i < r@.len() ==> (#[trigger] r@[i]).unique_id == i && r@[i].input == inputs@[i],
{
    let total: usize = inputs.len();
    let mut rest = inputs;
    let ghost all = rest@;
    let mut out: Vec<ScheduleMessage> = Vec::new();
    let mut reversed: Vec<ScheduleInput> = Vec::new();
    while rest.len() > 0
        invariant
            reversed@.len() + rest@.len() == all.len(),
            all.len() == total,
            rest@ == all.take(rest@.len() as int),
            forall|k: int| 0 <= k < reversed@.len() ==> #[trigger] reversed@[k] == all[all.len() - 1 - k],
        decreases rest@.len(),
    {
        let x = rest.pop().unwrap();
        reversed.push(x);
        proof {
            assert(rest@ =~= all.take(rest@.len() as int));
        }
    }
    let mut i: usize = 0;
    let ghost n = all.len();
    while reversed.len() > 0
        invariant
            n == all.len(),
            n == total,
            n <= u32::MAX + 1,
            out@.len() == i,
            i + reversed@.len() == n,
            forall|k: int| 0 <= k < reversed@.len() ==> #[trigger] reversed@[k] == all[n - 1 - k],
            forall|k: int| 0 <= k < out@.len() ==> (#[trigger] out@[k]).unique_id == k && out@[k].input == all[k],
        decreases reversed@.len(),
    {
        let x = reversed.pop().unwrap();
        let ghost at = i as int;
        out.push(ScheduleMessage { unique_id: i as u32, input: x });
        i = i + 1;
        proof {
            assert(out@[at].input == all[at]);
        }
    }
    out
}

} // verus!

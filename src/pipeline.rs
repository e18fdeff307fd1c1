//! Control of the displacement pipeline: dispatch state, workgroup sizing and
//! the batching of settings changes into buffer writes.

use vstd::prelude::*;

verus! {

/// Threads per workgroup of every compute stage.
pub const WORKGROUP_SIZE: usize = 64;

/// Capacity of the crater buffer.
pub const MAX_CRATER: usize = 2000;

/// Number of workgroups that cover `items` work items, one item per thread.
pub open spec fn workgroups_for(items: int) -> int {
    (items + WORKGROUP_SIZE - 1) / (WORKGROUP_SIZE as int)
}

/// Workgroups to dispatch so that every one of `items` items gets a thread
/// and no workgroup is left without work.
pub fn workgroup_count(items: usize) -> (r: usize)
    ensures
        r == workgroups_for(items as int),
        r * WORKGROUP_SIZE >= items,
        items > 0 ==> (r - 1) * WORKGROUP_SIZE < items,
{
    let r = items / WORKGROUP_SIZE + if items % WORKGROUP_SIZE == 0 { 0 } else { 1 };
    r
}

/// The number of craters the pipeline is given: the request, clamped to the
/// crater buffer's capacity.
pub fn clamp_crater_count(requested: usize) -> (r: usize)
    ensures
        r <= MAX_CRATER,
        requested <= MAX_CRATER ==> r == requested,
        requested > MAX_CRATER ==> r == MAX_CRATER,
{
    if requested > MAX_CRATER {
        MAX_CRATER
    } else {
        requested
    }
}

/// Offset between the shared seed and the crater generator's seed, so that
/// crater draws are independent of the noise offsets drawn from the seed.
pub const CRATER_SEED_OFFSET: u64 = 2;

/// Seed of the crater generator's random number generator for the shared
/// seed `seed` (wrapping at the top of the `u64` range).
pub fn crater_rng_seed(seed: u64) -> (r: u64)
    ensures
        r as int == (seed as int + CRATER_SEED_OFFSET) % 0x1_0000_0000_0000_0000int,
{
    seed.wrapping_add(CRATER_SEED_OFFSET)
}

/// Where the displacement pipeline stands.
#[derive(Clone, Copy, Debug, PartialEq, Eq, Structural)]
pub enum PipelineState {
    /// Built, or its last result has been read back.
    Idle,
    /// A run of the three stages was requested and has not completed.
    Dispatched,
    /// The device has signalled completion; the result may be read back.
    Ready,
}

/// The persistent parameter buffers of the pipeline that settings changes
/// overwrite.
#[derive(Clone, Copy, Debug, PartialEq, Eq, Structural)]
pub enum ParamBuffer {
    NoiseParamsShape,
    NoiseParamsRidge,
    NoiseParamsRidge2,
    MaxStrength,
    NumCraters,
    RimSteepness,
    RimWidth,
    Craters,
}

impl ParamBuffer {
    /// Name of the buffer in the compute worker.
    pub fn name(&self) -> (r: &'static str)
        ensures
            r@ == buffer_name(*self)@,
    {
        proof {
            reveal_strlit("noise_params_shape");
            reveal_strlit("noise_params_ridge");
            reveal_strlit("noise_params_ridge2");
            reveal_strlit("max_strength");
            reveal_strlit("num_craters");
            reveal_strlit("rim_steepness");
            reveal_strlit("rim_width");
            reveal_strlit("craters");
        }
        match self {
            ParamBuffer::NoiseParamsShape => "noise_params_shape",
            ParamBuffer::NoiseParamsRidge => "noise_params_ridge",
            ParamBuffer::NoiseParamsRidge2 => "noise_params_ridge2",
            ParamBuffer::MaxStrength => "max_strength",
            ParamBuffer::NumCraters => "num_craters",
            ParamBuffer::RimSteepness => "rim_steepness",
            ParamBuffer::RimWidth => "rim_width",
            ParamBuffer::Craters => "craters",
        }
    }
}

pub open spec fn buffer_name(b: ParamBuffer) -> &'static str {
    match b {
        ParamBuffer::NoiseParamsShape => "noise_params_shape",
        ParamBuffer::NoiseParamsRidge => "noise_params_ridge",
        ParamBuffer::NoiseParamsRidge2 => "noise_params_ridge2",
        ParamBuffer::MaxStrength => "max_strength",
        ParamBuffer::NumCraters => "num_craters",
        ParamBuffer::RimSteepness => "rim_steepness",
        ParamBuffer::RimWidth => "rim_width",
        ParamBuffer::Craters => "craters",
    }
}

/// Number of parameter buffers.
pub const NUM_PARAM_BUFFERS: usize = 8;

pub open spec fn buffer_of(i: int) -> ParamBuffer {
    if i == 0 {
        ParamBuffer::NoiseParamsShape
    } else if i == 1 {
        ParamBuffer::NoiseParamsRidge
    } else if i == 2 {
        ParamBuffer::NoiseParamsRidge2
    } else if i == 3 {
        ParamBuffer::MaxStrength
    } else if i == 4 {
        ParamBuffer::NumCraters
    } else if i == 5 {
        ParamBuffer::RimSteepness
    } else if i == 6 {
        ParamBuffer::RimWidth
    } else {
        ParamBuffer::Craters
    }
}

/// The buffers in the fixed order in which a tick writes them.
pub fn param_buffer(i: usize) -> (r: ParamBuffer)
    requires
        i < NUM_PARAM_BUFFERS,
    ensures
        r == buffer_of(i as int),
{
    match i {
        0 => ParamBuffer::NoiseParamsShape,
        1 => ParamBuffer::NoiseParamsRidge,
        2 => ParamBuffer::NoiseParamsRidge2,
        3 => ParamBuffer::MaxStrength,
        4 => ParamBuffer::NumCraters,
        5 => ParamBuffer::RimSteepness,
        6 => ParamBuffer::RimWidth,
        _ => ParamBuffer::Craters,
    }
}

/// Which of the two ridge noise layers a change is for.
#[derive(Clone, Copy, Debug, PartialEq, Eq, Structural)]
pub enum RidgeLayer {
    First,
    Second,
}

/// A typed settings-change notification; the new settings themselves travel
/// beside it.
#[derive(Clone, Copy, Debug, PartialEq, Eq, Structural)]
pub enum SettingsChange {
    Craters,
    SimpleNoise,
    RidgeNoise(RidgeLayer),
    PerturbStrength,
}

/// Whether change `c` rewrites buffer `b`.
pub open spec fn affects(c: SettingsChange, b: ParamBuffer) -> bool {
    match c {
        SettingsChange::Craters => b == ParamBuffer::NumCraters || b == ParamBuffer::RimSteepness
            || b == ParamBuffer::RimWidth || b == ParamBuffer::Craters,
        SettingsChange::SimpleNoise => b == ParamBuffer::NoiseParamsShape,
        SettingsChange::RidgeNoise(RidgeLayer::First) => b == ParamBuffer::NoiseParamsRidge,
        SettingsChange::RidgeNoise(RidgeLayer::Second) => b == ParamBuffer::NoiseParamsRidge2,
        SettingsChange::PerturbStrength => b == ParamBuffer::MaxStrength,
    }
}

pub fn change_affects(c: SettingsChange, b: ParamBuffer) -> (r: bool)
    ensures
        r == affects(c, b),
{
    match c {
        SettingsChange::Craters => match b {
            ParamBuffer::NumCraters | ParamBuffer::RimSteepness | ParamBuffer::RimWidth
            | ParamBuffer::Craters => true,
            _ => false,
        },
        SettingsChange::SimpleNoise => match b {
            ParamBuffer::NoiseParamsShape => true,
            _ => false,
        },
        SettingsChange::RidgeNoise(RidgeLayer::First) => match b {
            ParamBuffer::NoiseParamsRidge => true,
            _ => false,
        },
        SettingsChange::RidgeNoise(RidgeLayer::Second) => match b {
            ParamBuffer::NoiseParamsRidge2 => true,
            _ => false,
        },
        SettingsChange::PerturbStrength => match b {
            ParamBuffer::MaxStrength => true,
            _ => false,
        },
    }
}

/// One buffer write of a tick: `buffer` gets the value derived from the
/// change at position `source` of the tick's events.
#[derive(Clone, Copy, Debug, PartialEq, Eq, Structural)]
pub struct BufferWrite {
    pub buffer: ParamBuffer,
    pub source: usize,
}

/// What a tick does: the writes, in buffer order, then at most one dispatch.
pub struct TickPlan {
    pub writes: Vec<BufferWrite>,
    pub dispatch: bool,
}

/// The last change among the first `upto` events that rewrites `b`, if any.
pub open spec fn last_change_for(events: Seq<SettingsChange>, b: ParamBuffer, upto: int) -> Option<int>
    decreases upto,
{
    if upto <= 0 {
        None
    } else if affects(events[upto - 1], b) {
        Some(upto - 1)
    } else {
        last_change_for(events, b, upto - 1)
    }
}

/// The writes for buffers `0..upto`: one per buffer that some event rewrites,
/// taking the last such event's value.
pub open spec fn planned_writes(events: Seq<SettingsChange>, upto: int) -> Seq<BufferWrite>
    decreases upto,
{
    if upto <= 0 {
        Seq::empty()
    } else {
        let b = buffer_of(upto - 1);
        match last_change_for(events, b, events.len() as int) {
            Some(i) => planned_writes(events, upto - 1).push(BufferWrite { buffer: b, source: i as usize }),
            None => planned_writes(events, upto - 1),
        }
    }
}

/// Position of `b` in the fixed buffer order.
pub open spec fn buffer_index(b: ParamBuffer) -> int {
    match b {
        ParamBuffer::NoiseParamsShape => 0,
        ParamBuffer::NoiseParamsRidge => 1,
        ParamBuffer::NoiseParamsRidge2 => 2,
        ParamBuffer::MaxStrength => 3,
        ParamBuffer::NumCraters => 4,
        ParamBuffer::RimSteepness => 5,
        ParamBuffer::RimWidth => 6,
        ParamBuffer::Craters => 7,
    }
}

proof fn lemma_last_change(events: Seq<SettingsChange>, b: ParamBuffer, upto: int)
    requires
        0 <= upto <= events.len(),
    ensures
        match last_change_for(events, b, upto) {
            Some(i) => 0 <= i < upto && affects(events[i], b) && forall|j: int|
                i < j < upto ==> !affects(#[trigger] events[j], b),
            None => forall|j: int| 0 <= j < upto ==> !affects(#[trigger] events[j], b),
        },
    decreases upto,
{
    if upto > 0 {
        lemma_last_change(events, b, upto - 1);
    }
}

proof fn lemma_planned_shape(events: Seq<SettingsChange>, upto: int)
    requires
        0 <= upto <= NUM_PARAM_BUFFERS,
        events.len() <= usize::MAX,
    ensures
        forall|k: int|
            0 <= k < planned_writes(events, upto).len() ==> buffer_index(
                (#[trigger] planned_writes(events, upto)[k]).buffer,
            ) < upto && last_change_for(events, planned_writes(events, upto)[k].buffer, events.len() as int)
                == Some(planned_writes(events, upto)[k].source as int),
        forall|k: int, l: int|
            0 <= k < l < planned_writes(events, upto).len() ==> buffer_index(
                (#[trigger] planned_writes(events, upto)[k]).buffer,
            ) < buffer_index((#[trigger] planned_writes(events, upto)[l]).buffer),
        forall|b: ParamBuffer|
            buffer_index(b) < upto && (#[trigger] last_change_for(events, b, events.len() as int)).is_some()
                ==> exists|k: int|
                0 <= k < planned_writes(events, upto).len() && (#[trigger] planned_writes(events, upto)[k]).buffer
                    == b,
    decreases upto,
{
    if upto > 0 {
        lemma_planned_shape(events, upto - 1);
        let b = buffer_of(upto - 1);
        assert(buffer_index(b) == upto - 1);
        lemma_last_change(events, b, events.len() as int);
        let prev = planned_writes(events, upto - 1);
        let cur = planned_writes(events, upto);
        assert forall|bb: ParamBuffer|
            buffer_index(bb) < upto && (#[trigger] last_change_for(events, bb, events.len() as int)).is_some()
                implies exists|k: int| 0 <= k < cur.len() && (#[trigger] cur[k]).buffer == bb by {
            if buffer_index(bb) < upto - 1 {
                let k = choose|k: int| 0 <= k < prev.len() && (#[trigger] prev[k]).buffer == bb;
                assert(cur[k] == prev[k]);
            } else {
                assert(bb == b);
                assert(cur[prev.len() as int].buffer == bb);
            }
        }
    }
}

/// Within one tick each buffer is written at most once; it is written
/// exactly when some change of the tick rewrites it, and then with the value
/// of the last such change in arrival order.
pub proof fn lemma_last_write_wins(events: Seq<SettingsChange>, b: ParamBuffer)
    requires
        events.len() <= usize::MAX,
    ensures
        forall|k: int, l: int|
            0 <= k < planned_writes(events, NUM_PARAM_BUFFERS as int).len() && 0 <= l
                < planned_writes(events, NUM_PARAM_BUFFERS as int).len() && (#[trigger] planned_writes(
                events,
                NUM_PARAM_BUFFERS as int,
            )[k]).buffer == b && (#[trigger] planned_writes(events, NUM_PARAM_BUFFERS as int)[l]).buffer
                == b ==> k == l,
        (exists|k: int|
            0 <= k < planned_writes(events, NUM_PARAM_BUFFERS as int).len() && (#[trigger] planned_writes(
                events,
                NUM_PARAM_BUFFERS as int,
            )[k]).buffer == b) <==> (exists|e: int| 0 <= e < events.len() && affects(#[trigger] events[e], b)),
        forall|k: int|
            0 <= k < planned_writes(events, NUM_PARAM_BUFFERS as int).len() && (#[trigger] planned_writes(
                events,
                NUM_PARAM_BUFFERS as int,
            )[k]).buffer == b ==> {
                let src = planned_writes(events, NUM_PARAM_BUFFERS as int)[k].source as int;
                &&& 0 <= src < events.len()
                &&& affects(events[src], b)
                &&& forall|e: int| src < e < events.len() ==> !affects(#[trigger] events[e], b)
            },
{
    let w = planned_writes(events, NUM_PARAM_BUFFERS as int);
    lemma_planned_shape(events, NUM_PARAM_BUFFERS as int);
    lemma_last_change(events, b, events.len() as int);
    assert forall|k: int, l: int|
        0 <= k < w.len() && 0 <= l < w.len() && (#[trigger] w[k]).buffer == b && (#[trigger] w[l]).buffer == b
            implies k == l by {
        if k < l {
            assert(buffer_index(w[k].buffer) < buffer_index(w[l].buffer));
        } else if l < k {
            assert(buffer_index(w[l].buffer) < buffer_index(w[k].buffer));
        }
    }
    if exists|e: int| 0 <= e < events.len() && affects(#[trigger] events[e], b) {
        let e = choose|e: int| 0 <= e < events.len() && affects(#[trigger] events[e], b);
        assert(last_change_for(events, b, events.len() as int).is_some());
    }
    if exists|k: int| 0 <= k < w.len() && (#[trigger] w[k]).buffer == b {
        let k = choose|k: int| 0 <= k < w.len() && (#[trigger] w[k]).buffer == b;
        let i = last_change_for(events, b, events.len() as int)->Some_0;
        assert(affects(events[i], b));
    }
}

fn last_change(events: &Vec<SettingsChange>, b: ParamBuffer) -> (r: Option<usize>)
    ensures
        match last_change_for(events@, b, events@.len() as int) {
            Some(i) => r == Some(i as usize),
            None => r.is_none(),
        },
{
    let mut k: usize = events.len();
    while k > 0
        invariant
            k <= events@.len(),
            last_change_for(events@, b, events@.len() as int) == last_change_for(events@, b, k as int),
        decreases k,
    {
        if change_affects(events[k - 1], b) {
            return Some(k - 1);
        }
        k -= 1;
    }
    None
}

/// Plans one processing tick: the changes are applied in arrival order, so
/// for each buffer the last change that touches it wins, and the tick
/// dispatches once if any change arrived.
pub fn plan_tick(events: &Vec<SettingsChange>) -> (r: TickPlan)
    ensures
        r.writes@ == planned_writes(events@, NUM_PARAM_BUFFERS as int),
        r.dispatch == (events@.len() > 0),
{
    let mut writes: Vec<BufferWrite> = Vec::new();
    let mut i: usize = 0;
    while i < NUM_PARAM_BUFFERS
        invariant
            i <= NUM_PARAM_BUFFERS,
            writes@ == planned_writes(events@, i as int),
        decreases NUM_PARAM_BUFFERS - i,
    {
        let b = param_buffer(i);
        match last_change(events, b) {
            Some(source) => writes.push(BufferWrite { buffer: b, source }),
            None => {},
        }
        i += 1;
    }
    TickPlan { writes, dispatch: events.len() > 0 }
}

/// The displacement pipeline's control state: it is dispatched as a whole,
/// completes on the device's signal, and is read back once ready.
pub struct AsteroidComputeWorker {
    pub state: PipelineState,
}

impl AsteroidComputeWorker {
    /// A freshly built pipeline, with nothing dispatched.
    pub fn new() -> (r: AsteroidComputeWorker)
        ensures
            r.state == PipelineState::Idle,
    {
        AsteroidComputeWorker { state: PipelineState::Idle }
    }

    /// Requests one run of the three stages. A run still in flight is
    /// superseded: the pipeline is dispatched again.
    pub fn execute(&mut self)
        ensures
            final(self).state == PipelineState::Dispatched,
    {
        self.state = PipelineState::Dispatched;
    }

    /// The device signals that the dispatched run has completed.
    pub fn complete(&mut self)
        ensures
            old(self).state == PipelineState::Dispatched ==> final(self).state == PipelineState::Ready,
            old(self).state != PipelineState::Dispatched ==> final(self).state == old(self).state,
    {
        if self.state == PipelineState::Dispatched {
            self.state = PipelineState::Ready;
        }
    }

    /// Non-blocking: whether the result of the last run can be read back.
    pub fn ready(&self) -> (r: bool)
        ensures
            r == (self.state == PipelineState::Ready),
    {
        self.state == PipelineState::Ready
    }

    /// Takes the result of a completed run: returns whether there was one,
    /// and if so the pipeline goes back to idle.
    pub fn take_result(&mut self) -> (r: bool)
        ensures
            r == (old(self).state == PipelineState::Ready),
            r ==> final(self).state == PipelineState::Idle,
            !r ==> final(self).state == old(self).state,
    {
        if self.state == PipelineState::Ready {
            self.state = PipelineState::Idle;
            true
        } else {
            false
        }
    }

    /// Processes one tick's settings changes: plans the buffer writes and,
    /// if any change arrived, dispatches exactly once.
    pub fn apply_changes(&mut self, events: &Vec<SettingsChange>) -> (r: TickPlan)
        ensures
            r.writes@ == planned_writes(events@, NUM_PARAM_BUFFERS as int),
            r.dispatch == (events@.len() > 0),
            r.dispatch ==> final(self).state == PipelineState::Dispatched,
            !r.dispatch ==> final(self).state == old(self).state,
    {
        let plan = plan_tick(events);
        if plan.dispatch {
            self.execute();
        }
        plan
    }
}

} // verus!

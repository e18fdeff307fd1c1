use asteroid_gen::pipeline::{
    clamp_crater_count, crater_rng_seed, plan_tick, workgroup_count, AsteroidComputeWorker,
    BufferWrite, ParamBuffer, PipelineState, RidgeLayer, SettingsChange, MAX_CRATER,
};

#[test]
fn workgroups_cover_every_item() {
    assert_eq!(workgroup_count(0), 0);
    assert_eq!(workgroup_count(1), 1);
    assert_eq!(workgroup_count(64), 1);
    assert_eq!(workgroup_count(65), 2);
    assert_eq!(workgroup_count(643_206), 10_051);
}

#[test]
fn crater_count_is_clamped_to_capacity() {
    assert_eq!(clamp_crater_count(0), 0);
    assert_eq!(clamp_crater_count(5), 5);
    assert_eq!(clamp_crater_count(MAX_CRATER), MAX_CRATER);
    assert_eq!(clamp_crater_count(MAX_CRATER + 1), MAX_CRATER);
}

#[test]
fn crater_seed_is_offset_from_shared_seed() {
    assert_eq!(crater_rng_seed(2), 4);
    assert_eq!(crater_rng_seed(0), 2);
    assert_eq!(crater_rng_seed(u64::MAX), 1);
}

#[test]
fn empty_tick_writes_nothing() {
    let plan = plan_tick(&vec![]);
    assert!(plan.writes.is_empty());
    assert!(!plan.dispatch);
}

#[test]
fn last_change_wins_and_dispatch_once() {
    let events = vec![
        SettingsChange::Craters,
        SettingsChange::SimpleNoise,
        SettingsChange::RidgeNoise(RidgeLayer::Second),
        SettingsChange::Craters,
        SettingsChange::SimpleNoise,
    ];
    let plan = plan_tick(&events);
    assert!(plan.dispatch);
    assert_eq!(
        plan.writes,
        vec![
            BufferWrite { buffer: ParamBuffer::NoiseParamsShape, source: 4 },
            BufferWrite { buffer: ParamBuffer::NoiseParamsRidge2, source: 2 },
            BufferWrite { buffer: ParamBuffer::NumCraters, source: 3 },
            BufferWrite { buffer: ParamBuffer::RimSteepness, source: 3 },
            BufferWrite { buffer: ParamBuffer::RimWidth, source: 3 },
            BufferWrite { buffer: ParamBuffer::Craters, source: 3 },
        ]
    );
}

#[test]
fn each_change_kind_writes_its_buffers() {
    let plan = plan_tick(&vec![SettingsChange::PerturbStrength]);
    assert_eq!(plan.writes, vec![BufferWrite { buffer: ParamBuffer::MaxStrength, source: 0 }]);
    let plan = plan_tick(&vec![SettingsChange::RidgeNoise(RidgeLayer::First)]);
    assert_eq!(plan.writes, vec![BufferWrite { buffer: ParamBuffer::NoiseParamsRidge, source: 0 }]);
}

#[test]
fn buffer_names() {
    assert_eq!(ParamBuffer::NoiseParamsShape.name(), "noise_params_shape");
    assert_eq!(ParamBuffer::NoiseParamsRidge2.name(), "noise_params_ridge2");
    assert_eq!(ParamBuffer::Craters.name(), "craters");
}

#[test]
fn worker_state_machine() {
    let mut worker = AsteroidComputeWorker::new();
    assert_eq!(worker.state, PipelineState::Idle);
    assert!(!worker.ready());
    worker.complete();
    assert_eq!(worker.state, PipelineState::Idle);
    worker.execute();
    assert_eq!(worker.state, PipelineState::Dispatched);
    assert!(!worker.take_result());
    worker.complete();
    assert!(worker.ready());
    // A new dispatch while a result is pending supersedes it.
    worker.execute();
    assert!(!worker.ready());
    worker.complete();
    assert!(worker.take_result());
    assert_eq!(worker.state, PipelineState::Idle);
    assert!(!worker.take_result());
}

#[test]
fn applying_changes_dispatches_only_when_something_changed() {
    let mut worker = AsteroidComputeWorker::new();
    let plan = worker.apply_changes(&vec![]);
    assert!(!plan.dispatch);
    assert_eq!(worker.state, PipelineState::Idle);
    let plan = worker.apply_changes(&vec![SettingsChange::Craters, SettingsChange::Craters]);
    assert!(plan.dispatch);
    assert_eq!(plan.writes.len(), 4);
    assert!(plan.writes.iter().all(|w| w.source == 1));
    assert_eq!(worker.state, PipelineState::Dispatched);
}

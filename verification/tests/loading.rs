use mesh_browser::loading::{
    is_loading, unload_current_visualization, update_loading_data, update_pipelines_ready,
    LoadingData, LoadingState, PipelinesReady, DEFAULT_CONFIRMATION_FRAMES,
};

fn tick(data: &mut LoadingData, state: &mut LoadingState, ready: &PipelinesReady) {
    update_loading_data(data, state, &Vec::new(), ready);
}

#[test]
fn ready_comes_on_the_fifth_clean_frame_and_not_before() {
    let mut data = LoadingData::new(5);
    let mut state = LoadingState::default();
    let mut ready = PipelinesReady::default();
    data.add_asset(1);
    data.add_asset(2);
    update_pipelines_ready(&mut ready, 0);
    for _ in 0..5 {
        tick(&mut data, &mut state, &ready);
        assert_eq!(state, LoadingState::Loading);
    }
    data.mark_complete(1);
    data.mark_complete(2);
    for frame in 1..=5 {
        tick(&mut data, &mut state, &ready);
        if frame < 5 {
            assert_eq!(state, LoadingState::Loading, "frame {}", frame);
        } else {
            assert_eq!(state, LoadingState::Ready);
        }
        assert_eq!(data.confirmation_frames_count(), frame);
    }
}

#[test]
fn a_registration_after_ready_forces_loading_on_the_next_frame() {
    let mut data = LoadingData::new(5);
    let mut state = LoadingState::Loading;
    let ready = PipelinesReady(true);
    for _ in 0..5 {
        tick(&mut data, &mut state, &ready);
    }
    assert_eq!(state, LoadingState::Ready);
    data.add_asset(3);
    assert_eq!(data.confirmation_frames_count(), 0);
    tick(&mut data, &mut state, &ready);
    assert_eq!(state, LoadingState::Loading);
}

#[test]
fn ready_stays_ready_on_further_clean_frames() {
    let mut data = LoadingData::new(2);
    let mut state = LoadingState::Loading;
    let ready = PipelinesReady(true);
    for _ in 0..10 {
        tick(&mut data, &mut state, &ready);
    }
    assert_eq!(state, LoadingState::Ready);
    assert_eq!(data.confirmation_frames_count(), 2);
}

#[test]
fn pipelines_that_are_not_ready_keep_the_status_at_loading() {
    let mut data = LoadingData::new(1);
    let mut state = LoadingState::Ready;
    let mut ready = PipelinesReady::default();
    assert!(!ready.0);
    tick(&mut data, &mut state, &ready);
    assert_eq!(state, LoadingState::Loading);
    update_pipelines_ready(&mut ready, 3);
    assert!(!ready.0);
    tick(&mut data, &mut state, &ready);
    assert_eq!(state, LoadingState::Loading);
    update_pipelines_ready(&mut ready, 0);
    assert!(ready.0);
    tick(&mut data, &mut state, &ready);
    assert_eq!(state, LoadingState::Ready);
}

#[test]
fn an_interruption_starts_the_count_over() {
    let mut data = LoadingData::new(3);
    let mut state = LoadingState::Loading;
    tick(&mut data, &mut state, &PipelinesReady(true));
    tick(&mut data, &mut state, &PipelinesReady(true));
    assert_eq!(data.confirmation_frames_count(), 2);
    tick(&mut data, &mut state, &PipelinesReady(false));
    assert_eq!(data.confirmation_frames_count(), 0);
    tick(&mut data, &mut state, &PipelinesReady(true));
    tick(&mut data, &mut state, &PipelinesReady(true));
    assert_eq!(state, LoadingState::Loading);
    tick(&mut data, &mut state, &PipelinesReady(true));
    assert_eq!(state, LoadingState::Ready);
}

#[test]
fn loads_reported_as_loaded_stop_being_pending() {
    let mut data = LoadingData::new(1);
    let mut state = LoadingState::Loading;
    let ready = PipelinesReady(true);
    data.add_asset(10);
    data.add_asset(20);
    data.add_asset(30);
    update_loading_data(&mut data, &mut state, &vec![20, 99, 10], &ready);
    assert_eq!(state, LoadingState::Loading);
    assert_eq!(data.pending_assets(), vec![30]);
    update_loading_data(&mut data, &mut state, &vec![30], &ready);
    assert_eq!(state, LoadingState::Loading);
    assert!(!data.has_pending());
    update_loading_data(&mut data, &mut state, &vec![30], &ready);
    assert_eq!(state, LoadingState::Ready);
}

#[test]
fn registering_twice_is_registering_once() {
    let mut data = LoadingData::new(5);
    data.add_asset(7);
    data.add_asset(8);
    data.add_asset(7);
    assert_eq!(data.pending_assets(), vec![7, 8]);
    data.mark_complete(7);
    assert!(!data.is_pending(7));
    assert!(data.is_pending(8));
    assert_eq!(data.pending_assets(), vec![8]);
}

#[test]
fn the_completion_of_an_unknown_load_is_ignored() {
    let mut data = LoadingData::new(5);
    data.add_asset(1);
    data.mark_complete(2);
    assert_eq!(data.pending_assets(), vec![1]);
    data.clear();
    data.mark_complete(1);
    assert!(!data.has_pending());
    assert_eq!(data.confirmation_frames_count(), 0);
}

#[test]
fn completion_does_not_touch_the_count() {
    let mut data = LoadingData::new(5);
    let mut state = LoadingState::Loading;
    tick(&mut data, &mut state, &PipelinesReady(true));
    tick(&mut data, &mut state, &PipelinesReady(true));
    data.mark_complete(4);
    assert_eq!(data.confirmation_frames_count(), 2);
}

#[test]
fn a_target_of_zero_is_reached_by_the_first_clean_frame() {
    let mut data = LoadingData::new(0);
    let mut state = LoadingState::Loading;
    tick(&mut data, &mut state, &PipelinesReady(true));
    assert_eq!(state, LoadingState::Ready);
    assert_eq!(data.confirmation_frames_count(), 0);
}

#[test]
fn defaults() {
    assert_eq!(LoadingState::default(), LoadingState::Ready);
    assert!(!PipelinesReady::default().0);
    assert_eq!(DEFAULT_CONFIRMATION_FRAMES, 5);
    let data = LoadingData::default();
    assert_eq!(data.confirmation_frames_target(), 5);
    assert_eq!(data.confirmation_frames_count(), 0);
    assert!(!data.has_pending());
}

#[test]
fn unloading_sets_the_status_to_loading() {
    let mut state = LoadingState::Ready;
    assert!(!is_loading(&state));
    unload_current_visualization(&mut state);
    assert_eq!(state, LoadingState::Loading);
    assert!(is_loading(&state));
}

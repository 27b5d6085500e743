use bevy::render::render_resource::{Extent3d, TextureDimension, TextureFormat};
use rgis_basemap::basemap::{
    init_basemap, BasemapState, InitialBasemap, BASEMAP_Z_BITS, REFRESH_DEBOUNCE,
};
use rgis_basemap::latest::{Drain, Latest, Poll};
use rgis_basemap::render::{RenderRequest, RenderResponse};
use rgis_basemap::texture::{
    blank_rgba_image, rgba_to_image, BOTH_WORLDS, MAIN_WORLD, RENDER_WORLD,
};
use rgis_basemap::viewport::{Pose, PoseBits, TEXTURE_SIZE};
use rgis_basemap::worker::{
    polled, received, rendered, renderer_created, replied, runtime_built, started, WorkerNotice,
    WorkerTask,
};

const BYTES: usize = 1024 * 1024 * 4;
const MILLISECOND: u128 = 1_000_000;

fn bits(x: f32, y: f32, scale: f32) -> PoseBits {
    PoseBits {
        center_x: x.to_bits(),
        center_y: y.to_bits(),
        scale: scale.to_bits(),
    }
}

fn pose(x: f32, y: f32, scale: f32) -> Pose {
    Pose::new(bits(x, y, scale)).unwrap()
}

fn response(snapshot: Pose, shade: u8) -> RenderResponse {
    RenderResponse {
        rgba: vec![shade; BYTES],
        snapshot,
    }
}

fn fresh() -> BasemapState {
    init_basemap().state
}

#[test]
fn starts_blank() {
    let InitialBasemap {
        state,
        image,
        sprite,
        sprite_size,
    } = init_basemap();
    assert!(!state.in_flight);
    assert!(state.last_render.is_none());
    assert!(state.last_request_at.is_none());
    assert_eq!(image.data.as_ref().unwrap().len(), BYTES);
    assert!(image.data.unwrap().iter().all(|byte| *byte == 0));
    assert_eq!((sprite.x, sprite.y, sprite.z), (0, 0, (-0.05f32).to_bits()));
    assert_eq!(sprite.scale_x, 1.0f32.to_bits());
    assert_eq!(sprite.scale_y, 1.0f32.to_bits());
    assert_eq!(sprite.scale_z, 1.0f32.to_bits());
    assert_eq!(sprite_size, 1024);
}

#[test]
fn images_are_srgb_planes_of_the_texture_size() {
    let image = rgba_to_image((0..BYTES).map(|i| (i % 251) as u8).collect());
    assert_eq!(
        image.texture_descriptor.size,
        Extent3d {
            width: TEXTURE_SIZE,
            height: TEXTURE_SIZE,
            depth_or_array_layers: 1,
        }
    );
    assert_eq!(image.texture_descriptor.dimension, TextureDimension::D2);
    assert_eq!(
        image.texture_descriptor.format,
        TextureFormat::Rgba8UnormSrgb
    );
    assert_eq!(
        image.asset_usage,
        bevy::asset::RenderAssetUsages::RENDER_WORLD | bevy::asset::RenderAssetUsages::MAIN_WORLD
    );
    assert_eq!(image.asset_usage.bits(), BOTH_WORLDS);
    assert_eq!(
        MAIN_WORLD,
        bevy::asset::RenderAssetUsages::MAIN_WORLD.bits()
    );
    assert_eq!(
        RENDER_WORLD,
        bevy::asset::RenderAssetUsages::RENDER_WORLD.bits()
    );
    let data = image.data.unwrap();
    assert_eq!(data.len(), BYTES);
    assert!((0..BYTES).all(|i| data[i] == (i % 251) as u8));
    let blank = blank_rgba_image();
    assert_eq!(blank.texture_descriptor.size.width, 1024);
    assert_eq!(blank.data.unwrap(), vec![0u8; BYTES]);
}

#[test]
fn first_camera_is_asked_for() {
    let mut state = fresh();
    let plan = state.refresh_basemap(None, Some(bits(10.0, 20.0, 150.0)), 0);
    assert!(plan.upload.is_none());
    assert!(plan.sprite.is_none());
    let request = plan.request.unwrap();
    assert_eq!(f64::from_bits(request.center_x()), 10.0);
    assert_eq!(f64::from_bits(request.center_y()), 20.0);
    assert_eq!(f64::from_bits(request.resolution()), 150.0);
    state.record_send(true, 7);
    assert!(state.in_flight);
    assert_eq!(state.last_request_at, Some(7));
}

fn unusable_cameras() -> Vec<Option<PoseBits>> {
    vec![
        None,
        Some(bits(f32::NAN, 0.0, 1.0)),
        Some(bits(0.0, f32::INFINITY, 1.0)),
        Some(bits(0.0, 0.0, 0.0)),
        Some(bits(0.0, 0.0, f32::from_bits(1))),
    ]
}

#[test]
fn no_usable_camera_means_no_request() {
    for camera in unusable_cameras() {
        let mut state = fresh();
        let plan = state.refresh_basemap(None, camera, 0);
        assert!(plan.upload.is_none());
        assert!(plan.request.is_none());
        assert!(plan.sprite.is_none());
        assert!(state.last_render.is_none());
    }
}

#[test]
fn sprite_follows_the_latest_map_without_a_usable_camera() {
    for camera in unusable_cameras() {
        let mut state = fresh();
        let snapshot = pose(1.0, 2.0, 3.0);
        let plan = state.refresh_basemap(Some(response(snapshot, 9)), camera, 0);
        assert_eq!(plan.upload.unwrap().data.unwrap()[BYTES - 1], 9);
        assert!(plan.request.is_none());
        assert!(state.last_render.is_some());
        let again = state.refresh_basemap(None, camera, 1);
        assert!(again.request.is_none());
        for sprite in [plan.sprite.unwrap(), again.sprite.unwrap()] {
            assert_eq!(f32::from_bits(sprite.x), 1.0);
            assert_eq!(f32::from_bits(sprite.y), 2.0);
            assert_eq!(f32::from_bits(sprite.z), -0.05);
            assert_eq!(f32::from_bits(sprite.scale_x), 3.0);
            assert_eq!(f32::from_bits(sprite.scale_y), 3.0);
            assert_eq!(f32::from_bits(sprite.scale_z), 1.0);
        }
    }
}

#[test]
fn waits_for_the_response_in_flight() {
    let mut state = fresh();
    let camera = bits(0.0, 0.0, 10.0);
    assert!(state.refresh_basemap(None, Some(camera), 0).request.is_some());
    state.record_send(true, 0);
    for second in 1..5u128 {
        let plan = state.refresh_basemap(None, Some(camera), second * 1000 * MILLISECOND);
        assert!(plan.request.is_none());
        assert!(plan.sprite.is_none());
    }
}

#[test]
fn settles_on_the_answered_camera_and_places_the_sprite() {
    let mut state = fresh();
    let camera = bits(5.0, -6.0, 10.0);
    let request = state.refresh_basemap(None, Some(camera), 0).request.unwrap();
    state.record_send(true, 0);
    let answer = match rendered(request, Some(vec![3; BYTES])).task {
        WorkerTask::Reply(answer) => answer,
        _ => panic!("no reply"),
    };
    let plan = state.refresh_basemap(Some(answer), Some(camera), 1000 * MILLISECOND);
    assert_eq!(plan.upload.unwrap().data.unwrap()[0], 3);
    assert!(plan.request.is_none());
    assert!(!state.in_flight);
    let sprite = plan.sprite.unwrap();
    assert_eq!(f32::from_bits(sprite.x), 5.0);
    assert_eq!(f32::from_bits(sprite.y), -6.0);
    assert_eq!(sprite.z, BASEMAP_Z_BITS);
    assert_eq!(f32::from_bits(sprite.scale_x), 10.0);
    assert_eq!(f32::from_bits(sprite.scale_y), 10.0);
    assert_eq!(f32::from_bits(sprite.scale_z), 1.0);
    // A pan past a tenth of the half-width asks again; the sprite stays.
    let moved = bits(518.0, -6.0, 10.0);
    let plan = state.refresh_basemap(None, Some(moved), 2000 * MILLISECOND);
    assert_eq!(f64::from_bits(plan.request.unwrap().center_x()), 518.0);
    assert_eq!(f32::from_bits(plan.sprite.unwrap().x), 5.0);
}

#[test]
fn requests_are_debounced() {
    assert_eq!(REFRESH_DEBOUNCE, 100 * MILLISECOND);
    let mut state = fresh();
    let far = bits(1.0e6, 0.0, 10.0);
    assert!(state.refresh_basemap(None, Some(far), 0).request.is_some());
    state.record_send(true, 50 * MILLISECOND);
    let here = pose(0.0, 0.0, 10.0);
    let early = 150 * MILLISECOND - 1;
    let plan = state.refresh_basemap(Some(response(here, 1)), Some(far), early);
    assert!(plan.request.is_none());
    assert!(state.refresh_basemap(None, Some(far), 0).request.is_none());
    let plan = state.refresh_basemap(None, Some(far), 150 * MILLISECOND);
    assert!(plan.request.is_some());
}

#[test]
fn a_response_lies_between_two_requests() {
    let mut state = fresh();
    let far = bits(1.0e6, 0.0, 10.0);
    let mut responses = 0;
    let mut responses_at_last_request = None;
    for frame in 0..40u128 {
        let now = frame * 50 * MILLISECOND;
        let latest = if frame % 7 == 6 {
            responses += 1;
            Some(response(pose(frame as f32, 0.0, 10.0), 1))
        } else {
            None
        };
        if state.refresh_basemap(latest, Some(far), now).request.is_some() {
            assert_ne!(responses_at_last_request, Some(responses));
            responses_at_last_request = Some(responses);
            state.record_send(true, now);
        }
    }
    assert_eq!(responses_at_last_request, Some(5));
}

#[test]
fn undelivered_request_is_repeated() {
    let mut state = fresh();
    let camera = bits(0.0, 0.0, 1.0);
    for _ in 0..3 {
        assert!(state.refresh_basemap(None, Some(camera), 0).request.is_some());
        state.record_send(false, 0);
        assert!(!state.in_flight);
        assert_eq!(state.last_request_at, None);
    }
}

#[test]
fn latest_response_wins() {
    let mut latest = Latest::new();
    assert!(matches!(latest.offer(Poll::Ready(1)), Drain::Again));
    assert!(matches!(latest.offer(Poll::Ready(2)), Drain::Again));
    assert!(matches!(latest.offer(Poll::Empty), Drain::Done));
    assert_eq!(latest.item, Some(2));
    assert!(matches!(latest.offer(Poll::Disconnected), Drain::SenderGone));
    assert_eq!(latest.item, Some(2));
    let mut none: Latest<u8> = Latest::new();
    assert!(matches!(none.offer(Poll::Empty), Drain::Done));
    assert_eq!(none.item, None);
}

#[test]
fn worker_starts_up_or_stops() {
    let step = started();
    assert!(matches!(step.task, WorkerTask::BuildRuntime));
    assert!(step.notice.is_none());
    let step = runtime_built(true);
    assert!(matches!(step.task, WorkerTask::CreateRenderer(1024, 1024)));
    assert!(step.notice.is_none());
    let step = runtime_built(false);
    assert!(matches!(step.task, WorkerTask::Stop));
    assert!(matches!(step.notice, Some(WorkerNotice::RuntimeFailed)));
    let step = renderer_created(true);
    assert!(matches!(step.task, WorkerTask::Receive));
    assert!(step.notice.is_none());
    let step = renderer_created(false);
    assert!(matches!(step.task, WorkerTask::Stop));
    assert!(matches!(step.notice, Some(WorkerNotice::RendererFailed)));
}

#[test]
fn worker_renders_the_newest_request() {
    let requests: Vec<RenderRequest> = (1..4)
        .map(|x| RenderRequest {
            pose: pose(x as f32, 0.0, 1.0),
        })
        .collect();
    let mut step = received(Some(requests[0]));
    for request in &requests[1..] {
        step = match step.task {
            WorkerTask::Poll(latest) => polled(latest, Some(*request)),
            _ => panic!("not polling"),
        };
    }
    step = match step.task {
        WorkerTask::Poll(latest) => polled(latest, None),
        _ => panic!("not polling"),
    };
    match step.task {
        WorkerTask::Render(request, width, height) => {
            assert_eq!(f32::from_bits(request.pose.center_x()), 3.0);
            assert_eq!((width, height), (1024, 1024));
        }
        _ => panic!("not rendering"),
    }
}

#[test]
fn worker_replies_with_the_camera_it_rendered() {
    let request = RenderRequest {
        pose: pose(1.5, 2.5, 0.1),
    };
    match rendered(request, Some(vec![1, 2, 3])).task {
        WorkerTask::Reply(answer) => {
            assert_eq!(answer.rgba, vec![1, 2, 3]);
            assert_eq!(f32::from_bits(answer.snapshot.center_x()), 1.5);
            assert_eq!(f32::from_bits(answer.snapshot.center_y()), 2.5);
            assert_eq!(f32::from_bits(answer.snapshot.scale()), 0.1);
        }
        _ => panic!("no reply"),
    }
    let step = rendered(request, None);
    assert!(matches!(step.task, WorkerTask::Receive));
    assert!(matches!(step.notice, Some(WorkerNotice::NoBytes)));
}

#[test]
fn worker_answers_in_the_order_of_the_requests() {
    // Batches of requests as they lie in the channel when the worker looks, and whether
    // rendering them gives bytes.
    let batches = [(vec![0, 1], true), (vec![2], false), (vec![3, 4, 5], true), (vec![6], true)];
    let mut answers = Vec::new();
    for (batch, renders) in batches {
        let mut queue = batch.into_iter().map(|x| RenderRequest {
            pose: pose(x as f32, 0.0, 1.0),
        });
        let mut step = received(queue.next());
        loop {
            step = match step.task {
                WorkerTask::Poll(latest) => polled(latest, queue.next()),
                WorkerTask::Render(request, _, _) => {
                    rendered(request, if renders { Some(vec![7]) } else { None })
                }
                WorkerTask::Reply(answer) => {
                    answers.push(f32::from_bits(answer.snapshot.center_x()));
                    replied(true)
                }
                WorkerTask::Receive => break,
                _ => panic!("unexpected task"),
            };
        }
    }
    // The last rendering gave bytes, so the last answer is to the last request.
    assert_eq!(answers, vec![1.0, 5.0, 6.0]);
}

#[test]
fn worker_stops_with_its_channels() {
    assert!(matches!(received(None).task, WorkerTask::Stop));
    assert!(matches!(replied(false).task, WorkerTask::Stop));
    assert!(matches!(replied(true).task, WorkerTask::Receive));
}

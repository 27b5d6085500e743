//! Keeping the basemap in step with the camera.
//!
//! Every frame takes in the newest rendered map, if one arrived, asks for another if
//! the camera has moved away from it, and places the sprite that shows it.

use bevy::image::Image;
use vstd::prelude::*;

use crate::binary32;
use crate::render::{RenderRequest, RenderResponse};
use crate::texture;
use crate::texture::{blank_rgba_image, rgba_to_image};
use crate::viewport;
use crate::viewport::{Pose, PoseBits, ONE_BITS, TEXTURE_SIZE};

verus! {

/// Minimum spacing between successive request submissions, in nanoseconds.
pub const REFRESH_DEBOUNCE: u128 = 100_000_000;

/// -0.05, the z position of the basemap sprite: below the map layers, which start at
/// zero and grow positive, and just inside the front plane of the camera.
pub const BASEMAP_Z_BITS: u32 = 0xbd4c_cccd;

/// What the main thread remembers between frames.
pub struct BasemapState {
    /// Whether a request has been sent that no response has answered.
    pub in_flight: bool,
    /// The camera that the displayed map was rendered for.
    pub last_render: Option<Pose>,
    /// When the last request was sent, in nanoseconds of a monotonic clock.
    pub last_request_at: Option<u128>,
}

/// Where a sprite is drawn, as single-precision patterns.
pub struct SpriteTransform {
    pub x: u32,
    pub y: u32,
    pub z: u32,
    pub scale_x: u32,
    pub scale_y: u32,
    pub scale_z: u32,
}

/// What the basemap starts with.
pub struct InitialBasemap {
    pub state: BasemapState,
    /// The image that rendered maps replace.
    pub image: Image,
    pub sprite: SpriteTransform,
    /// Width and height of the sprite in pixels.
    pub sprite_size: u32,
}

/// What one frame has to do.
pub struct RefreshPlan {
    /// The image to show from now on.
    pub upload: Option<Image>,
    /// The request to send to the worker.
    pub request: Option<RenderRequest>,
    /// Where the sprite goes.
    pub sprite: Option<SpriteTransform>,
}

/// The state at startup: nothing rendered and nothing asked for.
pub open spec fn initial_state() -> BasemapState {
    BasemapState { in_flight: false, last_render: None, last_request_at: None }
}

/// The state after the newest response, if one arrived, has been taken in.
pub open spec fn after_response(state: BasemapState, snapshot: Option<Pose>) -> BasemapState {
    match snapshot {
        Some(pose) => BasemapState { in_flight: false, last_render: Some(pose), ..state },
        None => state,
    }
}

/// The state after a request reached the worker.
pub open spec fn after_send(state: BasemapState, at: u128) -> BasemapState {
    BasemapState { in_flight: true, last_request_at: Some(at), ..state }
}

/// Whether a camera was read that a map can be rendered for.
pub open spec fn camera_usable(camera: Option<PoseBits>) -> bool {
    camera matches Some(bits) && bits.usable()
}

/// Whether nothing is shown yet or the camera has moved away from what is shown.
pub open spec fn needs_render(state: BasemapState, camera: PoseBits) -> bool {
    match state.last_render {
        None => true,
        Some(rendered) => viewport::moved_away(camera, rendered@),
    }
}

/// Whether the last request was sent less than the debounce spacing ago.
pub open spec fn too_soon(state: BasemapState, now: u128) -> bool {
    state.last_request_at matches Some(at) && now - at < REFRESH_DEBOUNCE
}

/// Whether a frame asks for a new map.
pub open spec fn asks(state: BasemapState, camera: Option<PoseBits>, now: u128) -> bool {
    &&& camera_usable(camera)
    &&& needs_render(state, camera->0)
    &&& !too_soon(state, now)
    &&& !state.in_flight
}

/// A sprite of the basemap at the center of a pose and at its scale.
pub open spec fn placed_at(pose: PoseBits) -> SpriteTransform {
    SpriteTransform {
        x: pose.center_x,
        y: pose.center_y,
        z: BASEMAP_Z_BITS,
        scale_x: pose.scale,
        scale_y: pose.scale,
        scale_z: ONE_BITS,
    }
}

/// The state, the blank image and the sprite that the basemap starts with.
pub fn init_basemap() -> (start: InitialBasemap)
    ensures
        start.state == initial_state(),
        !start.state.in_flight,
        start.state.last_render is None,
        start.state.last_request_at is None,
        texture::image_bytes(start.image).len() == 4_194_304,
        forall|i: int|
            0 <= i < 4_194_304 ==> #[trigger] texture::image_bytes(start.image)[i] == 0,
        texture::image_width(start.image) == 1024,
        texture::image_height(start.image) == 1024,
        texture::shows(
            start.image,
            TEXTURE_SIZE,
            TEXTURE_SIZE,
            Seq::new(texture::rgba_len(TEXTURE_SIZE, TEXTURE_SIZE), |i: int| 0u8),
        ),
        start.sprite == (SpriteTransform {
            x: 0,
            y: 0,
            z: BASEMAP_Z_BITS,
            scale_x: ONE_BITS,
            scale_y: ONE_BITS,
            scale_z: ONE_BITS,
        }),
        start.sprite_size == TEXTURE_SIZE,
{
    InitialBasemap {
        state: BasemapState { in_flight: false, last_render: None, last_request_at: None },
        image: blank_rgba_image(),
        sprite: SpriteTransform {
            x: 0,
            y: 0,
            z: BASEMAP_Z_BITS,
            scale_x: ONE_BITS,
            scale_y: ONE_BITS,
            scale_z: ONE_BITS,
        },
        sprite_size: TEXTURE_SIZE,
    }
}

impl BasemapState {
    /// One frame: takes in the newest response, then decides from the camera, as far
    /// as there is exactly one, and from the time whether to ask for another map. The
    /// sprite goes where the latest map was rendered, whatever the camera does.
    pub fn refresh_basemap(
        &mut self,
        latest: Option<RenderResponse>,
        camera: Option<PoseBits>,
        now: u128,
    ) -> (plan: RefreshPlan)
        requires
            latest matches Some(response) ==> response.rgba@.len() == texture::rgba_len(
                TEXTURE_SIZE,
                TEXTURE_SIZE,
            ),
        ensures
            latest is None ==> *final(self) == *old(self),
            latest matches Some(response) ==> *final(self) == after_response(
                *old(self),
                Some(response.snapshot),
            ),
            latest matches Some(response) ==> {
                &&& final(self).last_render == Some(response.snapshot)
                &&& !final(self).in_flight
                &&& final(self).last_request_at == old(self).last_request_at
                &&& texture::image_bytes(plan.upload->0) == response.rgba@
                &&& texture::image_width(plan.upload->0) == 1024
                &&& texture::image_height(plan.upload->0) == 1024
            },
            plan.upload is Some <==> latest is Some,
            latest matches Some(response) ==> texture::shows(
                plan.upload->0,
                TEXTURE_SIZE,
                TEXTURE_SIZE,
                response.rgba@,
            ),
            plan.request is Some <==> asks(*final(self), camera, now),
            plan.request is Some <==> {
                &&& camera matches Some(bits)
                &&& bits.usable()
                &&& !final(self).in_flight
                &&& final(self).last_request_at matches Some(at) ==> now >= at + 100_000_000
                &&& final(self).last_render matches Some(rendered) ==> viewport::moved_away(
                    bits,
                    rendered@,
                )
            },
            plan.request matches Some(request) ==> request.pose@ == camera->0,
            plan.sprite is Some <==> final(self).last_render is Some,
            plan.sprite matches Some(sprite) ==> sprite == placed_at(final(self).last_render->0@),
            plan.sprite matches Some(sprite) ==> {
                &&& sprite.x == final(self).last_render->0@.center_x
                &&& sprite.y == final(self).last_render->0@.center_y
                &&& sprite.z == BASEMAP_Z_BITS
                &&& sprite.scale_x == final(self).last_render->0@.scale
                &&& sprite.scale_y == final(self).last_render->0@.scale
                &&& sprite.scale_z == ONE_BITS
            },
    {
        let mut upload: Option<Image> = None;
        if let Some(response) = latest {
            upload = Some(rgba_to_image(response.rgba));
            self.last_render = Some(response.snapshot);
            self.in_flight = false;
        }
        let pose: Option<Pose> = match camera {
            Some(bits) => Pose::new(bits),
            None => None,
        };
        let request = match pose {
            None => None,
            Some(pose) => {
                let needs_render = match &self.last_render {
                    None => true,
                    Some(rendered) => pose.moved_away_from(rendered),
                };
                let too_soon = match self.last_request_at {
                    Some(at) => now < at || now - at < REFRESH_DEBOUNCE,
                    None => false,
                };
                if needs_render && !too_soon && !self.in_flight {
                    Some(RenderRequest { pose })
                } else {
                    None
                }
            },
        };
        let sprite = match &self.last_render {
            None => None,
            Some(rendered) => Some(
                SpriteTransform {
                    x: rendered.center_x(),
                    y: rendered.center_y(),
                    z: BASEMAP_Z_BITS,
                    scale_x: rendered.scale(),
                    scale_y: rendered.scale(),
                    scale_z: ONE_BITS,
                },
            ),
        };
        RefreshPlan { upload, request, sprite }
    }

    /// Records how sending a planned request went. A request that could not be
    /// delivered leaves no trace, so that the next frame may ask again.
    pub fn record_send(&mut self, delivered: bool, at: u128)
        ensures
            delivered ==> *final(self) == after_send(*old(self), at),
            delivered ==> final(self).in_flight && final(self).last_request_at == Some(at),
            final(self).last_render == old(self).last_render,
            !delivered ==> *final(self) == *old(self),
    {
        if delivered {
            self.in_flight = true;
            self.last_request_at = Some(at);
        }
    }
}

/// What the outside world brings to one frame.
pub struct Frame {
    /// The camera of the newest response, if one arrived.
    pub snapshot: Option<Pose>,
    pub camera: Option<PoseBits>,
    pub now: u128,
    /// Whether a request reaches the worker, and when that is known.
    pub delivered: bool,
    pub sent_at: u128,
}

/// Whether a frame sends a request that reaches the worker.
pub open spec fn sends(state: BasemapState, frame: Frame) -> bool {
    asks(after_response(state, frame.snapshot), frame.camera, frame.now) && frame.delivered
}

/// The state after a frame.
pub open spec fn after_frame(state: BasemapState, frame: Frame) -> BasemapState {
    let refreshed = after_response(state, frame.snapshot);
    if sends(state, frame) {
        after_send(refreshed, frame.sent_at)
    } else {
        refreshed
    }
}

/// The state after a series of frames.
pub open spec fn after_frames(state: BasemapState, frames: Seq<Frame>) -> BasemapState
    decreases frames.len(),
{
    if frames.len() == 0 {
        state
    } else {
        after_frame(after_frames(state, frames.drop_last()), frames.last())
    }
}

/// Whether frame `i` of a series sends a request.
pub open spec fn sends_at(state: BasemapState, frames: Seq<Frame>, i: int) -> bool {
    sends(after_frames(state, frames.take(i)), frames[i])
}

/// How many requests a series of frames sends.
pub open spec fn requests_sent(state: BasemapState, frames: Seq<Frame>) -> nat
    decreases frames.len(),
{
    if frames.len() == 0 {
        0
    } else {
        let before = requests_sent(state, frames.drop_last());
        if sends(after_frames(state, frames.drop_last()), frames.last()) {
            before + 1
        } else {
            before
        }
    }
}

/// In how many frames of a series a response arrives.
pub open spec fn responses_taken(frames: Seq<Frame>) -> nat
    decreases frames.len(),
{
    if frames.len() == 0 {
        0
    } else {
        let before = responses_taken(frames.drop_last());
        if frames.last().snapshot is Some {
            before + 1
        } else {
            before
        }
    }
}

/// At most one request is in flight: from startup on, the requests sent outnumber the
/// responses taken in by at most one, and not at all once nothing is in flight.
pub proof fn law_one_request_in_flight(frames: Seq<Frame>)
    ensures
        requests_sent(initial_state(), frames) <= responses_taken(frames) + 1,
        !after_frames(initial_state(), frames).in_flight ==> requests_sent(initial_state(), frames)
            <= responses_taken(frames),
    decreases frames.len(),
{
    if frames.len() > 0 {
        law_one_request_in_flight(frames.drop_last());
    }
}

/// While a request is in flight no other is sent, however many frames pass without a
/// response, and what is shown stays as it is.
pub proof fn law_waits_for_response(state: BasemapState, frames: Seq<Frame>)
    requires
        state.in_flight,
        forall|i: int| 0 <= i < frames.len() ==> (#[trigger] frames[i]).snapshot is None,
    ensures
        requests_sent(state, frames) == 0,
        after_frames(state, frames) == state,
    decreases frames.len(),
{
    if frames.len() > 0 {
        assert(frames[frames.len() - 1].snapshot is None);
        assert forall|i: int| 0 <= i < frames.drop_last().len() implies (
        #[trigger] frames.drop_last()[i]).snapshot is None by {
            assert(frames[i].snapshot is None);
        }
        law_waits_for_response(state, frames.drop_last());
    }
}

/// Between two requests a response is taken in: of two frames that both send a request,
/// the later one, or one between them, has a response.
pub proof fn law_response_between_requests(state: BasemapState, frames: Seq<Frame>, i: int, j: int)
    requires
        0 <= i < j < frames.len(),
        sends_at(state, frames, i),
        sends_at(state, frames, j),
    ensures
        exists|k: int| i < k <= j && (#[trigger] frames[k]).snapshot is Some,
{
    if forall|k: int| i < k <= j ==> (#[trigger] frames[k]).snapshot is None {
        lemma_stays_in_flight(state, frames, i, j);
    }
}

/// A request stays in flight as long as no response is taken in.
proof fn lemma_stays_in_flight(state: BasemapState, frames: Seq<Frame>, i: int, j: int)
    requires
        0 <= i < j <= frames.len(),
        sends_at(state, frames, i),
        forall|k: int| i < k < j ==> (#[trigger] frames[k]).snapshot is None,
    ensures
        after_frames(state, frames.take(j)).in_flight,
    decreases j - i,
{
    assert(frames.take(j).drop_last() =~= frames.take(j - 1));
    assert(frames.take(j).last() == frames[j - 1]);
    if i < j - 1 {
        lemma_stays_in_flight(state, frames, i, j - 1);
    }
}

/// Requests keep their distance: on a clock that does not run backwards, a frame that
/// sends one does so no earlier than the debounce spacing after every earlier one was
/// sent.
pub proof fn law_requests_are_spaced(state: BasemapState, frames: Seq<Frame>, i: int, j: int)
    requires
        0 <= i < j < frames.len(),
        forall|k: int, l: int|
            0 <= k <= l < frames.len() ==> (#[trigger] frames[k]).sent_at <= (
            #[trigger] frames[l]).sent_at,
        sends_at(state, frames, i),
        sends_at(state, frames, j),
    ensures
        frames[j].now - frames[i].sent_at >= REFRESH_DEBOUNCE,
{
    lemma_remembers_request(state, frames, i, j);
}

/// After a request was sent the state remembers it or a later one.
proof fn lemma_remembers_request(state: BasemapState, frames: Seq<Frame>, i: int, j: int)
    requires
        0 <= i < j <= frames.len(),
        forall|k: int, l: int|
            0 <= k <= l < frames.len() ==> (#[trigger] frames[k]).sent_at <= (
            #[trigger] frames[l]).sent_at,
        sends_at(state, frames, i),
    ensures
        after_frames(state, frames.take(j)).last_request_at matches Some(at) && frames[i].sent_at
            <= at,
    decreases j - i,
{
    assert(frames.take(j).drop_last() =~= frames.take(j - 1));
    assert(frames.take(j).last() == frames[j - 1]);
    if i < j - 1 {
        lemma_remembers_request(state, frames, i, j - 1);
    }
}

/// The map settles: once the camera is shown as it was rendered, at a positive scale,
/// no frame with that camera asks again.
pub proof fn law_settles(state: BasemapState, camera: PoseBits, now: u128)
    requires
        state.last_render matches Some(rendered) && rendered@ == camera,
        camera.usable(),
        !binary32::negative(camera.scale),
    ensures
        !asks(state, Some(camera), now),
{
    viewport::law_at_rest(camera, camera);
}

/// A camera that has moved away is asked for as soon as nothing is in flight and the
/// debounce spacing has passed.
pub proof fn law_catches_up(state: BasemapState, camera: PoseBits, now: u128)
    requires
        camera.usable(),
        state.last_render matches Some(rendered) ==> viewport::moved_away(camera, rendered@),
        !state.in_flight,
        state.last_request_at matches Some(at) ==> now >= at + REFRESH_DEBOUNCE,
    ensures
        asks(state, Some(camera), now),
{
}

/// Taking in a response shows it and frees the way for the next request, without
/// touching the time of the last one; without a response nothing changes.
pub proof fn law_response_is_recorded(state: BasemapState, pose: Pose)
    ensures
        after_response(state, Some(pose)).last_render == Some(pose),
        !after_response(state, Some(pose)).in_flight,
        after_response(state, Some(pose)).last_request_at == state.last_request_at,
        after_response(state, None) == state,
{
}

/// Sending a request marks it as in flight since then, and leaves what is shown.
pub proof fn law_request_is_recorded(state: BasemapState, at: u128)
    ensures
        after_send(state, at).in_flight,
        after_send(state, at).last_request_at == Some(at),
        after_send(state, at).last_render == state.last_render,
{
}

/// A request has all its reasons: a frame that asks has a camera with a finite center and
/// a normal scale, which has moved away from what is shown, if anything is; nothing is in
/// flight; and the last request, if there was one, was sent 100 milliseconds ago or
/// earlier.
pub proof fn law_asks_with_reason(state: BasemapState, camera: Option<PoseBits>, now: u128)
    requires
        asks(state, camera, now),
    ensures
        camera matches Some(bits) && {
            &&& bits.center_x as int % 0x8000_0000 < 0x7f80_0000
            &&& bits.center_y as int % 0x8000_0000 < 0x7f80_0000
            &&& 0x80_0000 <= bits.scale as int % 0x8000_0000 < 0x7f80_0000
            &&& state.last_render matches Some(rendered) ==> viewport::moved_away(bits, rendered@)
        },
        !state.in_flight,
        state.last_request_at matches Some(at) ==> now - at >= 100_000_000,
{
    let bits = camera->0;
    binary32::law_classes_of_patterns(bits.center_x);
    binary32::law_classes_of_patterns(bits.center_y);
    binary32::law_classes_of_patterns(bits.scale);
}

/// A small motion asks for nothing: as long as the ratio of the scales stays in the
/// interval of unchanged ones and the camera strays along neither axis farther than a
/// tenth of the texture's half-width, short of it by one part in 2^22, no request is
/// made, whatever the state and the time.
pub proof fn law_small_motion_asks_for_nothing(
    state: BasemapState,
    rendered: Pose,
    camera: PoseBits,
    now: u128,
)
    requires
        state.last_render == Some(rendered),
        rendered@.usable(),
        0 < 1024 * binary32::units(rendered@.scale) < vstd::arithmetic::power2::pow2(277),
        0x200_0000 * binary32::units(camera.scale) > 30870077 * binary32::units(rendered@.scale),
        0x100_0000 * binary32::units(camera.scale) <= 18119393 * binary32::units(rendered@.scale),
        0x40_0000 * (5 * binary32::absolute(
            binary32::units(camera.center_x) - binary32::units(rendered@.center_x),
        )) <= 0x3f_ffff * (256 * binary32::units(rendered@.scale)),
        0x40_0000 * (5 * binary32::absolute(
            binary32::units(camera.center_y) - binary32::units(rendered@.center_y),
        )) <= 0x3f_ffff * (256 * binary32::units(rendered@.scale)),
    ensures
        !asks(state, Some(camera), now),
{
    if camera.usable() {
        viewport::law_each_motion_counts(camera, rendered@);
    }
}

/// A large motion is answered: a zoom out of the interval of unchanged ratios, or a pan
/// along either axis beyond a tenth of the texture's half-width by one part in 2^22, asks
/// for a new map once nothing is in flight and 100 milliseconds have passed; and so does
/// any usable camera as long as nothing is shown.
pub proof fn law_large_motion_asks(
    state: BasemapState,
    camera: PoseBits,
    now: u128,
)
    requires
        camera.usable(),
        !state.in_flight,
        state.last_request_at matches Some(at) ==> now - at >= 100_000_000,
        state.last_render matches Some(rendered) ==> rendered@.usable() && ({
            let a = binary32::units(camera.scale);
            let b = binary32::units(rendered@.scale);
            let far_x = binary32::units(camera.center_x) - binary32::units(rendered@.center_x);
            let far_y = binary32::units(camera.center_y) - binary32::units(rendered@.center_y);
            ||| b > 0 && 0x200_0000 * a <= 30870077 * b
            ||| b > 0 && 0x100_0000 * a > 18119393 * b
            ||| b < 0
            ||| 0 < 1024 * b < vstd::arithmetic::power2::pow2(277) && {
                ||| 0x40_0000 * (5 * far_x) >= 0x40_0001 * (256 * b)
                ||| 0x40_0000 * (5 * far_x) <= -0x40_0001 * (256 * b)
                ||| 0x40_0000 * (5 * far_y) >= 0x40_0001 * (256 * b)
                ||| 0x40_0000 * (5 * far_y) <= -0x40_0001 * (256 * b)
            }
        }),
    ensures
        asks(state, Some(camera), now),
{
    if let Some(rendered) = state.last_render {
        viewport::law_each_motion_counts(camera, rendered@);
    }
}

/// What is shown is the response taken in last.
pub proof fn law_shows_last_response(state: BasemapState, frames: Seq<Frame>, k: int, j: int)
    requires
        0 <= k < j <= frames.len(),
        frames[k].snapshot is Some,
        forall|l: int| k < l < j ==> (#[trigger] frames[l]).snapshot is None,
    ensures
        after_frames(state, frames.take(j)).last_render == frames[k].snapshot,
    decreases j - k,
{
    assert(frames.take(j).drop_last() =~= frames.take(j - 1));
    assert(frames.take(j).last() == frames[j - 1]);
    if k < j - 1 {
        law_shows_last_response(state, frames, k, j - 1);
    }
}

/// What is remembered of the requests is when the last one was sent.
pub proof fn law_remembers_last_request(state: BasemapState, frames: Seq<Frame>, i: int, j: int)
    requires
        0 <= i < j <= frames.len(),
        sends_at(state, frames, i),
        forall|l: int| i < l < j ==> !#[trigger] sends_at(state, frames, l),
    ensures
        after_frames(state, frames.take(j)).last_request_at == Some(frames[i].sent_at),
    decreases j - i,
{
    assert(frames.take(j).drop_last() =~= frames.take(j - 1));
    assert(frames.take(j).last() == frames[j - 1]);
    if i < j - 1 {
        law_remembers_last_request(state, frames, i, j - 1);
        assert(!sends_at(state, frames, j - 1));
    }
}

/// A response frees the way until the next request is sent.
proof fn lemma_way_is_free(state: BasemapState, frames: Seq<Frame>, k: int, j: int)
    requires
        0 <= k < j <= frames.len(),
        frames[k].snapshot is Some,
        forall|l: int| k <= l < j ==> !#[trigger] sends_at(state, frames, l),
    ensures
        !after_frames(state, frames.take(j)).in_flight,
    decreases j - k,
{
    assert(frames.take(j).drop_last() =~= frames.take(j - 1));
    assert(frames.take(j).last() == frames[j - 1]);
    assert(!sends_at(state, frames, j - 1));
    if k < j - 1 {
        lemma_way_is_free(state, frames, k, j - 1);
    }
}

/// The basemap does not fall asleep: if frame `i` was the last to send a request, and
/// frame `k` the last since then to take in a response, then a frame `j` whose camera has
/// moved away from that response, 100 milliseconds or more after the request was sent,
/// sends the next request, if it can be delivered.
pub proof fn law_request_follows_response(
    state: BasemapState,
    frames: Seq<Frame>,
    i: int,
    k: int,
    j: int,
)
    requires
        0 <= i < k <= j < frames.len(),
        sends_at(state, frames, i),
        forall|l: int| i < l < j ==> !#[trigger] sends_at(state, frames, l),
        frames[k].snapshot is Some,
        forall|l: int| k < l <= j ==> (#[trigger] frames[l]).snapshot is None,
        frames[j].now - frames[i].sent_at >= 100_000_000,
        frames[j].camera matches Some(camera) && camera.usable() && viewport::moved_away(
            camera,
            frames[k].snapshot->0@,
        ),
        frames[j].delivered,
    ensures
        sends_at(state, frames, j),
        after_frames(state, frames.take(j + 1)).last_request_at == Some(frames[j].sent_at),
        after_frames(state, frames.take(j + 1)).in_flight,
{
    law_remembers_last_request(state, frames, i, j);
    if k < j {
        law_shows_last_response(state, frames, k, j);
        assert forall|l: int| k <= l < j implies !#[trigger] sends_at(state, frames, l) by {}
        lemma_way_is_free(state, frames, k, j);
        assert(frames[j].snapshot is None);
    }
    assert(frames.take(j + 1).drop_last() =~= frames.take(j));
    assert(frames.take(j + 1).last() == frames[j]);
}

/// The first usable camera is asked for at once: at startup nothing is shown, nothing is
/// in flight and no request has been sent.
pub proof fn law_first_camera_is_asked_for(camera: PoseBits, now: u128)
    requires
        camera.usable(),
    ensures
        asks(initial_state(), Some(camera), now),
        initial_state().last_render is None,
        !initial_state().in_flight,
        initial_state().last_request_at is None,
{
}

/// The sprite sits on the rendered map: its place is the center of the map, component by
/// component, and it is scaled alike along both axes by the scale of the map. So sprites
/// of different poses differ.
pub proof fn law_sprite_sits_on_map(pose: PoseBits, other: PoseBits)
    ensures
        placed_at(pose).x == pose.center_x,
        placed_at(pose).y == pose.center_y,
        placed_at(pose).scale_x == pose.scale,
        placed_at(pose).scale_y == pose.scale,
        placed_at(pose).scale_z == 0x3f80_0000,
        placed_at(pose) == placed_at(other) ==> pose == other,
{
}

/// The sprite lies below the map layers and inside the camera's front plane: its z
/// position is negative and above -0.1.
pub proof fn law_sprite_below_layers(pose: PoseBits)
    ensures
        binary32::units(0xbdcc_cccd) < binary32::units(placed_at(pose).z) < 0,
        placed_at(pose).z == 0xbd4c_cccd,
{
    vstd::arithmetic::power2::lemma_pow2_unfold(122);
    vstd::arithmetic::power2::lemma_pow2_pos(121);
    assert(binary32::units(0xbdcc_cccd) == -(13421773 * vstd::arithmetic::power2::pow2(122)));
    assert(binary32::units(BASEMAP_Z_BITS) == -(13421773 * vstd::arithmetic::power2::pow2(121)));
}

} // verus!

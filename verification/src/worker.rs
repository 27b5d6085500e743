//! The render worker: what it does next, given how its last task went.

use vstd::prelude::*;

use crate::basemap;
use crate::basemap::BasemapState;
use crate::binary32;
use crate::render::{RenderRequest, RenderResponse};
use crate::viewport::TEXTURE_SIZE;

verus! {

/// What the worker thread has to do, with what it keeps in mind meanwhile.
pub enum WorkerTask {
    /// Build the runtime that drives the renderer.
    BuildRuntime,
    /// Create a renderer for a texture of this width and height.
    CreateRenderer(u32, u32),
    /// Wait for a request.
    Receive,
    /// Look, without waiting, for a request newer than this one.
    Poll(RenderRequest),
    /// Render this request in a view of this width and height.
    Render(RenderRequest, u32, u32),
    /// Send this response.
    Reply(RenderResponse),
    /// End the thread.
    Stop,
}

/// What is worth a line in the log.
pub enum WorkerNotice {
    /// The runtime could not be built.
    RuntimeFailed,
    /// The renderer could not be created.
    RendererFailed,
    /// Rendering gave no bytes.
    NoBytes,
}

/// The next task, and what to log before it.
pub struct WorkerStep {
    pub task: WorkerTask,
    pub notice: Option<WorkerNotice>,
}

/// A step with nothing to log.
pub open spec fn quietly(task: WorkerTask) -> WorkerStep {
    WorkerStep { task, notice: None }
}

/// A step with a notice.
pub open spec fn noting(notice: WorkerNotice, task: WorkerTask) -> WorkerStep {
    WorkerStep { task, notice: Some(notice) }
}

/// The step after the runtime was built, or could not be.
pub open spec fn runtime_step(built: bool) -> WorkerStep {
    if built {
        quietly(WorkerTask::CreateRenderer(TEXTURE_SIZE, TEXTURE_SIZE))
    } else {
        noting(WorkerNotice::RuntimeFailed, WorkerTask::Stop)
    }
}

/// The step after the renderer was created, or could not be.
pub open spec fn renderer_step(created: bool) -> WorkerStep {
    if created {
        quietly(WorkerTask::Receive)
    } else {
        noting(WorkerNotice::RendererFailed, WorkerTask::Stop)
    }
}

/// The step after waiting brought a request, or the end of the channel.
pub open spec fn received_step(request: Option<RenderRequest>) -> WorkerStep {
    match request {
        Some(first) => quietly(WorkerTask::Poll(first)),
        None => quietly(WorkerTask::Stop),
    }
}

/// The step after a response was sent, or nobody was left to receive it.
pub open spec fn replied_step(delivered: bool) -> WorkerStep {
    if delivered {
        quietly(WorkerTask::Receive)
    } else {
        quietly(WorkerTask::Stop)
    }
}

/// The first task of the thread.
pub fn started() -> (step: WorkerStep)
    ensures
        step == quietly(WorkerTask::BuildRuntime),
{
    WorkerStep { task: WorkerTask::BuildRuntime, notice: None }
}

/// After the runtime was built, or could not be, which ends the thread.
pub fn runtime_built(built: bool) -> (step: WorkerStep)
    ensures
        step == runtime_step(built),
        built ==> step.task == WorkerTask::CreateRenderer(1024, 1024) && step.notice is None,
        !built ==> step.task is Stop && step.notice == Some(WorkerNotice::RuntimeFailed),
{
    if built {
        WorkerStep { task: WorkerTask::CreateRenderer(TEXTURE_SIZE, TEXTURE_SIZE), notice: None }
    } else {
        WorkerStep { task: WorkerTask::Stop, notice: Some(WorkerNotice::RuntimeFailed) }
    }
}

/// After the renderer was created, or could not be, which ends the thread.
pub fn renderer_created(created: bool) -> (step: WorkerStep)
    ensures
        step == renderer_step(created),
        created ==> step.task is Receive && step.notice is None,
        !created ==> step.task is Stop && step.notice == Some(WorkerNotice::RendererFailed),
{
    if created {
        WorkerStep { task: WorkerTask::Receive, notice: None }
    } else {
        WorkerStep { task: WorkerTask::Stop, notice: Some(WorkerNotice::RendererFailed) }
    }
}

/// After waiting brought a request, or the end of the channel, which ends the thread.
pub fn received(request: Option<RenderRequest>) -> (step: WorkerStep)
    ensures
        step == received_step(request),
        request matches Some(first) ==> step.task == WorkerTask::Poll(first),
        request is None ==> step.task is Stop,
        step.notice is None,
{
    match request {
        Some(first) => WorkerStep { task: WorkerTask::Poll(first), notice: None },
        None => WorkerStep { task: WorkerTask::Stop, notice: None },
    }
}

/// The step after a look for a request newer than `latest`.
pub open spec fn polled_step(latest: RenderRequest, newer: Option<RenderRequest>) -> WorkerStep {
    match newer {
        Some(request) => quietly(WorkerTask::Poll(request)),
        None => quietly(WorkerTask::Render(latest, TEXTURE_SIZE, TEXTURE_SIZE)),
    }
}

/// After a look for a request newer than `latest`: a newer one takes its place, and
/// when there is none it is rendered.
pub fn polled(latest: RenderRequest, newer: Option<RenderRequest>) -> (step: WorkerStep)
    ensures
        step == polled_step(latest, newer),
        newer matches Some(request) ==> step.task == WorkerTask::Poll(request),
        newer is None ==> step.task == WorkerTask::Render(latest, 1024, 1024),
        step.notice is None,
{
    match newer {
        Some(request) => WorkerStep { task: WorkerTask::Poll(request), notice: None },
        None => WorkerStep { task: WorkerTask::Render(latest, TEXTURE_SIZE, TEXTURE_SIZE), notice: None },
    }
}

/// The step after a request was rendered.
pub open spec fn rendered_step(request: RenderRequest, rgba: Option<Vec<u8>>) -> WorkerStep {
    match rgba {
        Some(rgba) => quietly(
            WorkerTask::Reply(RenderResponse { rgba, snapshot: request.pose }),
        ),
        None => noting(WorkerNotice::NoBytes, WorkerTask::Receive),
    }
}

/// After a request was rendered: its bytes are sent together with the camera it asked
/// for; without bytes the worker waits for the next request.
pub fn rendered(request: RenderRequest, rgba: Option<Vec<u8>>) -> (step: WorkerStep)
    ensures
        step == rendered_step(request, rgba),
        rgba matches Some(bytes) ==> {
            &&& step.task matches WorkerTask::Reply(response)
            &&& response.rgba == bytes
            &&& response.snapshot == request.pose
            &&& step.notice is None
        },
        rgba is None ==> step.task is Receive && step.notice == Some(WorkerNotice::NoBytes),
{
    match rgba {
        Some(rgba) => WorkerStep {
            task: WorkerTask::Reply(RenderResponse { rgba, snapshot: request.pose }),
            notice: None,
        },
        None => WorkerStep { task: WorkerTask::Receive, notice: Some(WorkerNotice::NoBytes) },
    }
}

/// After a response was sent, or nobody was left to receive it, which ends the thread.
pub fn replied(delivered: bool) -> (step: WorkerStep)
    ensures
        step == replied_step(delivered),
        delivered ==> step.task is Receive,
        !delivered ==> step.task is Stop,
        step.notice is None,
{
    if delivered {
        WorkerStep { task: WorkerTask::Receive, notice: None }
    } else {
        WorkerStep { task: WorkerTask::Stop, notice: None }
    }
}

/// The task after a first request was received and a series of looks that each found a
/// newer one.
pub open spec fn task_after_backlog(first: RenderRequest, backlog: Seq<RenderRequest>) -> WorkerTask
    decreases backlog.len(),
{
    if backlog.len() == 0 {
        received_step(Some(first)).task
    } else {
        match task_after_backlog(first, backlog.drop_last()) {
            WorkerTask::Poll(latest) => polled_step(latest, Some(backlog.last())).task,
            task => task,
        }
    }
}

/// Only the newest request is honored: after a first request and a backlog the worker
/// still looks for newer ones, and when there are none it renders the last of the
/// backlog, or the first request if there was no backlog.
pub proof fn law_newest_request_is_rendered(first: RenderRequest, backlog: Seq<RenderRequest>)
    ensures
        ({
            let newest = if backlog.len() == 0 {
                first
            } else {
                backlog.last()
            };
            &&& task_after_backlog(first, backlog) == WorkerTask::Poll(newest)
            &&& polled_step(newest, None).task == WorkerTask::Render(newest, 1024, 1024)
        }),
    decreases backlog.len(),
{
    if backlog.len() > 0 {
        law_newest_request_is_rendered(first, backlog.drop_last());
    }
}

/// How a task went.
pub enum WorkerEvent {
    /// The runtime was built, or could not be.
    RuntimeBuilt(bool),
    /// The renderer was created, or could not be.
    RendererCreated(bool),
    /// Waiting brought a request, or the end of the channel.
    Received(Option<RenderRequest>),
    /// A look without waiting brought a request, or none.
    Polled(Option<RenderRequest>),
    /// Rendering gave bytes, or none.
    Rendered(Option<Vec<u8>>),
    /// The response was sent, or nobody was left to receive it.
    Replied(bool),
}

/// Whether an event tells how a task of that kind went.
pub open spec fn ends(event: WorkerEvent, task: WorkerTask) -> bool {
    match event {
        WorkerEvent::RuntimeBuilt(_) => task is BuildRuntime,
        WorkerEvent::RendererCreated(_) => task is CreateRenderer,
        WorkerEvent::Received(_) => task is Receive,
        WorkerEvent::Polled(_) => task is Poll,
        WorkerEvent::Rendered(_) => task is Render,
        WorkerEvent::Replied(_) => task is Reply,
    }
}

/// The task that follows one that went as the event tells.
pub open spec fn next_task(task: WorkerTask, event: WorkerEvent) -> WorkerTask {
    match event {
        WorkerEvent::RuntimeBuilt(built) => runtime_step(built).task,
        WorkerEvent::RendererCreated(created) => renderer_step(created).task,
        WorkerEvent::Received(request) => received_step(request).task,
        WorkerEvent::Polled(newer) => polled_step(task->Poll_0, newer).task,
        WorkerEvent::Rendered(rgba) => rendered_step(task->Render_0, rgba).task,
        WorkerEvent::Replied(delivered) => replied_step(delivered).task,
    }
}

/// The task that the thread has after a series of events.
pub open spec fn task_after(events: Seq<WorkerEvent>) -> WorkerTask
    decreases events.len(),
{
    if events.len() == 0 {
        WorkerTask::BuildRuntime
    } else {
        next_task(task_after(events.drop_last()), events.last())
    }
}

/// Whether a series of events can be the life of the thread so far: each tells how the
/// task went that the thread then had.
pub open spec fn is_life(events: Seq<WorkerEvent>) -> bool
    decreases events.len(),
{
    events.len() > 0 ==> is_life(events.drop_last()) && ends(
        events.last(),
        task_after(events.drop_last()),
    )
}

/// The requests that a series of events took from the channel, in their order.
pub open spec fn requests_taken(events: Seq<WorkerEvent>) -> Seq<RenderRequest>
    decreases events.len(),
{
    if events.len() == 0 {
        Seq::empty()
    } else {
        let before = requests_taken(events.drop_last());
        match events.last() {
            WorkerEvent::Received(Some(request)) => before.push(request),
            WorkerEvent::Polled(Some(request)) => before.push(request),
            _ => before,
        }
    }
}

/// The responses that a series of events sent, in their order.
pub open spec fn responses_sent(events: Seq<WorkerEvent>) -> Seq<RenderResponse>
    decreases events.len(),
{
    if events.len() == 0 {
        Seq::empty()
    } else {
        let before = responses_sent(events.drop_last());
        match events.last() {
            WorkerEvent::Replied(true) => before.push(
                task_after(events.drop_last())->Reply_0,
            ),
            _ => before,
        }
    }
}

/// For each response sent, which of the requests taken it answers: the one taken last
/// before it.
pub open spec fn answered(events: Seq<WorkerEvent>) -> Seq<int>
    decreases events.len(),
{
    if events.len() == 0 {
        Seq::empty()
    } else {
        let before = answered(events.drop_last());
        match events.last() {
            WorkerEvent::Replied(true) => before.push(requests_taken(events).len() - 1),
            _ => before,
        }
    }
}

/// Whether the answers to a number of requests are in order and leave the last `open`
/// requests unanswered.
spec fn in_order(answers: Seq<int>, requests: int, open: int) -> bool {
    &&& answers.len() + open <= requests
    &&& forall|k: int| 0 <= k < answers.len() ==> 0 <= #[trigger] answers[k] < requests - open
    &&& forall|k: int, l: int| 0 <= k < l < answers.len() ==> answers[k] < answers[l]
}

/// Between taking a request and answering it the thread holds the request taken last,
/// and has not answered it yet.
proof fn lemma_holds_last_request(events: Seq<WorkerEvent>)
    requires
        is_life(events),
    ensures
        ({
            let requests = requests_taken(events);
            let open: int = match task_after(events) {
                WorkerTask::Poll(_) | WorkerTask::Render(_, _, _) | WorkerTask::Reply(_) => 1,
                _ => 0,
            };
            &&& in_order(answered(events), requests.len() as int, open)
            &&& match task_after(events) {
                WorkerTask::Poll(request) => request == requests.last(),
                WorkerTask::Render(request, _, _) => request == requests.last(),
                WorkerTask::Reply(response) => response.snapshot == requests.last().pose,
                _ => true,
            }
        }),
    decreases events.len(),
{
    if events.len() > 0 {
        lemma_holds_last_request(events.drop_last());
    }
}

/// Answers follow the order of the requests: over the life of the thread the responses
/// sent answer a strictly increasing selection of the requests taken, each with the
/// camera of the request it answers. So no request is answered twice, no response comes
/// without a request, and no answer goes back to an older request.
pub proof fn law_answers_follow_requests(events: Seq<WorkerEvent>)
    requires
        is_life(events),
    ensures
        responses_sent(events).len() <= requests_taken(events).len(),
        answered(events).len() == responses_sent(events).len(),
        forall|k: int|
            0 <= k < answered(events).len() ==> {
                &&& 0 <= #[trigger] answered(events)[k] < requests_taken(events).len()
                &&& responses_sent(events)[k].snapshot == requests_taken(events)[answered(
                    events,
                )[k]].pose
            },
        forall|k: int, l: int|
            0 <= k < l < answered(events).len() ==> answered(events)[k] < answered(events)[l],
    decreases events.len(),
{
    lemma_holds_last_request(events);
    if events.len() > 0 {
        let before = events.drop_last();
        lemma_holds_last_request(before);
        law_answers_follow_requests(before);
        assert forall|k: int| 0 <= k < answered(events).len() implies {
            &&& 0 <= #[trigger] answered(events)[k] < requests_taken(events).len()
            &&& responses_sent(events)[k].snapshot == requests_taken(events)[answered(
                events,
            )[k]].pose
        } by {
            if k < answered(before).len() {
                assert(answered(events)[k] == answered(before)[k]);
            }
        }
    }
}

/// What the thread does follows from what happened last, over its whole life:
///
/// - it creates a renderer of the texture's size only right after the runtime was built;
/// - it waits for a request right after the renderer was created, after a rendering
///   without bytes, or after a response was delivered, and at no other time;
/// - it looks for newer requests right after it took one, which it keeps meanwhile;
/// - it renders only right after a look that found nothing newer, and then the request
///   taken last, in a view of the texture's size;
/// - it replies only right after a rendering with bytes, with these bytes and the camera
///   of the request taken last;
/// - it stops if the runtime or the renderer failed or a channel is closed, and then only.
pub proof fn law_task_follows_event(events: Seq<WorkerEvent>)
    requires
        is_life(events),
        events.len() > 0,
    ensures
        task_after(events) is CreateRenderer <==> events.last() == WorkerEvent::RuntimeBuilt(true),
        task_after(events) matches WorkerTask::CreateRenderer(width, height) ==> width == 1024
            && height == 1024,
        task_after(events) is Receive <==> {
            ||| events.last() == WorkerEvent::RendererCreated(true)
            ||| events.last() == WorkerEvent::Rendered(None)
            ||| events.last() == WorkerEvent::Replied(true)
        },
        task_after(events) is Poll <==> {
            ||| events.last() matches WorkerEvent::Received(request) && request is Some
            ||| events.last() matches WorkerEvent::Polled(request) && request is Some
        },
        task_after(events) matches WorkerTask::Poll(request) ==> {
            ||| events.last() == WorkerEvent::Received(Some(request))
            ||| events.last() == WorkerEvent::Polled(Some(request))
        },
        task_after(events) is Render <==> events.last() == WorkerEvent::Polled(None),
        task_after(events) matches WorkerTask::Render(request, width, height) ==> {
            &&& requests_taken(events).len() > 0
            &&& request == requests_taken(events).last()
            &&& width == 1024
            &&& height == 1024
        },
        task_after(events) is Reply <==> (events.last() matches WorkerEvent::Rendered(rgba)
            && rgba is Some),
        task_after(events) matches WorkerTask::Reply(response) ==> {
            &&& events.last() == WorkerEvent::Rendered(Some(response.rgba))
            &&& requests_taken(events).len() > 0
            &&& response.snapshot == requests_taken(events).last().pose
        },
        task_after(events) is Stop <==> {
            ||| events.last() == WorkerEvent::RuntimeBuilt(false)
            ||| events.last() == WorkerEvent::RendererCreated(false)
            ||| events.last() == WorkerEvent::Received(None)
            ||| events.last() == WorkerEvent::Replied(false)
        },
        !(task_after(events) is BuildRuntime),
{
    lemma_holds_last_request(events);
    lemma_holds_last_request(events.drop_last());
}

/// What is logged: a failed runtime, a failed renderer and a rendering without bytes, and
/// nothing else.
pub proof fn law_only_failures_are_noted(
    flag: bool,
    latest: RenderRequest,
    request: Option<RenderRequest>,
    rgba: Option<Vec<u8>>,
)
    ensures
        runtime_step(flag).notice == (if flag {
            None
        } else {
            Some(WorkerNotice::RuntimeFailed)
        }),
        renderer_step(flag).notice == (if flag {
            None
        } else {
            Some(WorkerNotice::RendererFailed)
        }),
        received_step(request).notice is None,
        polled_step(latest, request).notice is None,
        rendered_step(latest, rgba).notice == (if rgba is Some {
            None
        } else {
            Some(WorkerNotice::NoBytes)
        }),
        replied_step(flag).notice is None,
{
}

/// Whether in a series of events every rendering gave bytes and every response found
/// its receiver.
pub open spec fn all_went_well(events: Seq<WorkerEvent>) -> bool {
    forall|i: int|
        0 <= i < events.len() ==> match #[trigger] events[i] {
            WorkerEvent::Rendered(rgba) => rgba is Some,
            WorkerEvent::Replied(delivered) => delivered,
            _ => true,
        }
}

/// The last word is on the last request: if every rendering gives bytes and every
/// response finds its receiver, then whenever the thread waits for a request, and when
/// it has stopped, the last response sent carries the camera of the last request taken.
pub proof fn law_last_request_is_answered(events: Seq<WorkerEvent>)
    requires
        is_life(events),
        all_went_well(events),
        task_after(events) is Receive || task_after(events) is Stop,
        requests_taken(events).len() > 0,
    ensures
        responses_sent(events).len() > 0,
        responses_sent(events).last().snapshot == requests_taken(events).last().pose,
    decreases events.len(),
{
    let before = events.drop_last();
    assert forall|i: int| 0 <= i < before.len() implies match #[trigger] before[i] {
        WorkerEvent::Rendered(rgba) => rgba is Some,
        WorkerEvent::Replied(delivered) => delivered,
        _ => true,
    } by {
        assert(before[i] == events[i]);
    }
    assert(events[events.len() - 1] == events.last());
    lemma_holds_last_request(before);
    if task_after(before) is Receive {
        law_last_request_is_answered(before);
    } else if !(task_after(before) is Reply) {
        lemma_takes_nothing_at_first(before);
    }
}

/// Before its renderer is created the thread takes no request.
proof fn lemma_takes_nothing_at_first(events: Seq<WorkerEvent>)
    requires
        is_life(events),
    ensures
        task_after(events) is BuildRuntime || task_after(events) is CreateRenderer
            ==> requests_taken(events).len() == 0,
    decreases events.len(),
{
    if events.len() > 0 {
        lemma_takes_nothing_at_first(events.drop_last());
    }
}

/// A request comes full circle: the response to it, once taken in, shows the camera
/// that asked for it, so that with a positive scale this camera does not ask again.
pub proof fn law_answer_settles_camera(
    request: RenderRequest,
    rgba: Vec<u8>,
    state: BasemapState,
    now: u128,
)
    requires
        request.pose@.usable(),
        !binary32::negative(request.pose@.scale),
    ensures
        rendered_step(request, Some(rgba)).task matches WorkerTask::Reply(response)
            && response.rgba == rgba && {
            let refreshed = basemap::after_response(state, Some(response.snapshot));
            &&& refreshed.last_render == Some(request.pose)
            &&& !refreshed.in_flight
            &&& !basemap::asks(refreshed, Some(request.pose@), now)
        },
{
    let refreshed = basemap::after_response(state, Some(request.pose));
    basemap::law_settles(refreshed, request.pose@, now);
}

} // verus!

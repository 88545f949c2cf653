//! How one request is answered.
//!
//! The dispatcher is a state machine. It never touches the file system
//! itself: each step names the one thing that whoever drives it must do next
//! (look a path up, enumerate a directory, hand a file to the primitive that
//! streams files, send a response) and the next step takes what came of it.
//! A request is over when a response has been sent or a file has been served.

use vstd::prelude::*;
use vstd::string::*;
use crate::bytes::{append, copy};
use crate::children::{Child, ChildView};
use crate::config::{ServerConfig, ServerConfigView};
use crate::listing::{dir, directory_html};
use crate::paths::{join, joined, resolve, resolved, within};
use crate::target::{ResolvedTarget, ResolvedTargetView, admits, admitted};

verus! {

/// The status of a response that carries what was asked for.
pub const OK: u16 = 200;

/// The status of the response to a request for what does not exist.
pub const NOT_FOUND: u16 = 404;

/// The status of the response to a request with a method other than GET.
pub const METHOD_NOT_ALLOWED: u16 = 405;

/// The status of the response to a request that failed on the server's side.
pub const INTERNAL_SERVER_ERROR: u16 = 500;

/// The body of a response with the status [`NOT_FOUND`].
pub const NOT_FOUND_BODY: &'static str = "Requested path does not exist.\n";

/// The body of a response with the status [`METHOD_NOT_ALLOWED`].
pub const METHOD_NOT_ALLOWED_BODY: &'static str = "Method Not Allowed.\n";

/// The body of a response with the status [`INTERNAL_SERVER_ERROR`].
pub const INTERNAL_SERVER_ERROR_BODY: &'static str = "Internal Server Error.\n";

/// The name of the file that is served in place of a directory's listing.
pub const INDEX_NAME: &'static str = "index.html";

/// What stands between the two halves of a log line.
pub const LOG_ARROW: &'static str = " => ";

/// What the second half of a log line begins with when a listing is served.
pub const LOG_LISTING: &'static str = "Listing ";

/// The second half of the log line of a request with a method other than GET.
pub const LOG_REJECTED: &'static str = "Method Not Allowed";

/// The method of a request.
#[derive(Debug, Clone, Copy, PartialEq, Eq, Structural)]
pub enum Method {
    Get,
    Post,
    Put,
    Delete,
    Head,
    Connect,
    Options,
    Trace,
    Patch,
}

/// The content type of a response.
#[derive(Debug, Clone, Copy, PartialEq, Eq, Structural)]
pub enum ContentType {
    /// None is set: the body is plain text.
    Unspecified,
    /// `text/html`.
    Html,
}

/// The value of the `Content-Type` header that says that a body is HTML.
pub const TEXT_HTML: &'static str = "text/html";

impl ContentType {
    /// The value of the `Content-Type` header of a response with this
    /// content type, if it has that header.
    pub open spec fn header(self) -> Option<Seq<char>> {
        match self {
            ContentType::Unspecified => None,
            ContentType::Html => Some(TEXT_HTML@),
        }
    }

    /// Gives the value of the `Content-Type` header of a response with this
    /// content type, if it has that header.
    pub fn header_value(&self) -> (value: Option<&'static str>)
        ensures
            match value {
                Some(text) => self.header() == Some(text@),
                None => self.header() is None,
            },
    {
        match self {
            ContentType::Unspecified => None,
            ContentType::Html => Some(TEXT_HTML),
        }
    }
}

/// A response that the dispatcher wrote itself.
#[derive(Debug, Clone, PartialEq, Eq)]
pub struct Response {
    pub status: u16,
    pub content_type: ContentType,
    pub body: Vec<u8>,
}

/// What a [`Response`] holds.
pub struct ResponseView {
    pub status: u16,
    pub content_type: ContentType,
    pub body: Seq<u8>,
}

impl View for Response {
    type V = ResponseView;

    open spec fn view(&self) -> ResponseView {
        ResponseView { status: self.status, content_type: self.content_type, body: self.body@ }
    }
}

/// What happened, as told to the dispatcher.
#[derive(Debug, Clone, PartialEq, Eq)]
pub enum Event {
    /// A request came in.
    Request { method: Method, path: Vec<u8> },
    /// The path named by [`Action::Probe`] was looked up.
    Probed(ResolvedTarget),
    /// The directory named by [`Action::List`] was enumerated; `None` if
    /// that failed.
    Children(Option<Vec<Child>>),
    /// The file named by [`Action::Serve`] was handed to the primitive that
    /// streams files; the flag says whether it took the file.
    Served(bool),
}

/// What an [`Event`] holds.
pub enum EventView {
    Request { method: Method, path: Seq<u8> },
    Probed(ResolvedTargetView),
    Children(Option<Seq<ChildView>>),
    Served(bool),
}

impl View for Event {
    type V = EventView;

    open spec fn view(&self) -> EventView {
        match self {
            Event::Request { method, path } => EventView::Request { method: *method, path: path@ },
            Event::Probed(target) => EventView::Probed(target@),
            Event::Children(Some(children)) => EventView::Children(Some(children.deep_view())),
            Event::Children(None) => EventView::Children(None),
            Event::Served(taken) => EventView::Served(*taken),
        }
    }
}

/// What is to be done next for a request.
#[derive(Debug, Clone, PartialEq, Eq)]
pub enum Action {
    /// Look `path` up and report an [`Event::Probed`].
    Probe { path: Vec<u8> },
    /// Enumerate the children of the directory `path` and report an
    /// [`Event::Children`].
    List { path: Vec<u8> },
    /// Hand the file `path` to the primitive that streams files and report
    /// an [`Event::Served`].
    Serve { path: Vec<u8> },
    /// Send the response. The request is over.
    Respond(Response),
    /// Nothing: the request is over.
    Finish,
}

/// What an [`Action`] holds.
pub enum ActionView {
    Probe { path: Seq<u8> },
    List { path: Seq<u8> },
    Serve { path: Seq<u8> },
    Respond(ResponseView),
    Finish,
}

impl View for Action {
    type V = ActionView;

    open spec fn view(&self) -> ActionView {
        match self {
            Action::Probe { path } => ActionView::Probe { path: path@ },
            Action::List { path } => ActionView::List { path: path@ },
            Action::Serve { path } => ActionView::Serve { path: path@ },
            Action::Respond(response) => ActionView::Respond(response@),
            Action::Finish => ActionView::Finish,
        }
    }
}

/// How far the handling of a request has come.
#[derive(Debug, Clone, PartialEq, Eq)]
pub enum State {
    /// No request has come in yet.
    Idle,
    /// The target of the request `request` is being looked up.
    Resolving { request: Vec<u8>, target: Vec<u8> },
    /// The target is a directory; its index file is being looked up.
    SeekingIndex { request: Vec<u8>, target: Vec<u8>, index: Vec<u8> },
    /// The target is a directory without an index file; its children are
    /// being enumerated.
    Listing { target: Vec<u8> },
    /// A file is being served.
    Serving,
    /// The request is over.
    Done,
}

/// What a [`State`] holds.
pub enum StateView {
    Idle,
    Resolving { request: Seq<u8>, target: Seq<u8> },
    SeekingIndex { request: Seq<u8>, target: Seq<u8>, index: Seq<u8> },
    Listing { target: Seq<u8> },
    Serving,
    Done,
}

impl View for State {
    type V = StateView;

    open spec fn view(&self) -> StateView {
        match self {
            State::Idle => StateView::Idle,
            State::Resolving { request, target } => StateView::Resolving {
                request: request@,
                target: target@,
            },
            State::SeekingIndex { request, target, index } => StateView::SeekingIndex {
                request: request@,
                target: target@,
                index: index@,
            },
            State::Listing { target } => StateView::Listing { target: target@ },
            State::Serving => StateView::Serving,
            State::Done => StateView::Done,
        }
    }
}

/// One step of the dispatcher: where it now stands, what is to be done next,
/// and the line to log, if this step settled what the request comes to.
#[derive(Debug, Clone, PartialEq, Eq)]
pub struct Step {
    pub state: State,
    pub action: Action,
    pub log: Option<Vec<u8>>,
}

/// What a [`Step`] holds.
pub struct StepView {
    pub state: StateView,
    pub action: ActionView,
    pub log: Option<Seq<u8>>,
}

impl View for Step {
    type V = StepView;

    open spec fn view(&self) -> StepView {
        StepView {
            state: self.state@,
            action: self.action@,
            log: match self.log {
                Some(line) => Some(line@),
                None => None,
            },
        }
    }
}

/// What can go wrong with a request.
#[derive(Debug, Clone, Copy, PartialEq, Eq, Structural)]
pub enum Failure {
    /// What was asked for does not exist, or really lies outside the base
    /// directory.
    NotFound,
    /// The method of the request is not GET.
    MethodNotAllowed,
    /// A directory could not be enumerated.
    DirectoryRead,
    /// The primitive that streams files did not take a file.
    FileStream,
    /// The dispatcher was told of an event that it did not wait for.
    OutOfTurn,
}

impl Failure {
    /// The status of the response to a request that failed in this way.
    pub open spec fn status(self) -> u16 {
        match self {
            Failure::NotFound => NOT_FOUND,
            Failure::MethodNotAllowed => METHOD_NOT_ALLOWED,
            Failure::DirectoryRead => INTERNAL_SERVER_ERROR,
            Failure::FileStream => INTERNAL_SERVER_ERROR,
            Failure::OutOfTurn => INTERNAL_SERVER_ERROR,
        }
    }

    /// The body of the response to a request that failed in this way.
    pub open spec fn body(self) -> Seq<u8> {
        match self {
            Failure::NotFound => NOT_FOUND_BODY.spec_bytes(),
            Failure::MethodNotAllowed => METHOD_NOT_ALLOWED_BODY.spec_bytes(),
            Failure::DirectoryRead => INTERNAL_SERVER_ERROR_BODY.spec_bytes(),
            Failure::FileStream => INTERNAL_SERVER_ERROR_BODY.spec_bytes(),
            Failure::OutOfTurn => INTERNAL_SERVER_ERROR_BODY.spec_bytes(),
        }
    }

    /// The response to a request that failed in this way: its status and
    /// its body, as plain text.
    pub open spec fn response(self) -> ResponseView {
        ResponseView {
            status: self.status(),
            content_type: ContentType::Unspecified,
            body: self.body(),
        }
    }

    /// Writes the response to a request that failed in this way.
    pub fn to_response(&self) -> (response: Response)
        ensures
            response@ == self.response(),
    {
        match self {
            Failure::NotFound => plain(NOT_FOUND, NOT_FOUND_BODY),
            Failure::MethodNotAllowed => plain(METHOD_NOT_ALLOWED, METHOD_NOT_ALLOWED_BODY),
            Failure::DirectoryRead => plain(INTERNAL_SERVER_ERROR, INTERNAL_SERVER_ERROR_BODY),
            Failure::FileStream => plain(INTERNAL_SERVER_ERROR, INTERNAL_SERVER_ERROR_BODY),
            Failure::OutOfTurn => plain(INTERNAL_SERVER_ERROR, INTERNAL_SERVER_ERROR_BODY),
        }
    }
}

/// The response to a request for what does not exist.
pub open spec fn not_found() -> ResponseView {
    Failure::NotFound.response()
}

/// The response to a request with a method other than GET.
pub open spec fn method_not_allowed() -> ResponseView {
    Failure::MethodNotAllowed.response()
}

/// The response to a request that failed on the server's side.
pub open spec fn internal_server_error() -> ResponseView {
    Failure::FileStream.response()
}

/// The response that carries the listing of the directory `target`.
pub open spec fn listing_response(
    base: Seq<u8>,
    target: Seq<u8>,
    children: Seq<ChildView>,
) -> ResponseView {
    ResponseView {
        status: OK,
        content_type: ContentType::Html,
        body: directory_html(base, target, children),
    }
}

/// The log line of a request: its path, an arrow, and what it came to.
pub open spec fn log_line(request: Seq<u8>, outcome: Seq<u8>) -> Seq<u8> {
    request + LOG_ARROW.spec_bytes() + outcome
}

/// The path of the index file of the directory `target`.
pub open spec fn index_of(target: Seq<u8>) -> Seq<u8> {
    joined(target, INDEX_NAME.spec_bytes())
}

/// The step that ends a request with `response`.
pub open spec fn respond(response: ResponseView, log: Option<Seq<u8>>) -> StepView {
    StepView { state: StateView::Done, action: ActionView::Respond(response), log }
}

/// The first step for a GET request: its target is to be looked up.
pub open spec fn on_get(base: Seq<u8>, request: Seq<u8>) -> StepView {
    StepView {
        state: StateView::Resolving { request, target: resolved(base, request) },
        action: ActionView::Probe { path: resolved(base, request) },
        log: None,
    }
}

/// The first step for a request: a method other than GET is refused without
/// a look at the path.
pub open spec fn on_request(base: Seq<u8>, method: Method, request: Seq<u8>) -> StepView {
    if method == Method::Get {
        on_get(base, request)
    } else {
        respond(method_not_allowed(), Some(log_line(request, LOG_REJECTED.spec_bytes())))
    }
}

/// The step after the target was looked up. What is missing, or really lies
/// outside the base directory, is not found; for a directory the index file
/// is looked up next; a file is served.
pub open spec fn on_target(
    base: Seq<u8>,
    request: Seq<u8>,
    target: Seq<u8>,
    found: ResolvedTargetView,
) -> StepView {
    if !admitted(base, found) {
        respond(not_found(), Some(log_line(request, target)))
    } else if found.is_directory {
        StepView {
            state: StateView::SeekingIndex { request, target, index: index_of(target) },
            action: ActionView::Probe { path: index_of(target) },
            log: None,
        }
    } else {
        StepView {
            state: StateView::Serving,
            action: ActionView::Serve { path: target },
            log: Some(log_line(request, target)),
        }
    }
}

/// The step after the index file of a directory was looked up. Without one
/// the directory is listed; one that may be shown is served; one that really
/// lies outside the base directory is not found.
pub open spec fn on_index(
    base: Seq<u8>,
    request: Seq<u8>,
    target: Seq<u8>,
    index: Seq<u8>,
    found: ResolvedTargetView,
) -> StepView {
    if !found.exists {
        StepView {
            state: StateView::Listing { target },
            action: ActionView::List { path: target },
            log: Some(log_line(request, LOG_LISTING.spec_bytes() + target)),
        }
    } else if admitted(base, found) {
        StepView {
            state: StateView::Serving,
            action: ActionView::Serve { path: index },
            log: Some(log_line(request, index)),
        }
    } else {
        respond(not_found(), Some(log_line(request, index)))
    }
}

/// The step after a directory was enumerated: its listing, or an error if
/// it could not be read.
pub open spec fn on_children(
    base: Seq<u8>,
    target: Seq<u8>,
    children: Option<Seq<ChildView>>,
) -> StepView {
    match children {
        Some(children) => respond(listing_response(base, target, children), None),
        None => respond(Failure::DirectoryRead.response(), None),
    }
}

/// The step after a file was handed over: nothing if it was taken, an error
/// if not.
pub open spec fn on_served(taken: bool) -> StepView {
    if taken {
        StepView { state: StateView::Done, action: ActionView::Finish, log: None }
    } else {
        respond(Failure::FileStream.response(), None)
    }
}

/// The step that the dispatcher takes in `state` when told of `event`. An
/// event that the state does not wait for ends the request with an error.
pub open spec fn next_step(config: ServerConfigView, state: StateView, event: EventView) -> StepView {
    let base = config.base_directory;
    match (state, event) {
        (StateView::Idle, EventView::Request { method, path }) => on_request(base, method, path),
        (StateView::Resolving { request, target }, EventView::Probed(found)) => on_target(
            base,
            request,
            target,
            found,
        ),
        (StateView::SeekingIndex { request, target, index }, EventView::Probed(found)) => on_index(
            base,
            request,
            target,
            index,
            found,
        ),
        (StateView::Listing { target }, EventView::Children(children)) => on_children(
            base,
            target,
            children,
        ),
        (StateView::Serving, EventView::Served(taken)) => on_served(taken),
        _ => respond(Failure::OutOfTurn.response(), None),
    }
}

/// Writes a response without a content type.
fn plain(status: u16, body: &str) -> (response: Response)
    ensures
        response@ == (ResponseView {
            status,
            content_type: ContentType::Unspecified,
            body: body.spec_bytes(),
        }),
{
    Response { status, content_type: ContentType::Unspecified, body: copy(body.as_bytes()) }
}

/// Writes the log line of a request.
fn line(request: &[u8], outcome: &[u8]) -> (line: Vec<u8>)
    ensures
        line@ == log_line(request@, outcome@),
{
    let mut line = copy(request);
    append(&mut line, LOG_ARROW.as_bytes());
    append(&mut line, outcome);
    line
}

/// Ends a request with `response`.
fn finish(response: Response, log: Option<Vec<u8>>) -> (step: Step)
    ensures
        step@ == respond(
            response@,
            match log {
                Some(l) => Some(l@),
                None => None,
            },
        ),
{
    Step { state: State::Done, action: Action::Respond(response), log }
}

/// The response to a request with a method other than GET.
pub fn handle_other() -> (response: Response)
    ensures
        response@ == method_not_allowed(),
{
    Failure::MethodNotAllowed.to_response()
}

/// Takes the first step for a GET request for `request`.
pub fn handle_get(config: &ServerConfig, request: Vec<u8>) -> (step: Step)
    ensures
        step@ == on_get(config@.base_directory, request@),
{
    let target = resolve(config.base_directory.as_slice(), request.as_slice());
    let path = copy(target.as_slice());
    Step { state: State::Resolving { request, target }, action: Action::Probe { path }, log: None }
}

/// Takes the step after the target was looked up.
fn handle_target(
    config: &ServerConfig,
    request: Vec<u8>,
    target: Vec<u8>,
    found: ResolvedTarget,
) -> (step: Step)
    ensures
        step@ == on_target(config@.base_directory, request@, target@, found@),
{
    if !admits(config.base_directory.as_slice(), &found) {
        let log = line(request.as_slice(), target.as_slice());
        finish(Failure::NotFound.to_response(), Some(log))
    } else if found.is_directory {
        let index = join(target.as_slice(), INDEX_NAME.as_bytes());
        let path = copy(index.as_slice());
        Step {
            state: State::SeekingIndex { request, target, index },
            action: Action::Probe { path },
            log: None,
        }
    } else {
        let log = line(request.as_slice(), target.as_slice());
        Step { state: State::Serving, action: Action::Serve { path: target }, log: Some(log) }
    }
}

/// Takes the step after the index file of a directory was looked up.
fn handle_index(
    config: &ServerConfig,
    request: Vec<u8>,
    target: Vec<u8>,
    index: Vec<u8>,
    found: ResolvedTarget,
) -> (step: Step)
    ensures
        step@ == on_index(config@.base_directory, request@, target@, index@, found@),
{
    if !found.exists {
        let mut outcome = copy(LOG_LISTING.as_bytes());
        append(&mut outcome, target.as_slice());
        let log = line(request.as_slice(), outcome.as_slice());
        let path = copy(target.as_slice());
        Step { state: State::Listing { target }, action: Action::List { path }, log: Some(log) }
    } else if admits(config.base_directory.as_slice(), &found) {
        let log = line(request.as_slice(), index.as_slice());
        Step { state: State::Serving, action: Action::Serve { path: index }, log: Some(log) }
    } else {
        let log = line(request.as_slice(), index.as_slice());
        finish(Failure::NotFound.to_response(), Some(log))
    }
}

/// Takes the step after a directory was enumerated.
fn handle_children(config: &ServerConfig, target: Vec<u8>, children: Option<Vec<Child>>) -> (step:
    Step)
    ensures
        step@ == on_children(
            config@.base_directory,
            target@,
            match children {
                Some(c) => Some(c.deep_view()),
                None => None,
            },
        ),
{
    match children {
        Some(children) => {
            let body = dir(config.base_directory.as_slice(), target.as_slice(), children);
            finish(Response { status: OK, content_type: ContentType::Html, body }, None)
        },
        None => finish(Failure::DirectoryRead.to_response(), None),
    }
}

/// Takes the next step for a request: tells the dispatcher, which stands in
/// `state`, of `event`, and learns where it now stands and what to do next.
///
/// A request begins in [`State::Idle`] with an [`Event::Request`] and is
/// over with [`Action::Respond`] or [`Action::Finish`].
pub fn handle(config: &ServerConfig, state: State, event: Event) -> (step: Step)
    ensures
        step@ == next_step(config@, state@, event@),
{
    match (state, event) {
        (State::Idle, Event::Request { method, path }) => {
            match method {
                Method::Get => handle_get(config, path),
                _ => {
                    let log = line(path.as_slice(), LOG_REJECTED.as_bytes());
                    finish(handle_other(), Some(log))
                },
            }
        },
        (State::Resolving { request, target }, Event::Probed(found)) => handle_target(
            config,
            request,
            target,
            found,
        ),
        (State::SeekingIndex { request, target, index }, Event::Probed(found)) => handle_index(
            config,
            request,
            target,
            index,
            found,
        ),
        (State::Listing { target }, Event::Children(children)) => handle_children(
            config,
            target,
            children,
        ),
        (State::Serving, Event::Served(taken)) => {
            if taken {
                Step { state: State::Done, action: Action::Finish, log: None }
            } else {
                finish(Failure::FileStream.to_response(), None)
            }
        },
        _ => finish(Failure::OutOfTurn.to_response(), None),
    }
}

/// A request with a method other than GET is refused at once, whatever its
/// path and whatever the file system holds: the response has the status
/// [`METHOD_NOT_ALLOWED`] and the body [`METHOD_NOT_ALLOWED_BODY`], and
/// nothing is looked up.
pub proof fn lemma_other_methods_are_refused(
    config: ServerConfigView,
    method: Method,
    request: Seq<u8>,
)
    requires
        method != Method::Get,
    ensures
        next_step(config, StateView::Idle, EventView::Request { method, path: request }).state
            == StateView::Done,
        next_step(config, StateView::Idle, EventView::Request { method, path: request }).action
            == ActionView::Respond(
            ResponseView {
                status: 405,
                content_type: ContentType::Unspecified,
                body: METHOD_NOT_ALLOWED_BODY.spec_bytes(),
            },
        ),
{
}

/// A GET request first has its target looked up: the base directory itself
/// for the path `/`, otherwise the base directory joined with the path.
pub proof fn lemma_get_looks_target_up(config: ServerConfigView, request: Seq<u8>)
    ensures
        next_step(
            config,
            StateView::Idle,
            EventView::Request { method: Method::Get, path: request },
        ) == on_get(config.base_directory, request),
        on_get(config.base_directory, request).action == (ActionView::Probe {
            path: resolved(config.base_directory, request),
        }),
{
}

/// A GET request for what does not exist is answered with the status
/// [`NOT_FOUND`] and the body [`NOT_FOUND_BODY`].
pub proof fn lemma_missing_is_not_found(
    config: ServerConfigView,
    request: Seq<u8>,
    found: ResolvedTargetView,
)
    requires
        !found.exists,
    ensures
        next_step(
            config,
            on_get(config.base_directory, request).state,
            EventView::Probed(found),
        ).state == StateView::Done,
        next_step(
            config,
            on_get(config.base_directory, request).state,
            EventView::Probed(found),
        ).action == ActionView::Respond(
            ResponseView {
                status: 404,
                content_type: ContentType::Unspecified,
                body: NOT_FOUND_BODY.spec_bytes(),
            },
        ),
{
}

/// Nothing that really lies outside the base directory is ever shown: a
/// target there is not found, and so is an index file there.
pub proof fn lemma_outside_is_not_found(
    config: ServerConfigView,
    request: Seq<u8>,
    target: Seq<u8>,
    index: Seq<u8>,
    found: ResolvedTargetView,
)
    requires
        found.exists,
        !within(found.absolute_path, config.base_directory),
    ensures
        next_step(
            config,
            StateView::Resolving { request, target },
            EventView::Probed(found),
        ).action == ActionView::Respond(not_found()),
        next_step(
            config,
            StateView::SeekingIndex { request, target, index },
            EventView::Probed(found),
        ).action == ActionView::Respond(not_found()),
{
}

/// A GET request for a file within the base directory has that very file
/// served: the target of the request is handed to the primitive that streams
/// files. If the primitive takes it, the request is over; if not, the
/// response has the status [`INTERNAL_SERVER_ERROR`].
pub proof fn lemma_file_is_served(
    config: ServerConfigView,
    request: Seq<u8>,
    found: ResolvedTargetView,
)
    requires
        admitted(config.base_directory, found),
        !found.is_directory,
    ensures
        ({
            let first = on_get(config.base_directory, request);
            let second = next_step(config, first.state, EventView::Probed(found));
            &&& second.action == (ActionView::Serve {
                path: resolved(config.base_directory, request),
            })
            &&& next_step(config, second.state, EventView::Served(true)).action
                == ActionView::Finish
            &&& next_step(config, second.state, EventView::Served(false)).action
                == ActionView::Respond(internal_server_error())
        }),
{
}

/// A GET request for a directory that holds an index file within the base
/// directory has that file served, and the directory is not enumerated.
pub proof fn lemma_index_is_served(
    config: ServerConfigView,
    request: Seq<u8>,
    found: ResolvedTargetView,
    index_found: ResolvedTargetView,
)
    requires
        admitted(config.base_directory, found),
        found.is_directory,
        admitted(config.base_directory, index_found),
    ensures
        ({
            let target = resolved(config.base_directory, request);
            let first = on_get(config.base_directory, request);
            let second = next_step(config, first.state, EventView::Probed(found));
            let third = next_step(config, second.state, EventView::Probed(index_found));
            &&& second.action == (ActionView::Probe {
                path: joined(target, INDEX_NAME.spec_bytes()),
            })
            &&& third.action == (ActionView::Serve {
                path: joined(target, INDEX_NAME.spec_bytes()),
            })
            &&& third.state == StateView::Serving
        }),
{
}

/// A GET request for a directory without an index file is answered with the
/// directory's listing: the status is [`OK`], the content type is HTML, and
/// the body is the listing of the children that the enumeration gave. If the
/// directory cannot be enumerated, the response has the status
/// [`INTERNAL_SERVER_ERROR`].
pub proof fn lemma_directory_is_listed(
    config: ServerConfigView,
    request: Seq<u8>,
    found: ResolvedTargetView,
    index_found: ResolvedTargetView,
    children: Seq<ChildView>,
)
    requires
        admitted(config.base_directory, found),
        found.is_directory,
        !index_found.exists,
    ensures
        ({
            let target = resolved(config.base_directory, request);
            let first = on_get(config.base_directory, request);
            let second = next_step(config, first.state, EventView::Probed(found));
            let third = next_step(config, second.state, EventView::Probed(index_found));
            &&& third.action == (ActionView::List { path: target })
            &&& next_step(config, third.state, EventView::Children(Some(children))).action
                == ActionView::Respond(
                ResponseView {
                    status: 200,
                    content_type: ContentType::Html,
                    body: directory_html(config.base_directory, target, children),
                },
            )
            &&& next_step(config, third.state, EventView::Children(None)).action
                == ActionView::Respond(internal_server_error())
        }),
{
}

/// Whether a step ends the request.
pub open spec fn is_last(step: StepView) -> bool {
    step.action is Respond || step.action is Finish
}

/// A step ends the request exactly when it leaves the dispatcher in
/// [`State::Done`], and every step out of that state is an error: a request
/// is answered once.
pub proof fn lemma_done_is_final(config: ServerConfigView, state: StateView, event: EventView)
    ensures
        is_last(next_step(config, state, event)) <==> next_step(config, state, event).state
            == StateView::Done,
        state == StateView::Done ==> next_step(config, state, event).action
            == ActionView::Respond(internal_server_error()),
{
}

/// Whether `event` is what the dispatcher waits for in `state`.
pub open spec fn awaits(state: StateView, event: EventView) -> bool {
    match (state, event) {
        (StateView::Idle, EventView::Request { .. }) => true,
        (StateView::Resolving { .. }, EventView::Probed(_)) => true,
        (StateView::SeekingIndex { .. }, EventView::Probed(_)) => true,
        (StateView::Listing { .. }, EventView::Children(_)) => true,
        (StateView::Serving, EventView::Served(_)) => true,
        _ => false,
    }
}

/// How many events the dispatcher can still take in `state`, at most, before
/// the request is over.
pub open spec fn events_left(state: StateView) -> nat {
    match state {
        StateView::Idle => 4,
        StateView::Resolving { .. } => 3,
        StateView::SeekingIndex { .. } => 2,
        StateView::Listing { .. } => 1,
        StateView::Serving => 1,
        StateView::Done => 0,
    }
}

/// Whether the line of the request has been logged when the dispatcher has
/// come to `state`.
pub open spec fn has_logged(state: StateView) -> bool {
    state is Listing || state is Serving || state is Done
}

/// Every request comes to an end, and logs one line on the way: each event
/// that the dispatcher waits for brings it nearer to the end, which it
/// reaches after four events at most; and a step carries the line to log
/// exactly when the line had not been logged before it and has been logged
/// after it, which holds of one step on every way from the first state to
/// the last.
pub proof fn lemma_every_request_ends(config: ServerConfigView, state: StateView, event: EventView)
    requires
        awaits(state, event),
    ensures
        events_left(next_step(config, state, event).state) < events_left(state),
        next_step(config, state, event).log is Some <==> !has_logged(state) && has_logged(
            next_step(config, state, event).state,
        ),
        has_logged(state) ==> has_logged(next_step(config, state, event).state),
        !has_logged(StateView::Idle),
        has_logged(StateView::Done),
        events_left(StateView::Idle) == 4,
        events_left(next_step(config, state, event).state) == 0 <==> is_last(
            next_step(config, state, event),
        ),
{
}

} // verus!

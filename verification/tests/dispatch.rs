use dirserve::children::Child;
use dirserve::config::ServerConfig;
use dirserve::dispatch::{
    handle, handle_get, handle_other, Action, ContentType, Event, Failure, Method, Response,
    State, Step, INDEX_NAME, INTERNAL_SERVER_ERROR, INTERNAL_SERVER_ERROR_BODY,
    METHOD_NOT_ALLOWED, METHOD_NOT_ALLOWED_BODY, NOT_FOUND, NOT_FOUND_BODY, OK,
};
use dirserve::listing::dir;
use dirserve::target::ResolvedTarget;

fn child(path: &str, is_directory: bool) -> Child {
    let path = path.as_bytes().to_vec();
    Child::new(path.clone(), ResolvedTarget::existing(path, is_directory))
}

fn config() -> ServerConfig {
    ServerConfig::new(b"/srv".to_vec(), 3000)
}

fn request(method: Method, path: &str) -> Event {
    Event::Request { method, path: path.as_bytes().to_vec() }
}

fn found(path: &str, is_directory: bool) -> Event {
    Event::Probed(ResolvedTarget {
        absolute_path: path.as_bytes().to_vec(),
        exists: true,
        is_directory,
    })
}

fn missing(path: &str) -> Event {
    Event::Probed(ResolvedTarget {
        absolute_path: path.as_bytes().to_vec(),
        exists: false,
        is_directory: false,
    })
}

fn plain(status: u16, body: &str) -> Response {
    Response { status, content_type: ContentType::Unspecified, body: body.as_bytes().to_vec() }
}

fn not_found() -> Response {
    plain(404, "Requested path does not exist.\n")
}

fn server_error() -> Response {
    plain(500, "Internal Server Error.\n")
}

fn log(step: &Step) -> Option<String> {
    step.log.clone().map(|l| String::from_utf8(l).unwrap())
}

fn probe(path: &str) -> Action {
    Action::Probe { path: path.as_bytes().to_vec() }
}

fn serve(path: &str) -> Action {
    Action::Serve { path: path.as_bytes().to_vec() }
}

/// What the file system of the scenario holds: `/srv/file.txt` and the empty
/// directory `/srv/sub`.
fn look_up(path: &[u8]) -> Event {
    match path {
        b"/srv" | b"/srv/" => found("/srv", true),
        b"/srv/file.txt" => found("/srv/file.txt", false),
        b"/srv/sub" | b"/srv/sub/" => found("/srv/sub", true),
        _ => missing(""),
    }
}

fn children_of(path: &[u8]) -> Event {
    match path {
        b"/srv" | b"/srv/" => Event::Children(Some(vec![
            child("/srv/sub", true),
            child("/srv/file.txt", false),
        ])),
        b"/srv/sub" | b"/srv/sub/" => Event::Children(Some(Vec::new())),
        _ => Event::Children(None),
    }
}

/// Runs one request against the scenario. Gives the response that the
/// dispatcher wrote, or the path of the file that it had served.
fn run(method: Method, path: &str) -> Result<Response, Vec<u8>> {
    let config = config();
    let mut step = handle(&config, State::Idle, request(method, path));
    let mut served: Option<Vec<u8>> = None;
    for _ in 0..10 {
        let event = match step.action {
            Action::Probe { path } => look_up(&path),
            Action::List { path } => children_of(&path),
            Action::Serve { path } => {
                let taken = path == b"/srv/file.txt";
                served = Some(path);
                Event::Served(taken)
            }
            Action::Respond(response) => {
                assert_eq!(step.state, State::Done);
                return Ok(response);
            }
            Action::Finish => {
                assert_eq!(step.state, State::Done);
                return Err(served.unwrap());
            }
        };
        step = handle(&config, step.state, event);
    }
    panic!("the request did not come to an end");
}

#[test]
fn constants_of_the_responses() {
    assert_eq!(OK, 200);
    assert_eq!(NOT_FOUND, 404);
    assert_eq!(METHOD_NOT_ALLOWED, 405);
    assert_eq!(INTERNAL_SERVER_ERROR, 500);
    assert_eq!(NOT_FOUND_BODY, "Requested path does not exist.\n");
    assert_eq!(METHOD_NOT_ALLOWED_BODY, "Method Not Allowed.\n");
    assert_eq!(INTERNAL_SERVER_ERROR_BODY, "Internal Server Error.\n");
    assert_eq!(INDEX_NAME, "index.html");
}

#[test]
fn handle_other_is_method_not_allowed() {
    assert_eq!(handle_other(), plain(405, "Method Not Allowed.\n"));
}

#[test]
fn other_methods_are_refused_whatever_the_path() {
    let methods = [
        Method::Post,
        Method::Put,
        Method::Delete,
        Method::Head,
        Method::Connect,
        Method::Options,
        Method::Trace,
        Method::Patch,
    ];
    for method in methods {
        for path in ["/", "/file.txt", "/missing", "/sub/", "//etc/passwd", ""] {
            let step = handle(&config(), State::Idle, request(method, path));
            assert_eq!(step.state, State::Done);
            assert_eq!(step.action, Action::Respond(plain(405, "Method Not Allowed.\n")));
            assert_eq!(log(&step), Some(format!("{} => Method Not Allowed", path)));
            assert_eq!(run(method, path), Ok(plain(405, "Method Not Allowed.\n")));
        }
    }
}

#[test]
fn handle_get_looks_the_target_up() {
    let step = handle_get(&config(), b"/a/b.txt".to_vec());
    assert_eq!(
        step,
        Step {
            state: State::Resolving {
                request: b"/a/b.txt".to_vec(),
                target: b"/srv/a/b.txt".to_vec()
            },
            action: probe("/srv/a/b.txt"),
            log: None,
        }
    );
    assert_eq!(handle(&config(), State::Idle, request(Method::Get, "/a/b.txt")), step);
}

#[test]
fn get_of_the_root_looks_the_base_directory_up() {
    let step = handle(&config(), State::Idle, request(Method::Get, "/"));
    assert_eq!(step.action, probe("/srv"));
}

#[test]
fn get_of_a_missing_path_is_not_found() {
    let first = handle(&config(), State::Idle, request(Method::Get, "/missing"));
    assert_eq!(first.action, probe("/srv/missing"));
    let second = handle(&config(), first.state, missing("/srv/missing"));
    assert_eq!(second.state, State::Done);
    assert_eq!(second.action, Action::Respond(not_found()));
    assert_eq!(log(&second), Some("/missing => /srv/missing".to_string()));
}

#[test]
fn get_of_a_file_serves_the_file() {
    let first = handle(&config(), State::Idle, request(Method::Get, "/file.txt"));
    let second = handle(&config(), first.state, found("/srv/file.txt", false));
    assert_eq!(second.state, State::Serving);
    assert_eq!(second.action, serve("/srv/file.txt"));
    assert_eq!(log(&second), Some("/file.txt => /srv/file.txt".to_string()));
    let third = handle(&config(), second.state, Event::Served(true));
    assert_eq!(third, Step { state: State::Done, action: Action::Finish, log: None });
}

#[test]
fn a_file_that_cannot_be_served_is_a_server_error() {
    let first = handle(&config(), State::Idle, request(Method::Get, "/file.txt"));
    let second = handle(&config(), first.state, found("/srv/file.txt", false));
    let third = handle(&config(), second.state, Event::Served(false));
    assert_eq!(
        third,
        Step { state: State::Done, action: Action::Respond(server_error()), log: None }
    );
}

#[test]
fn get_of_a_directory_looks_its_index_up() {
    let first = handle(&config(), State::Idle, request(Method::Get, "/docs"));
    let second = handle(&config(), first.state, found("/srv/docs", true));
    assert_eq!(
        second,
        Step {
            state: State::SeekingIndex {
                request: b"/docs".to_vec(),
                target: b"/srv/docs".to_vec(),
                index: b"/srv/docs/index.html".to_vec(),
            },
            action: probe("/srv/docs/index.html"),
            log: None,
        }
    );
}

#[test]
fn a_directory_with_an_index_serves_the_index() {
    let first = handle(&config(), State::Idle, request(Method::Get, "/docs/"));
    let second = handle(&config(), first.state, found("/srv/docs", true));
    assert_eq!(second.action, probe("/srv/docs/index.html"));
    let third = handle(&config(), second.state, found("/srv/docs/index.html", false));
    assert_eq!(third.state, State::Serving);
    assert_eq!(third.action, serve("/srv/docs/index.html"));
    assert_eq!(log(&third), Some("/docs/ => /srv/docs/index.html".to_string()));
}

#[test]
fn a_directory_without_an_index_is_listed() {
    let first = handle(&config(), State::Idle, request(Method::Get, "/docs"));
    let second = handle(&config(), first.state, found("/srv/docs", true));
    let third = handle(&config(), second.state, missing("/srv/docs/index.html"));
    assert_eq!(third.state, State::Listing { target: b"/srv/docs".to_vec() });
    assert_eq!(third.action, Action::List { path: b"/srv/docs".to_vec() });
    assert_eq!(log(&third), Some("/docs => Listing /srv/docs".to_string()));
    let children =
        vec![child("/srv/docs/b", false), child("/srv/docs/a", true)];
    let fourth = handle(&config(), third.state, Event::Children(Some(children.clone())));
    assert_eq!(
        fourth,
        Step {
            state: State::Done,
            action: Action::Respond(Response {
                status: 200,
                content_type: ContentType::Html,
                body: dir(b"/srv", b"/srv/docs", children),
            }),
            log: None,
        }
    );
}

#[test]
fn a_directory_that_cannot_be_read_is_a_server_error() {
    let first = handle(&config(), State::Idle, request(Method::Get, "/docs"));
    let second = handle(&config(), first.state, found("/srv/docs", true));
    let third = handle(&config(), second.state, missing(""));
    let fourth = handle(&config(), third.state, Event::Children(None));
    assert_eq!(
        fourth,
        Step { state: State::Done, action: Action::Respond(server_error()), log: None }
    );
}

#[test]
fn a_target_that_really_lies_outside_the_base_is_not_found() {
    let first = handle(&config(), State::Idle, request(Method::Get, "/../etc/passwd"));
    assert_eq!(first.action, probe("/srv/../etc/passwd"));
    let second = handle(&config(), first.state, found("/etc/passwd", false));
    assert_eq!(second.state, State::Done);
    assert_eq!(second.action, Action::Respond(not_found()));
    assert_eq!(log(&second), Some("/../etc/passwd => /srv/../etc/passwd".to_string()));
}

#[test]
fn a_link_that_leads_outside_the_base_is_not_found() {
    let first = handle(&config(), State::Idle, request(Method::Get, "/link"));
    let second = handle(&config(), first.state, found("/home/user/secret", true));
    assert_eq!(second.action, Action::Respond(not_found()));
    let first = handle(&config(), State::Idle, request(Method::Get, "/srvx"));
    let second = handle(&config(), first.state, found("/srvx", false));
    assert_eq!(second.action, Action::Respond(not_found()));
}

#[test]
fn an_index_that_really_lies_outside_the_base_is_not_found() {
    let first = handle(&config(), State::Idle, request(Method::Get, "/docs"));
    let second = handle(&config(), first.state, found("/srv/docs", true));
    let third = handle(&config(), second.state, found("/etc/index.html", false));
    assert_eq!(third.state, State::Done);
    assert_eq!(third.action, Action::Respond(not_found()));
    assert_eq!(log(&third), Some("/docs => /srv/docs/index.html".to_string()));
}

#[test]
fn a_parent_segment_that_stays_within_the_base_is_served() {
    let first = handle(&config(), State::Idle, request(Method::Get, "/a/../file.txt"));
    assert_eq!(first.action, probe("/srv/a/../file.txt"));
    let second = handle(&config(), first.state, found("/srv/file.txt", false));
    assert_eq!(second.action, serve("/srv/a/../file.txt"));
}

#[test]
fn an_event_out_of_turn_is_a_server_error() {
    let broken = Step { state: State::Done, action: Action::Respond(server_error()), log: None };
    assert_eq!(handle(&config(), State::Idle, Event::Served(true)), broken);
    assert_eq!(handle(&config(), State::Idle, missing("")), broken);
    assert_eq!(handle(&config(), State::Serving, Event::Children(None)), broken);
    assert_eq!(handle(&config(), State::Done, request(Method::Get, "/")), broken);
    assert_eq!(handle(&config(), State::Done, Event::Served(true)), broken);
    assert_eq!(
        handle(&config(), State::Listing { target: b"/srv".to_vec() }, found("/srv", true)),
        broken
    );
    assert_eq!(
        handle(
            &config(),
            State::Resolving { request: b"/".to_vec(), target: b"/srv".to_vec() },
            request(Method::Get, "/")
        ),
        broken
    );
}

#[test]
fn scenario_get_of_a_file() {
    assert_eq!(run(Method::Get, "/file.txt"), Err(b"/srv/file.txt".to_vec()));
}

#[test]
fn scenario_get_of_an_empty_subdirectory() {
    let response = run(Method::Get, "/sub/").unwrap();
    assert_eq!(response.status, 200);
    assert_eq!(response.content_type, ContentType::Html);
    let body = String::from_utf8(response.body).unwrap();
    assert!(body.contains("<li><a href=\"..\">..</a></li>"));
    assert!(body.contains("Path: /srv/sub/</div>"));
    assert_eq!(body.matches("<li>").count(), 1);
    assert_eq!(dirserve::anchors::hrefs(body.as_bytes()), vec![b"..".to_vec()]);
}

#[test]
fn scenario_get_of_a_missing_path() {
    assert_eq!(run(Method::Get, "/missing"), Ok(not_found()));
}

#[test]
fn scenario_get_of_the_base_directory() {
    let response = run(Method::Get, "/").unwrap();
    assert_eq!(response.status, 200);
    assert_eq!(response.content_type, ContentType::Html);
    assert_eq!(
        dirserve::anchors::hrefs(&response.body),
        vec![b"/file.txt".to_vec(), b"/sub".to_vec()]
    );
    let body = String::from_utf8(response.body).unwrap();
    assert!(body.contains("<li><a href=\"/file.txt\">file.txt</li><li><a href=\"/sub\">sub/</li>"));
    assert!(!body.contains("href=\"..\""));
}

#[test]
fn scenario_post_is_refused_for_existing_and_missing_paths() {
    assert_eq!(run(Method::Post, "/file.txt"), Ok(plain(405, "Method Not Allowed.\n")));
    assert_eq!(run(Method::Post, "/missing"), Ok(plain(405, "Method Not Allowed.\n")));
}

#[test]
fn server_config_holds_what_it_was_given() {
    let config = ServerConfig::new(b"/var/www".to_vec(), 8080);
    assert_eq!(config.base_directory, b"/var/www".to_vec());
    assert_eq!(config.listen_port, 8080);
}

#[test]
fn content_type_header_values() {
    assert_eq!(ContentType::Html.header_value(), Some("text/html"));
    assert_eq!(ContentType::Unspecified.header_value(), None);
}

#[test]
fn each_failure_has_its_response() {
    assert_eq!(Failure::NotFound.to_response(), not_found());
    assert_eq!(Failure::MethodNotAllowed.to_response(), plain(405, "Method Not Allowed.\n"));
    assert_eq!(Failure::DirectoryRead.to_response(), server_error());
    assert_eq!(Failure::FileStream.to_response(), server_error());
    assert_eq!(Failure::OutOfTurn.to_response(), server_error());
}

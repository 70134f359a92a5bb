use mkcdoc::serve::{
    content_type_for, inject_reload_script, is_content_change, route_request, serve_file,
    watch_step, FsChange, Route, WatchAction, WatchInput, WatchPhase, WatchState, RELOAD_SCRIPT,
};

#[test]
fn content_types_follow_the_extension() {
    assert_eq!(content_type_for("out/index.html"), "text/html; charset=utf-8");
    assert_eq!(content_type_for("style.css"), "text/css");
    assert_eq!(content_type_for("a/b/app.js"), "text/javascript");
    assert_eq!(content_type_for("mod.mjs"), "text/javascript");
    assert_eq!(content_type_for("data.json"), "application/json");
    assert_eq!(content_type_for("logo.svg"), "image/svg+xml");
    assert_eq!(content_type_for("logo.png"), "image/png");
    assert_eq!(content_type_for("photo.jpg"), "image/jpeg");
    assert_eq!(content_type_for("photo.jpeg"), "image/jpeg");
    assert_eq!(content_type_for("anim.gif"), "image/gif");
    assert_eq!(content_type_for("pic.webp"), "image/webp");
    assert_eq!(content_type_for("favicon.ico"), "image/x-icon");
    assert_eq!(content_type_for("font.woff"), "font/woff");
    assert_eq!(content_type_for("font.woff2"), "font/woff2");
    assert_eq!(content_type_for("notes.txt"), "text/plain; charset=utf-8");
    assert_eq!(content_type_for("archive.tar.gz"), "application/octet-stream");
    assert_eq!(content_type_for("Makefile"), "application/octet-stream");
    assert_eq!(content_type_for(".html"), "application/octet-stream");
}

#[test]
fn reload_script_goes_before_the_last_body_close() {
    let page = b"<html><body>x</body></body></html>";
    let out = inject_reload_script(page);
    let expected = format!("<html><body>x</body>{}</body></html>", RELOAD_SCRIPT);
    assert_eq!(String::from_utf8(out).unwrap(), expected);
}

#[test]
fn pages_without_body_close_are_served_unchanged() {
    let page = b"<html><p>no body tag</p></html>";
    assert_eq!(inject_reload_script(page), page.to_vec());
}

#[test]
fn invalid_utf8_is_served_unchanged() {
    let page: &[u8] = &[0xff, 0xfe, b'<', b'/', b'b', b'o', b'd', b'y', b'>'];
    assert_eq!(inject_reload_script(page), page.to_vec());
}

#[test]
fn non_ascii_text_keeps_its_bytes_around_the_script() {
    let page = "<body>héllo</body>".as_bytes();
    let out = inject_reload_script(page);
    let expected = format!("<body>héllo{}</body>", RELOAD_SCRIPT);
    assert_eq!(String::from_utf8(out).unwrap(), expected);
}

#[test]
fn only_html_files_get_the_reload_script() {
    let (ct, body) = serve_file("index.html", b"<body></body>");
    assert_eq!(ct, "text/html; charset=utf-8");
    assert_eq!(String::from_utf8(body).unwrap(), format!("<body>{}</body>", RELOAD_SCRIPT));

    let (ct, body) = serve_file("notes.txt", b"<body></body>");
    assert_eq!(ct, "text/plain; charset=utf-8");
    assert_eq!(body, b"<body></body>".to_vec());
}

#[test]
fn routes_the_version_endpoint() {
    assert!(matches!(route_request("/__mkcdoc/version"), Route::Version));
    assert!(matches!(route_request("/__mkcdoc/version?t=1"), Route::Version));
}

fn file_of(url: &str) -> String {
    match route_request(url) {
        Route::File(f) => f,
        Route::Version => panic!("{url} routed to the version endpoint"),
    }
}

#[test]
fn routes_files_relative_to_the_output_dir() {
    assert_eq!(file_of("/"), "index.html");
    assert_eq!(file_of(""), "index.html");
    assert_eq!(file_of("///"), "index.html");
    assert_eq!(file_of("/?x=1"), "index.html");
    assert_eq!(file_of("/guide-install.html"), "guide-install.html");
    assert_eq!(file_of("//img/a.png?v=2"), "img/a.png");
    assert_eq!(file_of("/__mkcdoc/version/x"), "__mkcdoc/version/x");
}

#[test]
fn only_content_changes_trigger_a_rebuild() {
    assert!(is_content_change(&FsChange::Create));
    assert!(is_content_change(&FsChange::Remove));
    assert!(is_content_change(&FsChange::ModifyData));
    assert!(is_content_change(&FsChange::ModifyName));
    assert!(!is_content_change(&FsChange::ModifyOther));
    assert!(!is_content_change(&FsChange::Access));
    assert!(!is_content_change(&FsChange::Other));
    assert!(!is_content_change(&FsChange::Failed));
}

fn waiting(version: u64) -> WatchState {
    WatchState { phase: WatchPhase::Waiting, version }
}

#[test]
fn a_burst_of_events_gives_one_rebuild() {
    let inputs = [
        WatchInput::Event(FsChange::Access),
        WatchInput::Event(FsChange::ModifyOther),
        WatchInput::Event(FsChange::ModifyData),
        WatchInput::Event(FsChange::Access),
        WatchInput::Event(FsChange::ModifyName),
        WatchInput::Quiet,
        WatchInput::Rebuilt(true),
        WatchInput::Event(FsChange::Failed),
        WatchInput::Event(FsChange::Create),
        WatchInput::Quiet,
        WatchInput::Rebuilt(false),
        WatchInput::Closed,
    ];
    let mut state = waiting(7);
    let mut actions = Vec::new();
    for input in inputs {
        let (s, a) = watch_step(state, input);
        state = s;
        actions.push(a);
    }
    assert_eq!(
        actions,
        vec![
            WatchAction::AwaitEvent,
            WatchAction::AwaitEvent,
            WatchAction::AwaitQuiet,
            WatchAction::AwaitQuiet,
            WatchAction::AwaitQuiet,
            WatchAction::Rebuild,
            WatchAction::Publish,
            WatchAction::AwaitEvent,
            WatchAction::AwaitQuiet,
            WatchAction::Rebuild,
            WatchAction::AwaitEvent,
            WatchAction::Stop,
        ]
    );
    assert_eq!(state, waiting(8));
}

#[test]
fn events_stopping_while_settling_still_rebuild() {
    let settling = WatchState { phase: WatchPhase::Settling, version: 3 };
    let rebuilding = WatchState { phase: WatchPhase::Rebuilding, version: 3 };
    assert_eq!(watch_step(settling, WatchInput::Closed), (rebuilding, WatchAction::Rebuild));
    assert_eq!(
        watch_step(settling, WatchInput::Event(FsChange::Failed)),
        (settling, WatchAction::AwaitQuiet)
    );
}

#[test]
fn the_version_wraps_like_an_atomic_counter() {
    let rebuilding = WatchState { phase: WatchPhase::Rebuilding, version: u64::MAX };
    assert_eq!(watch_step(rebuilding, WatchInput::Rebuilt(true)), (waiting(0), WatchAction::Publish));
    assert_eq!(
        watch_step(waiting(4), WatchInput::Rebuilt(true)),
        (waiting(4), WatchAction::AwaitEvent)
    );
}

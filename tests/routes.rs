use litebin::{route, Delay, DelayError, Route};

#[test]
fn homepage_is_served() {
    assert_eq!(route(b"GET", b"/"), Route::Homepage);
    assert_eq!(route(b"GET", b"/").status(), 200);
}

#[test]
fn health_is_ok_after_other_requests() {
    assert_eq!(route(b"GET", b"/delay/abc").status(), 400);
    assert_eq!(route(b"GET", b"/nowhere").status(), 404);
    assert_eq!(route(b"GET", b"/health").status(), 200);
    assert_eq!(route(b"HEAD", b"/health"), Route::Health);
}

#[test]
fn bare_delay_waits_one_second() {
    assert_eq!(route(b"GET", b"/delay"), Route::Wait(Delay { secs: 1, nanos: 0 }));
}

#[test]
fn delay_with_seconds_waits_that_long() {
    assert_eq!(route(b"GET", b"/delay/2"), Route::Wait(Delay { secs: 2, nanos: 0 }));
    assert_eq!(
        route(b"GET", b"/delay/0.25"),
        Route::Wait(Delay { secs: 0, nanos: 250_000_000 })
    );
    assert_eq!(route(b"GET", b"/delay/1e0"), Route::Wait(Delay { secs: 1, nanos: 0 }));
    assert_eq!(route(b"GET", b"/delay/+2"), Route::Wait(Delay { secs: 2, nanos: 0 }));
    assert_eq!(route(b"GET", b"/delay/-0"), Route::Wait(Delay { secs: 0, nanos: 0 }));
    assert_eq!(route(b"GET", b"/delay/-1").status(), 400);
}

#[test]
fn non_numeric_delay_is_a_client_error() {
    let r = route(b"GET", b"/delay/abc");
    assert_eq!(r, Route::BadDelay(DelayError::Malformed));
    assert_eq!(r.status(), 400);
    assert_eq!(route(b"GET", b"/delay/1").status(), 200);
}

#[test]
fn unknown_paths_are_not_found() {
    assert_eq!(route(b"GET", b"/nowhere"), Route::NotFound);
    assert_eq!(route(b"GET", b"/delay/"), Route::NotFound);
    assert_eq!(route(b"GET", b"/delay/1/2"), Route::NotFound);
    assert_eq!(route(b"GET", b"/healthz"), Route::NotFound);
    assert_eq!(route(b"GET", b""), Route::NotFound);
    assert_eq!(route(b"GET", b"/nowhere").status(), 404);
}

#[test]
fn other_methods_are_not_allowed() {
    assert_eq!(route(b"POST", b"/health"), Route::MethodNotAllowed);
    assert_eq!(route(b"DELETE", b"/delay/1"), Route::MethodNotAllowed);
    assert_eq!(route(b"POST", b"/").status(), 405);
    assert_eq!(route(b"POST", b"/nowhere"), Route::NotFound);
}

use vstd::prelude::*;
use vstd::slice::slice_subrange;

use crate::delay::{delay, delay_of, is_seconds_text, specified_delay, Delay, DelayError};

verus! {

/// What the service does with a request.
#[derive(Clone, Copy, Debug, PartialEq, Eq, Structural)]
pub enum Route {
    /// `GET /`: the HTML homepage.
    Homepage,
    /// `GET /health`: an empty 200.
    Health,
    /// `GET /delay` or `GET /delay/{seconds}`: wait, then an empty 200.
    Wait(Delay),
    /// `GET /delay/{seconds}` whose segment is no delay: a 400, at once.
    BadDelay(DelayError),
    /// A known path with a method other than GET or HEAD.
    MethodNotAllowed,
    /// Any other path.
    NotFound,
}

pub open spec fn root_path() -> Seq<u8> {
    seq![47u8]
}

pub open spec fn health_path() -> Seq<u8> {
    seq![47u8, 104, 101, 97, 108, 116, 104]
}

pub open spec fn delay_path() -> Seq<u8> {
    seq![47u8, 100, 101, 108, 97, 121]
}

/// `GET`, and `HEAD`, which every GET route also answers.
pub open spec fn is_read_method(m: Seq<u8>) -> bool {
    m == seq![71u8, 69, 84] || m == seq![72u8, 69, 65, 68]
}

/// `p` is `/delay/` followed by one non-empty segment.
pub open spec fn is_delay_with_segment(p: Seq<u8>) -> bool {
    &&& p.len() > 7
    &&& p.take(6) == delay_path()
    &&& p[6] == 47
    &&& forall|i: int| 7 <= i < p.len() ==> #[trigger] p[i] != 47
}

pub open spec fn is_known_path(p: Seq<u8>) -> bool {
    p == root_path() || p == health_path() || p == delay_path() || is_delay_with_segment(p)
}

/// The route table.
pub open spec fn route_of(method: Seq<u8>, path: Seq<u8>) -> Route {
    if !is_known_path(path) {
        Route::NotFound
    } else if !is_read_method(method) {
        Route::MethodNotAllowed
    } else if path == root_path() {
        Route::Homepage
    } else if path == health_path() {
        Route::Health
    } else if path == delay_path() {
        Route::Wait(Delay { secs: 1, nanos: 0 })
    } else {
        match delay_of(path.skip(7)) {
            Ok(d) => Route::Wait(d),
            Err(e) => Route::BadDelay(e),
        }
    }
}

pub open spec fn status_of(r: Route) -> u16 {
    match r {
        Route::Homepage | Route::Health | Route::Wait(_) => 200,
        Route::BadDelay(_) => 400,
        Route::MethodNotAllowed => 405,
        Route::NotFound => 404,
    }
}

/// The health check answers 200 to every GET or HEAD: the route table holds
/// no state, so neither the age of the service nor earlier requests matter.
pub proof fn lemma_health_always_ok(method: Seq<u8>)
    requires
        is_read_method(method),
    ensures
        route_of(method, health_path()) == Route::Health,
        status_of(route_of(method, health_path())) == 200,
{
}

/// A `{seconds}` segment that is not a number is answered with a 400 at
/// once: the route asks for no wait.
pub proof fn lemma_malformed_delay_rejected(method: Seq<u8>, segment: Seq<u8>)
    requires
        is_read_method(method),
        segment.len() > 0,
        forall|i: int| 0 <= i < segment.len() ==> #[trigger] segment[i] != 47,
        !is_seconds_text(segment),
    ensures
        route_of(method, delay_path() + seq![47u8] + segment) == Route::BadDelay(
            DelayError::Malformed,
        ),
        status_of(route_of(method, delay_path() + seq![47u8] + segment)) == 400,
{
    let p = delay_path() + seq![47u8] + segment;
    assert(p.take(6) =~= delay_path());
    assert(p.skip(7) =~= segment);
    assert forall|i: int| 7 <= i < p.len() implies #[trigger] p[i] != 47 by {
        assert(p[i] == segment[i - 7]);
    }
}

impl Route {
    /// The HTTP status of the response.
    pub fn status(&self) -> (r: u16)
        ensures
            r == status_of(*self),
    {
        match self {
            Route::Homepage | Route::Health | Route::Wait(_) => 200,
            Route::BadDelay(_) => 400,
            Route::MethodNotAllowed => 405,
            Route::NotFound => 404,
        }
    }
}

fn same_bytes(a: &[u8], b: &[u8]) -> (r: bool)
    ensures
        r == (a@ == b@),
{
    if a.len() != b.len() {
        return false;
    }
    let mut i: usize = 0;
    while i < a.len()
        invariant
            a@.len() == b@.len(),
            i <= a@.len(),
            forall|j: int| 0 <= j < i ==> a@[j] == b@[j],
        decreases a.len() - i,
    {
        if a[i] != b[i] {
            return false;
        }
        i = i + 1;
    }
    assert(a@ =~= b@);
    true
}

fn is_read_method_bytes(m: &[u8]) -> (r: bool)
    ensures
        r == is_read_method(m@),
{
    let get: [u8; 3] = [71, 69, 84];
    let head: [u8; 4] = [72, 69, 65, 68];
    assert(get@ =~= seq![71u8, 69, 84]);
    assert(head@ =~= seq![72u8, 69, 65, 68]);
    same_bytes(m, get.as_slice()) || same_bytes(m, head.as_slice())
}

/// Picks the route that answers `method` on `path` (the path without its
/// query string). A `{seconds}` segment is read as it stands: a
/// percent-encoded one is no number.
pub fn route(method: &[u8], path: &[u8]) -> (r: Route)
    ensures
        r == route_of(method@, path@),
        r is Wait ==> r->Wait_0.wf(),
{
    let root: [u8; 1] = [47];
    let health: [u8; 7] = [47, 104, 101, 97, 108, 116, 104];
    let delay_prefix: [u8; 6] = [47, 100, 101, 108, 97, 121];
    assert(root@ =~= root_path());
    assert(health@ =~= health_path());
    assert(delay_prefix@ =~= delay_path());
    let is_root = same_bytes(path, root.as_slice());
    let is_health = same_bytes(path, health.as_slice());
    let is_delay = same_bytes(path, delay_prefix.as_slice());
    let mut with_segment = false;
    let n = path.len();
    if n > 7 && same_bytes(slice_subrange(path, 0, 6), delay_prefix.as_slice()) && path[6] == 47 {
        let mut i: usize = 7;
        with_segment = true;
        while i < n
            invariant
                7 <= i <= n == path@.len(),
                with_segment == (forall|j: int| 7 <= j < i ==> #[trigger] path@[j] != 47),
            decreases n - i,
        {
            if path[i] == 47 {
                with_segment = false;
            }
            i = i + 1;
        }
        assert(path@.subrange(0, 6) =~= path@.take(6));
    }
    assert(with_segment == is_delay_with_segment(path@));
    if !(is_root || is_health || is_delay || with_segment) {
        return Route::NotFound;
    }
    if !is_read_method_bytes(method) {
        return Route::MethodNotAllowed;
    }
    if is_root {
        Route::Homepage
    } else if is_health {
        Route::Health
    } else if is_delay {
        Route::Wait(delay())
    } else {
        assert(path@.subrange(7, n as int) =~= path@.skip(7));
        match specified_delay(slice_subrange(path, 7, n)) {
            Ok(d) => Route::Wait(d),
            Err(e) => Route::BadDelay(e),
        }
    }
}

} // verus!

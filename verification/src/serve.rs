//! The development server's decisions: which file a request names, the content type it is
//! served with, the reload script injected into served HTML pages, and which filesystem
//! changes warrant a rebuild.
use vstd::prelude::*;
use vstd::utf8::{decode_utf8, encode_utf8, valid_utf8};

use crate::paths::{extension, extension_of};
use crate::text::{chars_of, eq_chars, find_char, find_char_in, starts_with, starts_with_at, string_of, utf8_text};

verus! {

/// Polls a version counter and reloads the page when it changes; injected into every served
/// HTML page, never into the plain `build` output.
pub const RELOAD_SCRIPT: &'static str = "<script>
(function () {
  let last = null;
  setInterval(function () {
    fetch('/__mkcdoc/version')
      .then(function (res) { return res.text(); })
      .then(function (version) {
        if (last !== null && version !== last) location.reload();
        last = version;
      })
      .catch(function () {});
  }, 700);
})();
</script>
";

/// The content type a file is served with, by its extension.
pub open spec fn content_type(ext: Option<Seq<char>>) -> Seq<char> {
    match ext {
        Some(e) => if e == "html"@ {
            "text/html; charset=utf-8"@
        } else if e == "css"@ {
            "text/css"@
        } else if e == "js"@ || e == "mjs"@ {
            "text/javascript"@
        } else if e == "json"@ {
            "application/json"@
        } else if e == "svg"@ {
            "image/svg+xml"@
        } else if e == "png"@ {
            "image/png"@
        } else if e == "jpg"@ || e == "jpeg"@ {
            "image/jpeg"@
        } else if e == "gif"@ {
            "image/gif"@
        } else if e == "webp"@ {
            "image/webp"@
        } else if e == "ico"@ {
            "image/x-icon"@
        } else if e == "woff"@ {
            "font/woff"@
        } else if e == "woff2"@ {
            "font/woff2"@
        } else if e == "txt"@ {
            "text/plain; charset=utf-8"@
        } else {
            "application/octet-stream"@
        },
        None => "application/octet-stream"@,
    }
}

/// Whether the characters of `e` are those of `lit`.
fn chars_are(e: &Vec<char>, lit: &str) -> (r: bool)
    ensures
        r == (e@ == lit@),
{
    let l = chars_of(lit);
    eq_chars(e.as_slice(), l.as_slice())
}

/// The content type that the file at `path` is served with.
pub fn content_type_for(path: &str) -> (r: &'static str)
    ensures
        r@ == content_type(extension(path@)),
{
    match extension_of(path) {
        Some(e) => if chars_are(&e, "html") {
            "text/html; charset=utf-8"
        } else if chars_are(&e, "css") {
            "text/css"
        } else if chars_are(&e, "js") || chars_are(&e, "mjs") {
            "text/javascript"
        } else if chars_are(&e, "json") {
            "application/json"
        } else if chars_are(&e, "svg") {
            "image/svg+xml"
        } else if chars_are(&e, "png") {
            "image/png"
        } else if chars_are(&e, "jpg") || chars_are(&e, "jpeg") {
            "image/jpeg"
        } else if chars_are(&e, "gif") {
            "image/gif"
        } else if chars_are(&e, "webp") {
            "image/webp"
        } else if chars_are(&e, "ico") {
            "image/x-icon"
        } else if chars_are(&e, "woff") {
            "font/woff"
        } else if chars_are(&e, "woff2") {
            "font/woff2"
        } else if chars_are(&e, "txt") {
            "text/plain; charset=utf-8"
        } else {
            "application/octet-stream"
        },
        None => "application/octet-stream",
    }
}

/// Whether `pat` occurs in `t` at index `k`.
pub open spec fn occurs_at(t: Seq<char>, pat: Seq<char>, k: int) -> bool {
    0 <= k <= t.len() && starts_with(t.skip(k), pat)
}

/// The greatest index not above `k` at which `pat` occurs in `t`.
pub open spec fn last_from(t: Seq<char>, pat: Seq<char>, k: nat) -> Option<nat>
    decreases k,
{
    if occurs_at(t, pat, k as int) {
        Some(k)
    } else if k == 0 {
        None
    } else {
        last_from(t, pat, (k - 1) as nat)
    }
}

/// The index of the last occurrence of `pat` in `t` (`str::rfind`).
pub open spec fn last_occurrence(t: Seq<char>, pat: Seq<char>) -> Option<nat> {
    last_from(t, pat, t.len())
}

/// The index of the last occurrence of `pat` in `t`.
fn rfind_chars(t: &Vec<char>, pat: &[char]) -> (r: Option<usize>)
    ensures
        r matches Some(k) ==> last_occurrence(t@, pat@) == Some(k as nat) && k <= t@.len(),
        r is None ==> last_occurrence(t@, pat@) is None,
{
    let mut k = t.len();
    loop
        invariant
            k <= t@.len(),
            last_occurrence(t@, pat@) == last_from(t@, pat@, k as nat),
        decreases k,
    {
        assert(t@.subrange(k as int, t@.len() as int) =~= t@.skip(k as int));
        if starts_with_at(t, k, t.len(), pat) {
            return Some(k);
        }
        if k == 0 {
            return None;
        }
        k -= 1;
    }
}

/// The closing tag before which the reload script goes.
pub open spec fn body_close() -> Seq<char> {
    seq!['<', '/', 'b', 'o', 'd', 'y', '>']
}

/// The bytes served for the HTML page `html`: when they are UTF-8 text holding `</body>`, that
/// text with the reload script inserted just before its last `</body>`; otherwise the bytes
/// unchanged.
pub open spec fn reload_page(html: Seq<u8>) -> Seq<u8> {
    if valid_utf8(html) {
        let t = decode_utf8(html);
        match last_occurrence(t, body_close()) {
            Some(k) => encode_utf8(t.take(k as int) + RELOAD_SCRIPT@ + t.skip(k as int)),
            None => html,
        }
    } else {
        html
    }
}

/// Insert the reload-polling script just before `</body>`. Falls back to serving the bytes
/// unmodified if they aren't valid UTF-8 or hold no `</body>` tag.
pub fn inject_reload_script(html: &[u8]) -> (r: Vec<u8>)
    ensures
        r@ == reload_page(html@),
{
    let text = match utf8_text(html) {
        Some(text) => text,
        None => return vstd::slice::slice_to_vec(html),
    };
    let t = chars_of(text);
    let close: &[char] = &['<', '/', 'b', 'o', 'd', 'y', '>'];
    assert(close@ =~= body_close());
    match rfind_chars(&t, close) {
        Some(k) => {
            let script = chars_of(RELOAD_SCRIPT);
            let mut out: Vec<char> = Vec::new();
            let mut i: usize = 0;
            while i < k
                invariant
                    k <= t@.len(),
                    i <= k,
                    out@ == t@.take(i as int),
                decreases k - i,
            {
                out.push(t[i]);
                assert(t@.take(i + 1) =~= t@.take(i as int).push(t@[i as int]));
                i += 1;
            }
            let ghost head = out@;
            let mut j: usize = 0;
            while j < script.len()
                invariant
                    j <= script@.len(),
                    out@ == head + script@.take(j as int),
                decreases script.len() - j,
            {
                out.push(script[j]);
                assert(script@.take(j + 1) =~= script@.take(j as int).push(script@[j as int]));
                j += 1;
            }
            assert(script@.take(script@.len() as int) =~= script@);
            let ghost mid = out@;
            let mut m = k;
            while m < t.len()
                invariant
                    k <= m <= t@.len(),
                    out@ == mid + t@.subrange(k as int, m as int),
                decreases t.len() - m,
            {
                out.push(t[m]);
                assert(t@.subrange(k as int, m + 1) =~= t@.subrange(k as int, m as int).push(t@[m as int]));
                m += 1;
            }
            assert(t@.subrange(k as int, t@.len() as int) =~= t@.skip(k as int));
            let s = string_of(&out);
            vstd::slice::slice_to_vec(s.as_str().as_bytes())
        },
        None => vstd::slice::slice_to_vec(html),
    }
}

proof fn lemma_last_from(t: Seq<char>, pat: Seq<char>, k: nat)
    ensures
        match last_from(t, pat, k) {
            Some(m) => m <= k && occurs_at(t, pat, m as int) && forall|j: int|
                m < j <= k ==> !occurs_at(t, pat, j),
            None => forall|j: int| 0 <= j <= k ==> !occurs_at(t, pat, j),
        },
    decreases k,
{
    if !occurs_at(t, pat, k as int) && k > 0 {
        lemma_last_from(t, pat, (k - 1) as nat);
    }
}

/// Serving an HTML page only ever inserts the reload script: when the page's text holds a
/// `</body>`, the served bytes decode to that text with the script placed right before its
/// last `</body>`; otherwise the page is served as it is.
pub proof fn reload_page_only_inserts_script(html: Seq<u8>)
    requires
        valid_utf8(html),
    ensures
        ({
            let t = decode_utf8(html);
            match last_occurrence(t, body_close()) {
                Some(k) => {
                    &&& decode_utf8(reload_page(html)) == t.take(k as int) + RELOAD_SCRIPT@ + t.skip(k as int)
                    &&& starts_with(t.skip(k as int), body_close())
                    &&& forall|j: int| k < j <= t.len() ==> !occurs_at(t, body_close(), j)
                },
                None => {
                    &&& reload_page(html) == html
                    &&& forall|j: int| 0 <= j <= t.len() ==> !occurs_at(t, body_close(), j)
                },
            }
        }),
{
    let t = decode_utf8(html);
    lemma_last_from(t, body_close(), t.len());
    match last_occurrence(t, body_close()) {
        Some(k) => {
            vstd::utf8::encode_utf8_decode_utf8(t.take(k as int) + RELOAD_SCRIPT@ + t.skip(k as int));
        },
        None => {},
    }
}

/// Whether a content type is that of an HTML page.
pub open spec fn is_html_type(ct: Seq<char>) -> bool {
    starts_with(ct, "text/html"@)
}

/// What the server answers for the file at `path` holding `bytes`: its content type, and the
/// bytes with the reload script injected when it is an HTML page.
pub fn serve_file(path: &str, bytes: &[u8]) -> (r: (&'static str, Vec<u8>))
    ensures
        r.0@ == content_type(extension(path@)),
        r.1@ == if is_html_type(r.0@) { reload_page(bytes@) } else { bytes@ },
{
    let ct = content_type_for(path);
    let cv = chars_of(ct);
    let html = chars_of("text/html");
    assert(cv@.subrange(0, cv@.len() as int) =~= cv@);
    if starts_with_at(&cv, 0, cv.len(), html.as_slice()) {
        (ct, inject_reload_script(bytes))
    } else {
        (ct, vstd::slice::slice_to_vec(bytes))
    }
}

/// The URL path of a request, without its query string.
pub open spec fn query_free(url: Seq<char>) -> Seq<char> {
    match find_char(url, '?') {
        Some(k) => url.take(k as int),
        None => url,
    }
}

/// `s` without its leading `c`s.
pub open spec fn trim_leading(s: Seq<char>, c: char) -> Seq<char>
    decreases s.len(),
{
    if s.len() > 0 && s[0] == c {
        trim_leading(s.drop_first(), c)
    } else {
        s
    }
}

/// The file, relative to the output directory, that a URL path names: the path without its
/// leading slashes, or `index.html` for the site root.
pub open spec fn file_candidate(p: Seq<char>) -> Seq<char> {
    let t = trim_leading(p, '/');
    if t.len() == 0 {
        "index.html"@
    } else {
        t
    }
}

/// What a request asks the server for.
#[derive(Debug)]
pub enum Route {
    /// The version counter that open pages poll.
    Version,
    /// A file, by its path relative to the output directory.
    File(String),
}

pub enum SpecRoute {
    Version,
    File(Seq<char>),
}

impl View for Route {
    type V = SpecRoute;

    open spec fn view(&self) -> SpecRoute {
        match self {
            Route::Version => SpecRoute::Version,
            Route::File(f) => SpecRoute::File(f@),
        }
    }
}

/// The path at which pages poll the version counter.
pub open spec fn version_path() -> Seq<char> {
    "/__mkcdoc/version"@
}

/// What the request for `url` asks for.
pub open spec fn spec_route(url: Seq<char>) -> SpecRoute {
    let p = query_free(url);
    if p == version_path() {
        SpecRoute::Version
    } else {
        SpecRoute::File(file_candidate(p))
    }
}

/// What the request for `url` asks for: the version counter, or a file under the output
/// directory.
pub fn route_request(url: &str) -> (r: Route)
    ensures
        r@ == spec_route(url@),
{
    let u = chars_of(url);
    assert(u@.subrange(0, u@.len() as int) =~= u@);
    proof {
        crate::text::lemma_find_char(url@, '?');
    }
    let end = match find_char_in(&u, 0, u.len(), '?') {
        Some(k) => k,
        None => u.len(),
    };
    assert(u@.subrange(0, end as int) =~= query_free(url@));
    let version = chars_of("/__mkcdoc/version");
    if end == version.len() && crate::text::starts_with_at(&u, 0, end, version.as_slice()) {
        assert(u@.subrange(0, end as int).subrange(0, version@.len() as int) =~= u@.subrange(0, end as int));
        return Route::Version;
    }
    proof {
        if query_free(url@) == version_path() {
            assert(u@.subrange(0, end as int).subrange(0, version@.len() as int) =~= u@.subrange(0, end as int));
        }
    }
    let mut start: usize = 0;
    while start < end && u[start] == '/'
        invariant
            start <= end <= u@.len(),
            trim_leading(u@.subrange(0, end as int), '/') == trim_leading(u@.subrange(start as int, end as int), '/'),
        decreases end - start,
    {
        assert(u@.subrange(start as int, end as int).drop_first() =~= u@.subrange(start + 1, end as int));
        start += 1;
    }
    if start == end {
        Route::File(string_of(&chars_of("index.html")))
    } else {
        let mut rest: Vec<char> = Vec::new();
        let mut i = start;
        while i < end
            invariant
                start <= i <= end <= u@.len(),
                rest@ == u@.subrange(start as int, i as int),
            decreases end - i,
        {
            rest.push(u[i]);
            assert(u@.subrange(start as int, i + 1) =~= u@.subrange(start as int, i as int).push(u@[i as int]));
            i += 1;
        }
        Route::File(string_of(&rest))
    }
}

proof fn lemma_trim_leading(s: Seq<char>, c: char)
    ensures
        trim_leading(s, c).len() == 0 || trim_leading(s, c)[0] != c,
    decreases s.len(),
{
    if s.len() > 0 && s[0] == c {
        lemma_trim_leading(s.drop_first(), c);
    }
}

/// A request never names a file by an absolute path: the file it asks for is a nonempty path
/// that does not begin with `/`, so it is looked up under the output directory.
pub proof fn requested_files_are_relative(url: Seq<char>)
    ensures
        spec_route(url) matches SpecRoute::File(f) ==> f.len() > 0 && f[0] != '/',
{
    reveal_strlit("index.html");
    lemma_trim_leading(query_free(url), '/');
}

/// What a filesystem event did, as far as rebuilding goes.
#[derive(Debug, Clone, Copy, PartialEq, Eq, Structural)]
pub enum FsChange {
    /// Something was created.
    Create,
    /// Something was removed.
    Remove,
    /// A file's contents changed.
    ModifyData,
    /// Something was renamed.
    ModifyName,
    /// A change of metadata only (e.g. an access time).
    ModifyOther,
    /// A pure read.
    Access,
    /// Any other event.
    Other,
    /// The watcher reported an error in place of an event.
    Failed,
}

/// Whether `c` changed something worth rebuilding for: a creation, a removal, a change of
/// contents or a rename.
pub open spec fn is_change(c: FsChange) -> bool {
    c == FsChange::Create || c == FsChange::Remove || c == FsChange::ModifyData || c == FsChange::ModifyName
}

/// Whether a filesystem event changed something worth rebuilding for: a creation, a removal,
/// a change of contents or a rename. Pure reads and metadata-only touches are left out, so that
/// a rebuild reading the watched files does not set off another one.
pub fn is_content_change(change: &FsChange) -> (r: bool)
    ensures
        r == is_change(*change),
{
    match change {
        FsChange::Create | FsChange::Remove | FsChange::ModifyData | FsChange::ModifyName => true,
        _ => false,
    }
}

/// Where the watcher loop stands: waiting for a change, letting a burst of events settle
/// before it rebuilds, or waiting for the outcome of a rebuild.
#[derive(Debug, Clone, Copy, PartialEq, Eq, Structural)]
pub enum WatchPhase {
    Waiting,
    Settling,
    Rebuilding,
}

/// The watcher loop's state: its phase, and the version that polling pages last saw
/// published.
#[derive(Debug, Clone, Copy, PartialEq, Eq, Structural)]
pub struct WatchState {
    pub phase: WatchPhase,
    pub version: u64,
}

/// What the watcher loop was told: a filesystem event, that the channel of events closed,
/// (while settling) that the quiet period passed with no further event, or how a rebuild
/// ended (`true` when it succeeded).
#[derive(Debug, Clone, Copy, PartialEq, Eq, Structural)]
pub enum WatchInput {
    Event(FsChange),
    Closed,
    Quiet,
    Rebuilt(bool),
}

/// What the watcher loop does next.
#[derive(Debug, Clone, Copy, PartialEq, Eq, Structural)]
pub enum WatchAction {
    /// Block for the next event.
    AwaitEvent,
    /// Wait for a further event for a short quiet period.
    AwaitQuiet,
    /// Rebuild the site and report how it ended.
    Rebuild,
    /// Publish the state's version to polling pages, then wait for the next event.
    Publish,
    /// Stop watching.
    Stop,
}

/// The version after `v`: one more, wrapping around as an atomic counter does.
pub open spec fn next_version(v: u64) -> u64 {
    if v == u64::MAX {
        0
    } else {
        (v + 1) as u64
    }
}

/// The watcher's decisions: while waiting, a content change starts settling and any other
/// event is ignored; while settling, every event (whatever it is) extends the quiet period,
/// and once it passes, or the events stop, the site is rebuilt; a rebuild that succeeds
/// raises the version by one and publishes it, one that fails leaves it. Editors fire several
/// events per save, so a burst of them gives one rebuild.
pub open spec fn spec_watch_step(state: WatchState, input: WatchInput) -> (WatchState, WatchAction) {
    let v = state.version;
    match state.phase {
        WatchPhase::Waiting => match input {
            WatchInput::Event(c) => if is_change(c) {
                (WatchState { phase: WatchPhase::Settling, version: v }, WatchAction::AwaitQuiet)
            } else {
                (state, WatchAction::AwaitEvent)
            },
            WatchInput::Closed => (state, WatchAction::Stop),
            _ => (state, WatchAction::AwaitEvent),
        },
        WatchPhase::Settling => match input {
            WatchInput::Quiet | WatchInput::Closed => (
                WatchState { phase: WatchPhase::Rebuilding, version: v },
                WatchAction::Rebuild,
            ),
            _ => (state, WatchAction::AwaitQuiet),
        },
        WatchPhase::Rebuilding => match input {
            WatchInput::Rebuilt(true) => (
                WatchState { phase: WatchPhase::Waiting, version: next_version(v) },
                WatchAction::Publish,
            ),
            WatchInput::Rebuilt(false) => (
                WatchState { phase: WatchPhase::Waiting, version: v },
                WatchAction::AwaitEvent,
            ),
            _ => (state, WatchAction::Rebuild),
        },
    }
}

/// The next state of the watcher loop and what it does next, as `spec_watch_step` says.
pub fn watch_step(state: WatchState, input: WatchInput) -> (r: (WatchState, WatchAction))
    ensures
        r == spec_watch_step(state, input),
{
    let v = state.version;
    match state.phase {
        WatchPhase::Waiting => match input {
            WatchInput::Event(c) => if is_content_change(&c) {
                (WatchState { phase: WatchPhase::Settling, version: v }, WatchAction::AwaitQuiet)
            } else {
                (state, WatchAction::AwaitEvent)
            },
            WatchInput::Closed => (state, WatchAction::Stop),
            _ => (state, WatchAction::AwaitEvent),
        },
        WatchPhase::Settling => match input {
            WatchInput::Quiet | WatchInput::Closed => (
                WatchState { phase: WatchPhase::Rebuilding, version: v },
                WatchAction::Rebuild,
            ),
            _ => (state, WatchAction::AwaitQuiet),
        },
        WatchPhase::Rebuilding => match input {
            WatchInput::Rebuilt(true) => {
                let next = if v == u64::MAX {
                    0
                } else {
                    v + 1
                };
                (WatchState { phase: WatchPhase::Waiting, version: next }, WatchAction::Publish)
            },
            WatchInput::Rebuilt(false) => (
                WatchState { phase: WatchPhase::Waiting, version: v },
                WatchAction::AwaitEvent,
            ),
            _ => (state, WatchAction::Rebuild),
        },
    }
}

/// The state and actions of the watcher loop after the inputs `inputs`, from `state`.
pub open spec fn watch_run(state: WatchState, inputs: Seq<WatchInput>) -> (WatchState, Seq<WatchAction>)
    decreases inputs.len(),
{
    if inputs.len() == 0 {
        (state, seq![])
    } else {
        let (s, acts) = watch_run(state, inputs.drop_last());
        let (s2, a) = spec_watch_step(s, inputs.last());
        (s2, acts.push(a))
    }
}

/// Whether some input of `inputs` is a content change.
pub open spec fn has_change(inputs: Seq<WatchInput>) -> bool {
    exists|i: int| 0 <= i < inputs.len() && (#[trigger] inputs[i] matches WatchInput::Event(c) && is_change(c))
}

/// Reads, metadata touches and failed events never cause a rebuild: a run of the watcher loop
/// from the waiting phase rebuilds only if some content change came in, and with no content
/// change it never leaves the waiting phase.
pub proof fn rebuilds_only_after_a_change(start: u64, inputs: Seq<WatchInput>)
    ensures
        watch_run(WatchState { phase: WatchPhase::Waiting, version: start }, inputs).1.contains(WatchAction::Rebuild) ==> has_change(inputs),
        !has_change(inputs) ==> watch_run(WatchState { phase: WatchPhase::Waiting, version: start }, inputs).0.phase == WatchPhase::Waiting,
    decreases inputs.len(),
{
    let w = WatchState { phase: WatchPhase::Waiting, version: start };
    if inputs.len() > 0 {
        let pre = inputs.drop_last();
        rebuilds_only_after_a_change(start, pre);
        let (s, acts) = watch_run(w, pre);
        let (s2, a) = spec_watch_step(s, inputs.last());
        if has_change(pre) {
            let i = choose|i: int| 0 <= i < pre.len() && (#[trigger] pre[i] matches WatchInput::Event(c) && is_change(c));
            assert(inputs[i] == pre[i]);
        }
        if acts.push(a).contains(WatchAction::Rebuild) {
            let j = choose|j: int| 0 <= j < acts.push(a).len() && acts.push(a)[j] == WatchAction::Rebuild;
            if j < acts.len() {
                assert(acts[j] == WatchAction::Rebuild);
                assert(acts.contains(WatchAction::Rebuild));
            } else {
                assert(s.phase != WatchPhase::Waiting);
            }
        }
        if !has_change(inputs) {
            assert forall|i: int| 0 <= i < pre.len() implies !(#[trigger] pre[i] matches WatchInput::Event(c) && is_change(c)) by {
                assert(inputs[i] == pre[i]);
            }
            assert(!(inputs[inputs.len() - 1] matches WatchInput::Event(c) && is_change(c)));
        }
    }
}

/// Number of `Publish` actions in `acts`.
pub open spec fn publishes(acts: Seq<WatchAction>) -> nat
    decreases acts.len(),
{
    if acts.len() == 0 {
        0
    } else {
        publishes(acts.drop_last()) + if acts.last() == WatchAction::Publish {
            1nat
        } else {
            0nat
        }
    }
}

/// The version rises by exactly one for each publication, and only a successful rebuild
/// publishes: after any run of the watcher loop, the version is the starting one plus the
/// number of publications (wrapping around as the counter does), and a step publishes exactly
/// when a rebuild under way reports success.
pub proof fn version_counts_successful_rebuilds(start: WatchState, inputs: Seq<WatchInput>)
    ensures
        watch_run(start, inputs).0.version as int == (start.version + publishes(watch_run(start, inputs).1))
            % (u64::MAX as int + 1),
        forall|s: WatchState, x: WatchInput|
            #![trigger spec_watch_step(s, x)]
            (spec_watch_step(s, x).1 == WatchAction::Publish) == (s.phase == WatchPhase::Rebuilding
                && x == WatchInput::Rebuilt(true)),
    decreases inputs.len(),
{
    if inputs.len() == 0 {
        assert(start.version as int % (u64::MAX as int + 1) == start.version as int) by (nonlinear_arith)
            requires
                0 <= start.version <= u64::MAX,
        ;
    } else {
        let pre = inputs.drop_last();
        version_counts_successful_rebuilds(start, pre);
        let (s, acts) = watch_run(start, pre);
        let (s2, a) = spec_watch_step(s, inputs.last());
        assert(acts.push(a).drop_last() =~= acts);
        let m = u64::MAX as int + 1;
        let t = start.version + publishes(acts);
        if a == WatchAction::Publish {
            assert(s.version as int == t % m);
            assert((t % m + 1) % m == (t + 1) % m) by (nonlinear_arith)
                requires
                    m > 0,
                    t >= 0,
            ;
            assert(s.version < u64::MAX ==> (s.version + 1) % m == s.version + 1) by (nonlinear_arith)
                requires
                    m == u64::MAX as int + 1,
                    0 <= s.version <= u64::MAX,
            ;
            assert(s.version == u64::MAX ==> (s.version + 1) % m == 0) by (nonlinear_arith)
                requires
                    m == u64::MAX as int + 1,
            ;
        }
    }
}

} // verus!

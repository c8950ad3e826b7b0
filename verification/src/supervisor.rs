//! Decisions of the Substrate supervisor daemon: the sliding window of
//! recent framework starts, the UI health guard that trips after repeated
//! deaths, and the processes that must never be wrapped.

use vstd::prelude::*;
use crate::text::{
    chars_of, ends_with, lines, lines_of, parse_u64_radix, parse_u64_spec, push_chars, push_str, str_eq, string_of,
    trim, trim_chars, vec_views,
};

verus! {

/// Window, in seconds, over which framework starts are counted.
pub const CRASH_WINDOW_SECS: u64 = 120;
/// Starts within the window after which the hooked framework is abandoned.
pub const CRASH_THRESHOLD: usize = 3;
/// Seconds the UI may stay down after a start before it counts as dead.
pub const HEALTH_GRACE_SECS: u64 = 20;

/// `u64::saturating_sub`.
pub open spec fn sat_sub(a: u64, b: u64) -> u64 {
    if a >= b { (a - b) as u64 } else { 0 }
}

/// Whether a timestamp is within `window` seconds before `now` (timestamps
/// from the future count as recent).
pub open spec fn recent(stamp: u64, now: u64, window: u64) -> bool {
    sat_sub(now, stamp) <= window
}

/// The timestamps of `history` within the window, in their order.
pub open spec fn pruned(history: Seq<u64>, now: u64, window: u64) -> Seq<u64> {
    history.filter(|stamp: u64| recent(stamp, now, window))
}

/// Keeps the timestamps within `window` seconds of `now`, in order.
pub fn prune_history(history: &[u64], now: u64, window: u64) -> (kept: Vec<u64>)
    ensures
        kept@ == pruned(history@, now, window),
{
    let mut kept: Vec<u64> = Vec::new();
    let mut i: usize = 0;
    while i < history.len()
        invariant
            i <= history@.len(),
            kept@ == pruned(history@.subrange(0, i as int), now, window),
        decreases history@.len() - i,
    {
        let stamp = history[i];
        let age = now.saturating_sub(stamp);
        proof {
            reveal(Seq::filter);
            assert(history@.subrange(0, i + 1).drop_last() =~= history@.subrange(0, i as int));
        }
        if age <= window {
            kept.push(stamp);
        }
        i += 1;
    }
    assert(history@.subrange(0, history@.len() as int) =~= history@);
    kept
}

/// Pruning keeps exactly the recent timestamps, and never adds one.
pub proof fn law_prune_keeps_recent(history: Seq<u64>, now: u64, window: u64)
    ensures
        forall|i: int| 0 <= i < pruned(history, now, window).len() ==> recent(#[trigger] pruned(history, now, window)[i], now, window),
        forall|i: int| 0 <= i < history.len() && recent(#[trigger] history[i], now, window) ==> pruned(history, now, window).contains(history[i]),
        pruned(history, now, window).len() <= history.len(),
        pruned(pruned(history, now, window), now, window) == pruned(history, now, window),
{
    let p = |stamp: u64| recent(stamp, now, window);
    history.lemma_filter_len(p);
    assert forall|i: int| 0 <= i < pruned(history, now, window).len() implies recent(#[trigger] pruned(history, now, window)[i], now, window) by {
        history.lemma_filter_pred(p, i);
    }
    assert forall|i: int| 0 <= i < history.len() && recent(#[trigger] history[i], now, window) implies pruned(history, now, window).contains(history[i]) by {
        history.lemma_filter_contains(p, i);
    }
    lemma_filter_idempotent(history, p);
}

proof fn lemma_filter_idempotent(s: Seq<u64>, p: spec_fn(u64) -> bool)
    ensures
        s.filter(p).filter(p) == s.filter(p),
    decreases s.len(),
{
    reveal(Seq::filter);
    if s.len() > 0 {
        lemma_filter_idempotent(s.drop_last(), p);
        let f = s.drop_last().filter(p);
        if p(s.last()) {
            assert(f.push(s.last()).drop_last() =~= f);
        }
    }
}

/// Tracks falling edges (alive to dead) of the UI roots within a sliding
/// window.
pub struct HealthGuard {
    pub was_alive: bool,
    pub initialized: bool,
    /// When the UI was seen to die, oldest first.
    pub deaths: Vec<u64>,
}

impl HealthGuard {
    pub fn new() -> (g: HealthGuard)
        ensures
            !g.was_alive,
            !g.initialized,
            g.deaths@.len() == 0,
    {
        HealthGuard { was_alive: false, initialized: false, deaths: Vec::new() }
    }

    /// Records one health sample; returns whether the deaths within the
    /// window reach `threshold`. A death is a sample that is not alive after
    /// one that was.
    pub fn observe(&mut self, alive: bool, now: u64, window: u64, threshold: usize) -> (tripped: bool)
        ensures
            final(self).deaths@ == pruned(
                if old(self).initialized && old(self).was_alive && !alive {
                    old(self).deaths@.push(now)
                } else {
                    old(self).deaths@
                },
                now,
                window,
            ),
            final(self).was_alive == alive,
            final(self).initialized,
            tripped == (final(self).deaths@.len() >= threshold),
    {
        if self.initialized && self.was_alive && !alive {
            self.deaths.push(now);
        }
        self.was_alive = alive;
        self.initialized = true;
        self.deaths = prune_history(self.deaths.as_slice(), now, window);
        self.deaths.len() >= threshold
    }
}

/// Without a falling edge no death is recorded: a guard with no deaths that
/// sees an alive sample (or a dead one after a dead one) still has none.
pub proof fn law_no_death_without_falling_edge(g: HealthGuard, alive: bool, now: u64, window: u64)
    requires
        g.deaths@.len() == 0,
        alive || !g.was_alive || !g.initialized,
    ensures
        pruned(
            if g.initialized && g.was_alive && !alive { g.deaths@.push(now) } else { g.deaths@ },
            now,
            window,
        ).len() == 0,
{
    g.deaths@.lemma_filter_len(|stamp: u64| recent(stamp, now, window));
}

/// Processes that must never be wrapped: doing so risks the device's
/// recovery path (power, SSH, D-Bus, updates, storage, networking).
pub open spec fn blacklist() -> Seq<Seq<char>> {
    seq![
        "powerd"@, "sshd"@, "dbus-daemon"@, "dbus"@, "otav3"@, "otaupd"@, "mmcqd"@, "wpa_supplicant"@,
        "dhcpd"@,
    ]
}

/// Whether `name` is one of the blacklisted process names.
pub fn blacklisted_comm(name: &str) -> (b: bool)
    ensures
        b == blacklist().contains(name@),
{
    let names: [&str; 9] = [
        "powerd", "sshd", "dbus-daemon", "dbus", "otav3", "otaupd", "mmcqd", "wpa_supplicant", "dhcpd",
    ];
    let mut i: usize = 0;
    while i < 9
        invariant
            i <= 9,
            names@.len() == 9,
            forall|k: int| 0 <= k < 9 ==> (#[trigger] names@[k])@ == blacklist()[k],
            forall|k: int| 0 <= k < i ==> blacklist()[k] != name@,
        decreases 9 - i,
    {
        if str_eq(name, names[i]) {
            return true;
        }
        i += 1;
    }
    proof {
        if blacklist().contains(name@) {
            let k = choose|k: int| 0 <= k < blacklist().len() && blacklist()[k] == name@;
            assert(false);
        }
    }
    false
}

/// The built-in spawn roots: the Kindle UI processes.
pub fn builtin_spawn_roots() -> (roots: Vec<&'static str>)
    ensures
        roots@.len() == 3,
        roots@[0]@ == "/usr/bin/appmgrd"@,
        roots@[1]@ == "/usr/bin/pillow"@,
        roots@[2]@ == "/usr/sbin/pillow"@,
{
    let mut roots: Vec<&'static str> = Vec::new();
    roots.push("/usr/bin/appmgrd");
    roots.push("/usr/bin/pillow");
    roots.push("/usr/sbin/pillow");
    roots
}

/// The start history after recording a start at `now`: the window's
/// starts, this one included.
pub fn record_start_history(history: &[u64], now: u64) -> (h: Vec<u64>)
    ensures
        h@ == pruned(history@.push(now), now, CRASH_WINDOW_SECS),
{
    let mut all: Vec<u64> = Vec::new();
    let mut i: usize = 0;
    while i < history.len()
        invariant
            i <= history@.len(),
            all@ == history@.subrange(0, i as int),
        decreases history@.len() - i,
    {
        all.push(history[i]);
        i += 1;
        assert(all@ =~= history@.subrange(0, i as int));
    }
    assert(history@.subrange(0, history@.len() as int) =~= history@);
    all.push(now);
    prune_history(all.as_slice(), now, CRASH_WINDOW_SECS)
}

/// The start times a history file lists: each line, trimmed, that is a
/// decimal number; other lines are skipped.
pub open spec fn history_from(ls: Seq<Seq<char>>) -> Seq<u64>
    decreases ls.len(),
{
    if ls.len() == 0 {
        Seq::empty()
    } else {
        let prev = history_from(ls.drop_last());
        match parse_u64_spec(trim(ls.last()), 10) {
            Ok(v) => prev.push(v),
            Err(_) => prev,
        }
    }
}

/// Reads the start history written by the supervisor.
pub fn parse_history(contents: &str) -> (h: Vec<u64>)
    ensures
        h@ == history_from(lines(contents@)),
{
    let chars = chars_of(contents);
    let ls = lines_of(chars.as_slice());
    let ghost lv = vec_views(ls@);
    assert(lv =~= lines(contents@));
    let mut out: Vec<u64> = Vec::new();
    let mut i: usize = 0;
    assert(lv.subrange(0, 0) =~= Seq::<Seq<char>>::empty());
    while i < ls.len()
        invariant
            i <= ls@.len(),
            lv == vec_views(ls@),
            lv == lines(contents@),
            out@ == history_from(lv.subrange(0, i as int)),
        decreases ls@.len() - i,
    {
        assert(lv.subrange(0, i + 1).drop_last() =~= lv.subrange(0, i as int));
        assert(lv.subrange(0, i + 1).last() == ls@[i as int]@);
        let t = trim_chars(ls[i].as_slice());
        match parse_u64_radix(t.as_slice(), 10) {
            Ok(v) => {
                out.push(v);
            },
            Err(_) => {},
        }
        i += 1;
    }
    assert(lv.subrange(0, lv.len() as int) =~= lv);
    out
}

/// Whether the session has started often enough within the window to be
/// crash-looping under the hooks.
pub fn crash_looping(starts: usize) -> (b: bool)
    ensures
        b == (starts >= CRASH_THRESHOLD),
{
    starts >= CRASH_THRESHOLD
}

/// What the monitor does after a poll.
#[derive(Debug, Clone, Copy, PartialEq, Eq, Structural)]
pub enum MonitorAction {
    /// Sleep and poll again.
    Continue,
    /// The disable marker appeared: tear the session down.
    Disabled,
    /// The UI keeps dying under the hooks: return to stock.
    Unhealthy,
}

/// The monitor loop's state between polls.
pub struct Monitor {
    /// Whether the UI roots were wrapped this session.
    pub wrapping_active: bool,
    /// When the monitor started watching, in seconds.
    pub start: u64,
    pub guard: HealthGuard,
}

impl Monitor {
    pub fn new(wrapping_active: bool, start: u64) -> (m: Monitor)
        ensures
            m.wrapping_active == wrapping_active,
            m.start == start,
            !m.guard.initialized,
            m.guard.deaths@.len() == 0,
    {
        Monitor { wrapping_active, start, guard: HealthGuard::new() }
    }

    /// Whether a poll at `now` samples the UI's health: only while wrapped,
    /// and only after the grace period that lets the framework come up.
    pub fn wants_sample(&self, now: u64) -> (b: bool)
        ensures
            b == (self.wrapping_active && sat_sub(now, self.start) >= HEALTH_GRACE_SECS),
    {
        self.wrapping_active && now.saturating_sub(self.start) >= HEALTH_GRACE_SECS
    }

    /// One poll: the disable marker ends the session; otherwise a health
    /// sample (when one was taken) that trips the guard ends it too.
    pub fn poll(&mut self, disable_marker: bool, sample: Option<(bool, u64)>) -> (a: MonitorAction)
        ensures
            disable_marker ==> a == MonitorAction::Disabled && final(self).guard == old(self).guard,
            !disable_marker && sample is None ==> a == MonitorAction::Continue && final(self).guard == old(self).guard,
            !disable_marker ==> (sample matches Some((alive, now)) ==> ({
                &&& final(self).guard.deaths@ == pruned(
                    if old(self).guard.initialized && old(self).guard.was_alive && !alive {
                        old(self).guard.deaths@.push(now)
                    } else {
                        old(self).guard.deaths@
                    },
                    now,
                    CRASH_WINDOW_SECS,
                )
                &&& final(self).guard.was_alive == alive
                &&& final(self).guard.initialized
                &&& (a == MonitorAction::Unhealthy) == (final(self).guard.deaths@.len() >= CRASH_THRESHOLD)
                &&& a != MonitorAction::Disabled
            })),
            final(self).wrapping_active == old(self).wrapping_active,
            final(self).start == old(self).start,
    {
        if disable_marker {
            return MonitorAction::Disabled;
        }
        match sample {
            Some((alive, now)) => {
                if self.guard.observe(alive, now, CRASH_WINDOW_SECS, CRASH_THRESHOLD) {
                    MonitorAction::Unhealthy
                } else {
                    MonitorAction::Continue
                }
            },
            None => MonitorAction::Continue,
        }
    }
}

/// `Path::join` for these paths: a component is appended after a `/`
/// (unless the base already ends in one); an absolute one replaces the base.
pub open spec fn path_join(base: Seq<char>, part: Seq<char>) -> Seq<char> {
    if part.len() > 0 && part[0] == '/' {
        part
    } else if base.len() == 0 || base.last() == '/' {
        base + part
    } else {
        base + "/"@ + part
    }
}

pub fn join_path(base: &str, part: &str) -> (p: String)
    ensures
        p@ == path_join(base@, part@),
{
    let b = chars_of(base);
    let q = chars_of(part);
    if q.len() > 0 && q[0] == '/' {
        return string_of(q.as_slice());
    }
    let mut s = string_of(b.as_slice());
    if !(b.len() == 0 || b[b.len() - 1] == '/') {
        push_str(&mut s, "/");
    }
    push_chars(&mut s, q.as_slice());
    s
}

/// The files of a session: the package's per-platform library directory and
/// the bootstrap library in it.
pub open spec fn lib_dir_spec(package: Seq<char>, platform: Seq<char>) -> Seq<char> {
    path_join(path_join(package, "lib"@), platform)
}

pub open spec fn bootstrap_spec(package: Seq<char>, platform: Seq<char>) -> Seq<char> {
    path_join(lib_dir_spec(package, platform), "libksubstrate-bootstrap.so"@)
}

/// The platform: hard-float Kindles ship the `armhf` dynamic linker.
pub fn platform_name(has_armhf_linker: bool) -> (p: &'static str)
    ensures
        p@ == (if has_armhf_linker { "kindlehf"@ } else { "kindlepw2"@ }),
{
    if has_armhf_linker { "kindlehf" } else { "kindlepw2" }
}

pub fn session_lib_dir(package: &str, platform: &str) -> (p: String)
    ensures
        p@ == lib_dir_spec(package@, platform@),
{
    let l = join_path(package, "lib");
    join_path(l.as_str(), platform)
}

pub fn session_bootstrap(package: &str, platform: &str) -> (p: String)
    ensures
        p@ == bootstrap_spec(package@, platform@),
{
    let d = session_lib_dir(package, platform);
    join_path(d.as_str(), "libksubstrate-bootstrap.so")
}

/// A search-list variable with `first` in front of what it held before: the
/// old value follows after `sep` unless it was unset or blank.
pub open spec fn env_list_spec(first: Seq<char>, existing: Option<Seq<char>>, sep: char) -> Seq<char> {
    match existing {
        Some(e) => if trim(e).len() > 0 { first + seq![sep] + e } else { first },
        None => first,
    }
}

pub fn prepend_env_list(first: &str, existing: Option<&str>, sep: char) -> (s: String)
    ensures
        s@ == env_list_spec(first@, match existing { Some(e) => Some(e@), None => None }, sep),
{
    let mut s = String::new();
    push_str(&mut s, first);
    match existing {
        Some(e) => {
            let chars = chars_of(e);
            let t = trim_chars(chars.as_slice());
            if t.len() > 0 {
                let ghost before = s@;
                push_chars(&mut s, &[sep]);
                push_str(&mut s, e);
                assert(s@ =~= first@ + seq![sep] + e@);
            }
        },
        None => {},
    }
    s
}

/// What `ksubstrate run` resolves before it execs a program under the engine.
pub struct RunPaths {
    pub platform: String,
    pub bootstrap: String,
    pub tweaks: String,
}

/// The paths for `ksubstrate run` in the installed package `package`: the
/// platform comes from the override, else from the dynamic linker present;
/// the tweaks from their override, else the package's `tweaks` directory.
pub fn run_paths(
    package: &str,
    platform_override: Option<&str>,
    has_armhf_linker: bool,
    tweaks_override: Option<&str>,
) -> (r: RunPaths)
    ensures
        r.platform@ == (match platform_override {
            Some(p) => p@,
            None => if has_armhf_linker { "kindlehf"@ } else { "kindlepw2"@ },
        }),
        r.bootstrap@ == bootstrap_spec(package@, r.platform@),
        r.tweaks@ == (match tweaks_override {
            Some(t) => t@,
            None => path_join(package@, "tweaks"@),
        }),
{
    let platform = match platform_override {
        Some(p) => String::from_str(p),
        None => String::from_str(platform_name(has_armhf_linker)),
    };
    let bootstrap = session_bootstrap(package, platform.as_str());
    let tweaks = match tweaks_override {
        Some(t) => String::from_str(t),
        None => join_path(package, "tweaks"),
    };
    RunPaths { platform, bootstrap, tweaks }
}

/// The directory part of `path` as `std::path::Path::parent` gives it, or
/// `None` when the path ends in a root or is empty.
pub uninterp spec fn path_parent(path: Seq<char>) -> Option<Seq<char>>;

/// `std::path::Path::parent` on `path`, as text. What it returns is named by
/// `path_parent`; nothing more of it is stated here.
#[verifier::external_body]
fn parent_of(path: &str) -> (r: Option<String>)
    ensures
        r matches Some(d) ==> path_parent(path@) == Some(d@),
        r is None ==> path_parent(path@) is None,
{
    match std::path::Path::new(path).parent() {
        Some(d) => Some(d.to_string_lossy().into_owned()),
        None => None,
    }
}

/// The environment a preloaded program runs with.
pub struct PreloadEnv {
    pub ld_preload: String,
    pub ld_library_path: String,
    pub tweaks_dir: String,
}

/// The bootstrap goes in front of any preload list already set, the library
/// directory `lib_dir` in front of the library search path, and the engine is
/// pointed at the tweaks.
pub fn preload_env_in(
    paths: &RunPaths,
    lib_dir: &str,
    existing_preload: Option<&str>,
    existing_library_path: Option<&str>,
) -> (e: PreloadEnv)
    ensures
        e.ld_preload@ == env_list_spec(
            paths.bootstrap@,
            match existing_preload { Some(x) => Some(x@), None => None },
            ' ',
        ),
        e.ld_library_path@ == env_list_spec(
            lib_dir@,
            match existing_library_path { Some(x) => Some(x@), None => None },
            ':',
        ),
        e.tweaks_dir@ == paths.tweaks@,
{
    PreloadEnv {
        ld_preload: prepend_env_list(paths.bootstrap.as_str(), existing_preload, ' '),
        ld_library_path: prepend_env_list(lib_dir, existing_library_path, ':'),
        tweaks_dir: paths.tweaks.clone(),
    }
}

/// The environment of `ksubstrate run`: that of `preload_env_in` with the
/// bootstrap's directory (its `Path::parent`) as the library directory;
/// `None` when the bootstrap path has no parent.
pub fn preload_env(paths: &RunPaths, existing_preload: Option<&str>, existing_library_path: Option<&str>) -> (e: Option<PreloadEnv>)
    ensures
        e is None <==> path_parent(paths.bootstrap@) is None,
        e matches Some(env) ==> {
            &&& env.ld_preload@ == env_list_spec(
                paths.bootstrap@,
                match existing_preload { Some(x) => Some(x@), None => None },
                ' ',
            )
            &&& env.ld_library_path@ == env_list_spec(
                path_parent(paths.bootstrap@)->0,
                match existing_library_path { Some(x) => Some(x@), None => None },
                ':',
            )
            &&& env.tweaks_dir@ == paths.tweaks@
        },
{
    match parent_of(paths.bootstrap.as_str()) {
        Some(lib_dir) => Some(preload_env_in(paths, lib_dir.as_str(), existing_preload, existing_library_path)),
        None => None,
    }
}

/// Where wrapped processes log.
pub open spec fn tweak_log_file() -> Seq<char> {
    "/var/local/kmc/ksubstrate/log/tweaks.log"@
}

/// The shell wrapper that shadows a spawn root: it preloads the bootstrap,
/// points the engine at the tweaks and the log, and execs the real binary.
pub open spec fn wrapper_script_spec(bootstrap: Seq<char>, lib_dir: Seq<char>, tweaks: Seq<char>, exec_target: Seq<char>) -> Seq<char> {
    "#!/bin/sh\nexport LD_PRELOAD=\""@ + bootstrap + "${LD_PRELOAD:+ $LD_PRELOAD}\"\nexport LD_LIBRARY_PATH=\""@ + lib_dir
        + "${LD_LIBRARY_PATH:+:$LD_LIBRARY_PATH}\"\nexport KSUBSTRATE_TWEAKS_DIR=\""@ + tweaks + "\"\nexport KSUBSTRATE_LOG=\""@
        + tweak_log_file() + "\"\nexec \""@ + exec_target + "\" \"$@\"\n"@
}

pub fn wrapper_script(bootstrap: &str, lib_dir: &str, tweaks: &str, exec_target: &str) -> (s: String)
    ensures
        s@ == wrapper_script_spec(bootstrap@, lib_dir@, tweaks@, exec_target@),
{
    let mut s = String::from_str("#!/bin/sh\nexport LD_PRELOAD=\"");
    push_str(&mut s, bootstrap);
    push_str(&mut s, "${LD_PRELOAD:+ $LD_PRELOAD}\"\nexport LD_LIBRARY_PATH=\"");
    push_str(&mut s, lib_dir);
    push_str(&mut s, "${LD_LIBRARY_PATH:+:$LD_LIBRARY_PATH}\"\nexport KSUBSTRATE_TWEAKS_DIR=\"");
    push_str(&mut s, tweaks);
    push_str(&mut s, "\"\nexport KSUBSTRATE_LOG=\"");
    push_str(&mut s, "/var/local/kmc/ksubstrate/log/tweaks.log");
    push_str(&mut s, "\"\nexec \"");
    push_str(&mut s, exec_target);
    push_str(&mut s, "\" \"$@\"\n");
    s
}

pub open spec fn joined(items: Seq<Seq<char>>, sep: Seq<char>) -> Seq<char>
    decreases items.len(),
{
    if items.len() == 0 {
        Seq::empty()
    } else if items.len() == 1 {
        items[0]
    } else {
        joined(items.drop_last(), sep) + sep + items.last()
    }
}

pub open spec fn strings(v: Seq<String>) -> Seq<Seq<char>> {
    v.map_values(|s: String| s@)
}

/// The items joined with `sep` (`[String]::join`).
pub fn join_strings(items: &[String], sep: &str) -> (s: String)
    ensures
        s@ == joined(strings(items@), sep@),
{
    let ghost iv = strings(items@);
    let mut s = String::new();
    let mut i: usize = 0;
    assert(iv.subrange(0, 0) =~= Seq::<Seq<char>>::empty());
    while i < items.len()
        invariant
            i <= items@.len(),
            iv == strings(items@),
            s@ == joined(iv.subrange(0, i as int), sep@),
        decreases items@.len() - i,
    {
        if i > 0 {
            push_str(&mut s, sep);
        }
        push_str(&mut s, items[i].as_str());
        assert(iv.subrange(0, i + 1).drop_last() =~= iv.subrange(0, i as int));
        assert(s@ =~= joined(iv.subrange(0, i + 1), sep@));
        i += 1;
    }
    assert(iv.subrange(0, iv.len() as int) =~= iv);
    s
}

/// The roots listed in the wrapped-roots file: its non-blank lines, trimmed.
pub open spec fn wrapped_list(ls: Seq<Seq<char>>) -> Seq<Seq<char>>
    decreases ls.len(),
{
    if ls.len() == 0 {
        Seq::empty()
    } else {
        let prev = wrapped_list(ls.drop_last());
        if trim(ls.last()).len() > 0 { prev.push(trim(ls.last())) } else { prev }
    }
}

pub fn parse_wrapped(contents: &str) -> (roots: Vec<String>)
    ensures
        strings(roots@) == wrapped_list(lines(contents@)),
{
    let chars = chars_of(contents);
    let ls = lines_of(chars.as_slice());
    let ghost lv = vec_views(ls@);
    assert(lv =~= lines(contents@));
    let mut roots: Vec<String> = Vec::new();
    let mut i: usize = 0;
    assert(lv.subrange(0, 0) =~= Seq::<Seq<char>>::empty());
    assert(strings(roots@) =~= Seq::<Seq<char>>::empty());
    while i < ls.len()
        invariant
            i <= ls@.len(),
            lv == vec_views(ls@),
            strings(roots@) == wrapped_list(lv.subrange(0, i as int)),
        decreases ls@.len() - i,
    {
        assert(lv.subrange(0, i + 1).drop_last() =~= lv.subrange(0, i as int));
        assert(lv.subrange(0, i + 1).last() == ls@[i as int]@);
        let t = trim_chars(ls[i].as_slice());
        if t.len() > 0 {
            let ghost before = strings(roots@);
            roots.push(string_of(t.as_slice()));
            assert(strings(roots@) =~= before.push(t@));
        }
        i += 1;
    }
    assert(lv.subrange(0, lv.len() as int) =~= lv);
    roots
}

/// The session summary written for diagnostics.
pub open spec fn session_summary_spec(
    package: Seq<char>,
    platform: Seq<char>,
    bootstrap: Seq<char>,
    tweaks: Seq<char>,
    roots: Seq<Seq<char>>,
) -> Seq<char> {
    "package="@ + package + "\nplatform="@ + platform + "\nbootstrap="@ + bootstrap + "\ntweaks="@ + tweaks
        + "\nspawn_roots="@ + joined(roots, ","@) + "\n"@
}

pub fn session_summary(package: &str, platform: &str, bootstrap: &str, tweaks: &str, roots: &[String]) -> (s: String)
    ensures
        s@ == session_summary_spec(package@, platform@, bootstrap@, tweaks@, strings(roots@)),
{
    let mut s = String::from_str("package=");
    push_str(&mut s, package);
    push_str(&mut s, "\nplatform=");
    push_str(&mut s, platform);
    push_str(&mut s, "\nbootstrap=");
    push_str(&mut s, bootstrap);
    push_str(&mut s, "\ntweaks=");
    push_str(&mut s, tweaks);
    push_str(&mut s, "\nspawn_roots=");
    let j = join_strings(roots, ",");
    push_str(&mut s, j.as_str());
    push_str(&mut s, "\n");
    s
}

} // verus!

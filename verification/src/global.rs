//! The process-wide recorder: its settings, its dump requests, and what its dumper does with each.
//!
//! Capture starts disabled. Each [`Global::trigger`] asks the background thread for one dump; requests
//! that arrive before the thread picks one up coalesce. Dumps are written to their own
//! timestamp-named files. Requests within the throttle window of the last dump are dropped, and a
//! [`LimitPolicy`] decides what to keep once as many files exist as the settings allow.

use crate::calendar::{is_next_stamp, is_stamp, suffix_of, unique_stamp};
use crate::event::Event;
use crate::id::opt_chars;
use crate::recorder::{event_fits, recorded, Recorder, RecorderView};
use crate::cpu::shard_for;
use crate::ring::{pow2_for, ring_empty};
use crate::span::may_draw;
use crate::text::{
    lowered, normalized, number_up_to, parse_number, same_text, trim, trimmed, utf8_string,
};
use crate::wire::opt_string;
use vstd::prelude::*;
use vstd::utf8::{decode_utf8, valid_utf8};

verus! {

/// Default bytes per shard: 16 MiB.
pub const DEFAULT_BYTES_PER_SHARD: usize = 16_777_216;

/// The least bytes per shard: one page.
pub const LEAST_BYTES_PER_SHARD: usize = 4096;

/// Default minimum interval between dumps in milliseconds.
pub const DEFAULT_THROTTLE_MS: u64 = 1000;

/// Default cap on the number of dump files kept. A dump serializes the whole ring capacity per
/// shard, so an uncapped, repeatedly-triggered process could quietly write many gigabytes.
pub const DEFAULT_MAX_DUMPS: u64 = 8;

/// Upper bound on the shard count derived from available parallelism.
pub const MAX_DEFAULT_SHARDS: usize = 16;

/// What the dumper does once as many dump files exist as are to be kept.
#[derive(Clone, Copy, Debug, PartialEq, Eq, Structural)]
#[non_exhaustive]
pub enum LimitPolicy {
    /// Keep the oldest dumps: drop further dump requests. The earliest dumps, capturing the history
    /// that led into the bad state, are preserved. This is the default.
    KeepOldest,
    /// Keep the newest dumps: each new dump evicts the oldest dump file.
    KeepNewest,
}

/// The policy that a text names.
pub open spec fn policy_of(s: Seq<char>) -> Option<LimitPolicy> {
    let t = lowered(trimmed(s));
    if t == "keep-oldest"@ || t == "oldest"@ {
        Some(LimitPolicy::KeepOldest)
    } else if t == "keep-newest"@ || t == "newest"@ {
        Some(LimitPolicy::KeepNewest)
    } else {
        None
    }
}

impl LimitPolicy {
    /// Parses a policy: `keep-oldest`/`oldest` or `keep-newest`/`newest`, in any case.
    pub fn parse(s: &str) -> (r: Option<Self>)
        ensures
            r == policy_of(s@),
    {
        let t = normalized(s);
        if same_text(t.as_str(), "keep-oldest") || same_text(t.as_str(), "oldest") {
            Some(LimitPolicy::KeepOldest)
        } else if same_text(t.as_str(), "keep-newest") || same_text(t.as_str(), "newest") {
            Some(LimitPolicy::KeepNewest)
        } else {
            None
        }
    }
}

/// A text that says yes: `1`, `true`, `yes` or `on`, in any case.
pub open spec fn says_yes(s: Seq<char>) -> bool {
    let t = lowered(trimmed(s));
    t == "1"@ || t == "true"@ || t == "yes"@ || t == "on"@
}

/// Whether a setting is there and says yes.
pub fn truthy(value: &Option<String>) -> (r: bool)
    ensures
        r == match *value {
            Some(s) => says_yes(s@),
            None => false,
        },
{
    match value {
        Some(s) => {
            let t = normalized(s.as_str());
            same_text(t.as_str(), "1") || same_text(t.as_str(), "true") || same_text(
                t.as_str(),
                "yes",
            ) || same_text(t.as_str(), "on")
        },
        None => false,
    }
}

/// A signal that asks for a dump.
#[derive(Clone, Copy, Debug, PartialEq, Eq, Structural)]
pub enum Signal {
    Usr1,
    Usr2,
    /// A raw signal number.
    Number(i32),
}

/// The signal that a text names.
pub open spec fn signal_of(s: Seq<char>) -> Option<Signal> {
    let t = lowered(trimmed(s));
    if t == "usr1"@ || t == "sigusr1"@ {
        Some(Signal::Usr1)
    } else if t == "usr2"@ || t == "sigusr2"@ {
        Some(Signal::Usr2)
    } else {
        match number_up_to(t, 63) {
            Some(n) => if n > 0 {
                Some(Signal::Number(n as i32))
            } else {
                None
            },
            None => None,
        }
    }
}

/// Parses a signal: `usr1`/`usr2`, in any case, or a signal number below 64.
pub fn parse_signal(s: &str) -> (r: Option<Signal>)
    ensures
        r == signal_of(s@),
{
    let t = normalized(s);
    if same_text(t.as_str(), "usr1") || same_text(t.as_str(), "sigusr1") {
        Some(Signal::Usr1)
    } else if same_text(t.as_str(), "usr2") || same_text(t.as_str(), "sigusr2") {
        Some(Signal::Usr2)
    } else {
        match parse_number(t.as_str(), 63) {
            Some(n) => if n > 0 {
                Some(Signal::Number(n as i32))
            } else {
                None
            },
            None => None,
        }
    }
}

// ---------------------------------------------------------------------------
// Settings.
// ---------------------------------------------------------------------------

/// The overrides that the environment gives, as they stand there.
pub struct Overrides {
    /// `BACKBEAT_SHARDS`: the number of rings.
    pub shards: Option<String>,
    /// `BACKBEAT_BYTES`: the bytes per shard.
    pub bytes_per_shard: Option<String>,
    /// `BACKBEAT_THROTTLE_MS`: the minimum interval between dumps.
    pub throttle_ms: Option<String>,
    /// `BACKBEAT_MAX_DUMPS`: the number of dump files kept; 0 for no limit.
    pub max_dumps: Option<String>,
    /// `BACKBEAT_LIMIT_POLICY`: what to keep at the limit.
    pub limit_policy: Option<String>,
    /// `BACKBEAT_ENABLE`: whether to arm capture at once.
    pub enable: Option<String>,
    /// `BACKBEAT_DUMP_ON_PANIC`: whether a panic triggers a dump.
    pub dump_on_panic: Option<String>,
    /// `BACKBEAT_SIGNAL`: the signal that triggers a dump.
    pub signal: Option<String>,
}

/// The settings of the process-wide recorder.
#[derive(Clone, Copy, Debug, PartialEq, Eq, Structural)]
pub struct Settings {
    pub shards: usize,
    pub bytes_per_shard: usize,
    pub throttle_ms: u64,
    pub max_dumps: Option<u64>,
    pub limit_policy: LimitPolicy,
    pub enable: bool,
    pub dump_on_panic: bool,
    pub signal: Option<Signal>,
}

/// The number of a setting that is there and writes one of at most `max`.
pub open spec fn setting_number(value: Option<String>, max: nat) -> Option<nat> {
    match value {
        Some(s) => number_up_to(s@, max),
        None => None,
    }
}

/// The number of a setting, unless it is 0.
pub open spec fn setting_positive(value: Option<String>, max: nat) -> Option<nat> {
    match setting_number(value, max) {
        Some(n) => if n > 0 {
            Some(n)
        } else {
            None
        },
        None => None,
    }
}

/// The larger of two numbers.
pub open spec fn at_least(n: nat, least: nat) -> nat {
    if n < least {
        least
    } else {
        n
    }
}

/// The shard count where none is set: the machine's parallelism, capped.
pub open spec fn default_shard_count(parallelism: Option<usize>) -> nat {
    match parallelism {
        Some(n) => if n < MAX_DEFAULT_SHARDS {
            n as nat
        } else {
            MAX_DEFAULT_SHARDS as nat
        },
        None => 1,
    }
}

/// The settings that overrides give on a machine of the given parallelism.
pub open spec fn is_configured(o: Overrides, parallelism: Option<usize>, s: Settings) -> bool {
    &&& s.shards == at_least(
        match setting_positive(o.shards, usize::MAX as nat) {
            Some(n) => n,
            None => default_shard_count(parallelism),
        },
        1,
    )
    &&& s.bytes_per_shard == at_least(
        match setting_positive(o.bytes_per_shard, usize::MAX as nat) {
            Some(n) => n,
            None => DEFAULT_BYTES_PER_SHARD as nat,
        },
        LEAST_BYTES_PER_SHARD as nat,
    )
    &&& s.throttle_ms == match setting_number(o.throttle_ms, u64::MAX as nat) {
        Some(n) => n,
        None => DEFAULT_THROTTLE_MS as nat,
    }
    &&& match setting_number(o.max_dumps, u64::MAX as nat) {
        None => s.max_dumps == Some(DEFAULT_MAX_DUMPS),
        Some(n) => if n == 0 {
            s.max_dumps is None
        } else {
            s.max_dumps == Some(n as u64)
        },
    }
    &&& s.limit_policy == match o.limit_policy {
        Some(t) => match policy_of(t@) {
            Some(p) => p,
            None => LimitPolicy::KeepOldest,
        },
        None => LimitPolicy::KeepOldest,
    }
    &&& s.enable == (match o.enable {
        Some(t) => says_yes(t@),
        None => false,
    })
    &&& s.dump_on_panic == (match o.dump_on_panic {
        Some(t) => says_yes(t@),
        None => false,
    })
    &&& s.signal == match o.signal {
        Some(t) => signal_of(t@),
        None => None,
    }
}

/// Reads the number of a setting.
fn read_number(value: &Option<String>, max: u64) -> (r: Option<u64>)
    ensures
        match r {
            Some(n) => setting_number(*value, max as nat) == Some(n as nat),
            None => setting_number(*value, max as nat) is None,
        },
{
    match value {
        Some(s) => parse_number(s.as_str(), max),
        None => None,
    }
}

/// Reads the settings of the process-wide recorder from overrides.
pub fn configure(o: &Overrides, parallelism: Option<usize>) -> (s: Settings)
    ensures
        is_configured(*o, parallelism, s),
{
    let default_shards: usize = match parallelism {
        Some(n) => if n < MAX_DEFAULT_SHARDS {
            n
        } else {
            MAX_DEFAULT_SHARDS
        },
        None => 1,
    };
    let shards: usize = match read_number(&o.shards, usize::MAX as u64) {
        Some(n) => if n > 0 {
            n as usize
        } else {
            default_shards
        },
        None => default_shards,
    };
    let shards: usize = if shards < 1 {
        1
    } else {
        shards
    };
    let bytes: usize = match read_number(&o.bytes_per_shard, usize::MAX as u64) {
        Some(n) => if n > 0 {
            n as usize
        } else {
            DEFAULT_BYTES_PER_SHARD
        },
        None => DEFAULT_BYTES_PER_SHARD,
    };
    let bytes_per_shard: usize = if bytes < LEAST_BYTES_PER_SHARD {
        LEAST_BYTES_PER_SHARD
    } else {
        bytes
    };
    let throttle_ms: u64 = match read_number(&o.throttle_ms, u64::MAX) {
        Some(n) => n,
        None => DEFAULT_THROTTLE_MS,
    };
    let max_dumps: Option<u64> = match read_number(&o.max_dumps, u64::MAX) {
        None => Some(DEFAULT_MAX_DUMPS),
        Some(n) => if n == 0 {
            None
        } else {
            Some(n)
        },
    };
    let limit_policy = match &o.limit_policy {
        Some(t) => match LimitPolicy::parse(t.as_str()) {
            Some(p) => p,
            None => LimitPolicy::KeepOldest,
        },
        None => LimitPolicy::KeepOldest,
    };
    let signal = match &o.signal {
        Some(t) => parse_signal(t.as_str()),
        None => None,
    };
    Settings {
        shards,
        bytes_per_shard,
        throttle_ms,
        max_dumps,
        limit_policy,
        enable: truthy(&o.enable),
        dump_on_panic: truthy(&o.dump_on_panic),
        signal,
    }
}

/// The host label that the environment gives: the override, or else the first of the two hostname
/// variables that is there, unless it is empty.
pub open spec fn env_host_of(
    host: Option<Seq<char>>,
    hostname: Option<Seq<char>>,
    computername: Option<Seq<char>>,
) -> Option<Seq<char>> {
    match host {
        Some(h) if h.len() > 0 => Some(h),
        _ => match hostname {
            Some(h) => if h.len() > 0 {
                Some(h)
            } else {
                None
            },
            None => match computername {
                Some(h) => if h.len() > 0 {
                    Some(h)
                } else {
                    None
                },
                None => None,
            },
        },
    }
}

/// The host label that the environment gives, or `None` where the `hostname` command must be asked.
pub fn env_host(
    host: Option<String>,
    hostname: Option<String>,
    computername: Option<String>,
) -> (r: Option<String>)
    ensures
        opt_string(r) == env_host_of(
            opt_string(host),
            opt_string(hostname),
            opt_string(computername),
        ),
{
    if let Some(h) = host {
        if !h.as_str().is_empty() {
            return Some(h);
        }
    }
    match hostname {
        Some(h) => if h.as_str().is_empty() {
            None
        } else {
            Some(h)
        },
        None => match computername {
            Some(h) => if h.as_str().is_empty() {
                None
            } else {
                Some(h)
            },
            None => None,
        },
    }
}

/// The host label from what the `hostname` command wrote: the text without the white space around
/// it, or nothing where the command failed or wrote no text.
pub fn command_host(output: Option<Vec<u8>>) -> (h: String)
    ensures
        h@ == match output {
            Some(b) => if valid_utf8(b@) {
                trimmed(decode_utf8(b@))
            } else {
                Seq::empty()
            },
            None => Seq::empty(),
        },
{
    match output {
        Some(b) => match utf8_string(b.as_slice()) {
            Some(t) => trim(t.as_str()),
            None => String::new(),
        },
        None => String::new(),
    }
}

// ---------------------------------------------------------------------------
// The dumper.
// ---------------------------------------------------------------------------

/// What the dumper should do for the next dump.
#[derive(Clone, Copy, Debug, PartialEq, Eq, Structural)]
pub enum LimitAction {
    /// Write the dump; if `evict` is true, delete the oldest live dump file afterward.
    Write { evict: bool },
    /// Drop this dump request.
    Stop,
}

/// What the dumper should do with `live` of its files on disk.
pub open spec fn action_for(live: nat, max_dumps: Option<u64>, policy: LimitPolicy) -> LimitAction {
    match max_dumps {
        None => LimitAction::Write { evict: false },
        Some(limit) => match policy {
            LimitPolicy::KeepOldest => if live >= limit {
                LimitAction::Stop
            } else {
                LimitAction::Write { evict: false }
            },
            LimitPolicy::KeepNewest => LimitAction::Write { evict: live >= limit },
        },
    }
}

/// Decides what to do for the next dump, where `live` is the number of dump files on disk.
///
/// * No limit: always write, never evict.
/// * Keep the oldest: write while fewer than `limit` files exist, then stop.
/// * Keep the newest: always write, evicting the oldest once the window is full.
pub fn limit_action(live: usize, max_dumps: Option<u64>, policy: LimitPolicy) -> (a: LimitAction)
    ensures
        a == action_for(live as nat, max_dumps, policy),
{
    match max_dumps {
        None => LimitAction::Write { evict: false },
        Some(limit) => {
            let full = live as u64 >= limit;
            match policy {
                LimitPolicy::KeepOldest => if full {
                    LimitAction::Stop
                } else {
                    LimitAction::Write { evict: false }
                },
                LimitPolicy::KeepNewest => LimitAction::Write { evict: full },
            }
        },
    }
}

/// Whether a dump request should be dropped: `since_last` is the time since the previous dump, if
/// there has been one, in the unit of `throttle`. The first dump is never throttled.
pub fn throttled(since_last: Option<u128>, throttle: u128) -> (r: bool)
    ensures
        r == (since_last matches Some(elapsed) && elapsed < throttle),
{
    match since_last {
        Some(elapsed) => elapsed < throttle,
        None => false,
    }
}

/// The name of a dump file: the stamp goes before the extension of the base name.
pub open spec fn stamped(stem: Option<Seq<char>>, ext: Option<Seq<char>>, stamp: Seq<char>) -> Seq<
    char,
> {
    match (stem, ext) {
        (Some(s), Some(e)) => s + "."@ + stamp + "."@ + e,
        (Some(s), None) => s + "."@ + stamp,
        _ => "backbeat."@ + stamp + ".bb"@,
    }
}

/// Builds the name of a dump file by inserting a stamp before the base name's extension. A base
/// without a file name falls back to a default one.
pub fn stamped_name(stem: Option<&str>, ext: Option<&str>, stamp: &str) -> (name: String)
    ensures
        name@ == stamped(opt_chars(stem), opt_chars(ext), stamp@),
{
    let mut name = String::new();
    match (stem, ext) {
        (Some(s), Some(e)) => {
            name.append(s);
            name.append(".");
            name.append(stamp);
            name.append(".");
            name.append(e);
        },
        (Some(s), None) => {
            name.append(s);
            name.append(".");
            name.append(stamp);
        },
        _ => {
            name.append("backbeat.");
            name.append(stamp);
            name.append(".bb");
        },
    }
    assert(name@ =~= stamped(opt_chars(stem), opt_chars(ext), stamp@));
    name
}

/// What the dumper thread does with a request.
pub enum DumpStep {
    /// The limit is reached: drop the request. `warn` is true the first time.
    Stop { warn: bool },
    /// The last dump is too recent: drop the request.
    Skip,
    /// Write a dump to the file with this stamp, and evict the oldest file if so asked.
    Write { stamp: String, evict: bool },
}

/// The dumper: its limits, the files it has on disk (oldest first), and the stamp it used last.
pub struct Dumper {
    max_dumps: Option<u64>,
    limit_policy: LimitPolicy,
    throttle_nanos: u128,
    live: Vec<String>,
    last_stamp: String,
    warned: bool,
}

/// The value of a dumper.
#[verifier::ext_equal]
pub struct DumperView {
    pub max_dumps: Option<u64>,
    pub limit_policy: LimitPolicy,
    pub throttle_nanos: u128,
    pub live: Seq<Seq<char>>,
    pub last_stamp: Seq<char>,
    pub warned: bool,
}

impl View for Dumper {
    type V = DumperView;

    closed spec fn view(&self) -> DumperView {
        DumperView {
            max_dumps: self.max_dumps,
            limit_policy: self.limit_policy,
            throttle_nanos: self.throttle_nanos,
            live: crate::wire::strings_view(self.live@),
            last_stamp: self.last_stamp@,
            warned: self.warned,
        }
    }
}

/// The files on disk after a dump: the new one joins if it was written, and the oldest leaves if one
/// is to be evicted.
pub open spec fn live_after(live: Seq<Seq<char>>, path: Seq<char>, ok: bool, evict: bool) -> Seq<
    Seq<char>,
> {
    let joined = if ok {
        live.push(path)
    } else {
        live
    };
    if evict && joined.len() > 0 {
        joined.skip(1)
    } else {
        joined
    }
}

impl Dumper {
    /// A dumper that has written nothing.
    pub fn new(settings: &Settings) -> (d: Self)
        ensures
            d@ == (DumperView {
                max_dumps: settings.max_dumps,
                limit_policy: settings.limit_policy,
                throttle_nanos: (settings.throttle_ms * 1_000_000) as u128,
                live: Seq::empty(),
                last_stamp: Seq::empty(),
                warned: false,
            }),
    {
        let d = Dumper {
            max_dumps: settings.max_dumps,
            limit_policy: settings.limit_policy,
            throttle_nanos: settings.throttle_ms as u128 * 1_000_000,
            live: Vec::new(),
            last_stamp: String::new(),
            warned: false,
        };
        assert(d@.live =~= Seq::<Seq<char>>::empty());
        assert(d@.last_stamp =~= Seq::<char>::empty());
        d
    }

    /// Decides what to do with a request, `since_last` nanoseconds after the last dump. The number of
    /// dumps of one millisecond must be countable.
    pub fn on_request(&mut self, since_last: Option<u128>, unix_millis: u64) -> (step: DumpStep)
        requires
            forall|base: Seq<char>| #[trigger]
                is_stamp(base, unix_millis) ==> suffix_of(old(self)@.last_stamp, base) < u64::MAX,
        ensures
            match action_for(
                old(self)@.live.len(),
                old(self)@.max_dumps,
                old(self)@.limit_policy,
            ) {
                LimitAction::Stop => step == (DumpStep::Stop { warn: !old(self)@.warned })
                    && final(self)@ == (DumperView { warned: true, ..old(self)@ }),
                LimitAction::Write { evict } => if since_last matches Some(t) && t
                    < old(self)@.throttle_nanos {
                    step is Skip && final(self)@ == old(self)@
                } else {
                    &&& step matches DumpStep::Write { stamp, evict: e } && e == evict
                        && final(self)@ == (DumperView { last_stamp: stamp@, ..old(self)@ })
                        && stamp@ != old(self)@.last_stamp && is_next_stamp(
                        stamp@,
                        unix_millis,
                        old(self)@.last_stamp,
                    )
                },
            },
    {
        match limit_action(self.live.len(), self.max_dumps, self.limit_policy) {
            LimitAction::Stop => {
                let warn = !self.warned;
                self.warned = true;
                DumpStep::Stop { warn }
            },
            LimitAction::Write { evict } => {
                if throttled(since_last, self.throttle_nanos) {
                    return DumpStep::Skip;
                }
                let stamp = unique_stamp(unix_millis, self.last_stamp.as_str());
                self.last_stamp = stamp.clone();
                DumpStep::Write { stamp, evict }
            },
        }
    }

    /// Notes that a dump was written to a file, or failed to be, and returns the file to remove.
    pub fn on_written(&mut self, path: String, ok: bool, evict: bool) -> (old_file: Option<String>)
        ensures
            final(self)@ == (DumperView {
                live: live_after(old(self)@.live, path@, ok, evict),
                ..old(self)@
            }),
            ({
                let joined = if ok {
                    old(self)@.live.push(path@)
                } else {
                    old(self)@.live
                };
                opt_string(old_file) == if evict && joined.len() > 0 {
                    Some(joined[0])
                } else {
                    None
                }
            }),
    {
        let ghost before = self@.live;
        if ok {
            self.live.push(path);
            assert(self@.live =~= before.push(path@));
        }
        let ghost joined = self@.live;
        if evict && self.live.len() > 0 {
            let file = self.live.remove(0);
            assert(self@.live =~= joined.skip(1));
            Some(file)
        } else {
            None
        }
    }
}

/// The number of dump files never exceeds the limit.
pub proof fn law_dump_count_bounded(
    live: Seq<Seq<char>>,
    limit: u64,
    policy: LimitPolicy,
    path: Seq<char>,
    ok: bool,
)
    requires
        limit > 0,
        live.len() <= limit,
    ensures
        action_for(live.len(), Some(limit), policy) matches LimitAction::Write { evict }
            ==> live_after(live, path, ok, evict).len() <= limit,
{
}

/// Keeping the oldest dumps never removes one.
pub proof fn law_oldest_kept(live: Seq<Seq<char>>, limit: u64, path: Seq<char>, ok: bool)
    ensures
        action_for(live.len(), Some(limit), LimitPolicy::KeepOldest) matches LimitAction::Write {
            evict,
        } ==> live_after(live, path, ok, evict).take(live.len() as int) == live,
{
    assert(live.push(path).take(live.len() as int) =~= live);
    assert(live.take(live.len() as int) =~= live);
}

/// Keeping the newest dumps always writes, and a dump that was written is kept together with the
/// newest of those before it.
pub proof fn law_newest_kept(live: Seq<Seq<char>>, limit: u64, path: Seq<char>)
    requires
        limit > 0,
        live.len() == limit,
    ensures
        action_for(live.len(), Some(limit), LimitPolicy::KeepNewest) == (LimitAction::Write {
            evict: true,
        }),
        live_after(live, path, true, true) == live.skip(1).push(path),
{
    assert(live.push(path).skip(1) =~= live.skip(1).push(path));
}

/// What serving a request without a throttle does to a dumper, where the dump is written to the given
/// file if one is: the limits stay, and the files on disk follow the policy.
pub open spec fn serves(before: DumperView, after: DumperView, path: Seq<char>) -> bool {
    &&& after.max_dumps == before.max_dumps
    &&& after.limit_policy == before.limit_policy
    &&& after.throttle_nanos == before.throttle_nanos
    &&& after.live == match action_for(before.live.len(), before.max_dumps, before.limit_policy) {
        LimitAction::Stop => before.live,
        LimitAction::Write { evict } => live_after(before.live, path, true, evict),
    }
}

/// A dumper without a throttle serves a request: it is asked what to do, and where it asks for a dump,
/// the dump is written and noted.
pub proof fn law_request_served(
    asked: &mut Dumper,
    noted: &mut Dumper,
    since_last: Option<u128>,
    unix_millis: u64,
    step: DumpStep,
    path: String,
    old_file: Option<String>,
)
    requires
        old(asked)@.throttle_nanos == 0,
        call_ensures(Dumper::on_request, (asked, since_last, unix_millis), step),
        *old(noted) == *final(asked),
        match step {
            DumpStep::Write { evict, .. } => call_ensures(
                Dumper::on_written,
                (noted, path, true, evict),
                old_file,
            ),
            _ => *final(noted) == *old(noted),
        },
    ensures
        serves(old(asked)@, final(noted)@, path@),
{
}

/// The states of a dumper that has no files at first and serves requests one at a time, each with its
/// own file.
pub open spec fn is_service(states: Seq<DumperView>, paths: Seq<Seq<char>>) -> bool {
    &&& states.len() == paths.len() + 1
    &&& states[0].live == Seq::<Seq<char>>::empty()
    &&& forall|i: int|
        0 <= i < paths.len() ==> serves(states[i], states[i + 1], #[trigger] paths[i])
}

/// The smaller of two numbers.
pub open spec fn lesser(a: nat, b: nat) -> nat {
    if a < b {
        a
    } else {
        b
    }
}

/// After `k` requests that are served one at a time, without a throttle and with every write
/// succeeding, the files left are the first `k` up to the limit where the oldest are to be kept, and
/// the last `k` up to the limit where the newest are. There are never more files than the limit.
pub proof fn law_files_after_requests(
    states: Seq<DumperView>,
    paths: Seq<Seq<char>>,
    limit: u64,
    k: int,
)
    requires
        is_service(states, paths),
        limit > 0,
        states[0].max_dumps == Some(limit),
        0 <= k <= paths.len(),
    ensures
        states[k].max_dumps == Some(limit),
        states[k].limit_policy == states[0].limit_policy,
        states[k].live == match states[0].limit_policy {
            LimitPolicy::KeepOldest => paths.take(lesser(k as nat, limit as nat) as int),
            LimitPolicy::KeepNewest => paths.subrange(k - lesser(k as nat, limit as nat), k),
        },
        states[k].live.len() == lesser(k as nat, limit as nat),
    decreases k,
{
    if k == 0 {
        assert(paths.take(0) =~= Seq::<Seq<char>>::empty());
        assert(paths.subrange(0, 0) =~= Seq::<Seq<char>>::empty());
    } else {
        law_files_after_requests(states, paths, limit, k - 1);
        let path = paths[k - 1];
        assert(serves(states[k - 1], states[k], path));
        let before = states[k - 1].live;
        match states[0].limit_policy {
            LimitPolicy::KeepOldest => {
                if k <= limit {
                    assert(paths.take(k - 1).push(path) =~= paths.take(k));
                }
            },
            LimitPolicy::KeepNewest => {
                let low = k - 1 - lesser((k - 1) as nat, limit as nat);
                assert(before.push(path) =~= paths.subrange(low, k));
                if k > limit {
                    assert(before.push(path).skip(1) =~= paths.subrange(low + 1, k));
                }
            },
        }
    }
}

// ---------------------------------------------------------------------------
// The process-wide recorder.
// ---------------------------------------------------------------------------

/// The process-wide recorder with its dumper, built once.
pub struct Global {
    recorder: Recorder,
    dumper: Dumper,
    /// The coalescing "dump requested" flag.
    requested: bool,
    /// Base dump path; per-dump files insert a stamp before the extension.
    path: String,
    /// Host label embedded in every dump.
    host: String,
}

impl Global {
    /// The recorder.
    pub closed spec fn recording(&self) -> Recorder {
        self.recorder
    }

    /// The dumper.
    pub closed spec fn dumping(&self) -> Dumper {
        self.dumper
    }

    /// A dump has been asked for.
    pub closed spec fn pending(&self) -> bool {
        self.requested
    }

    /// The base dump path.
    pub closed spec fn base_path(&self) -> Seq<char> {
        self.path@
    }

    /// The host label.
    pub closed spec fn label(&self) -> Seq<char> {
        self.host@
    }

    /// Everything but the recorder is the same.
    pub open spec fn same_but_recorder(&self, other: &Self) -> bool {
        &&& self.dumping() == other.dumping()
        &&& self.pending() == other.pending()
        &&& self.base_path() == other.base_path()
        &&& self.label() == other.label()
    }

    /// Builds the process-wide recorder from its settings. Capture is armed at once if so set.
    pub fn build(settings: &Settings, path: String, host: String) -> (g: Self)
        requires
            settings.shards > 0,
            0 < settings.bytes_per_shard <= isize::MAX / 2 + 1,
        ensures
            g.recording()@.enabled == settings.enable,
            g.recording()@.rings == Seq::new(
                settings.shards as nat,
                |i: int| ring_empty(pow2_for(settings.bytes_per_shard as nat)),
            ),
            may_draw(g.recording()@.instance_id),
            g.recording().installed().latched(),
            g.dumping()@ == (DumperView {
                max_dumps: settings.max_dumps,
                limit_policy: settings.limit_policy,
                throttle_nanos: (settings.throttle_ms * 1_000_000) as u128,
                live: Seq::empty(),
                last_stamp: Seq::empty(),
                warned: false,
            }),
            !g.pending(),
            g.base_path() == path@,
            g.label() == host@,
    {
        let mut recorder = Recorder::new(settings.shards, settings.bytes_per_shard);
        if settings.enable {
            recorder.set_enabled(true);
        }
        Global { recorder, dumper: Dumper::new(settings), requested: false, path, host }
    }

    /// The recorder, e.g. to open a span.
    pub fn recorder(&mut self) -> (r: &mut Recorder)
        ensures
            *r == old(self).recording(),
            final(self).recording() == *final(r),
            final(self).same_but_recorder(old(self)),
    {
        &mut self.recorder
    }

    /// The dumper.
    pub fn dumper(&mut self) -> (d: &mut Dumper)
        ensures
            *d == old(self).dumping(),
            final(self).dumping() == *final(d),
            final(self).recording() == old(self).recording(),
            final(self).pending() == old(self).pending(),
            final(self).base_path() == old(self).base_path(),
            final(self).label() == old(self).label(),
    {
        &mut self.dumper
    }

    /// Records one event on the shard of `cpu`, the CPU that the caller is running on. Does nothing
    /// while capture is disabled.
    pub fn record<E: Event>(&mut self, cpu: usize, event: &E)
        requires
            old(self).recording()@.rings.len() > 0,
            old(self).recording()@.enabled ==> event_fits(old(self).recording()@.rings, event),
        ensures
            recorded(
                old(self).recording()@,
                final(self).recording()@,
                old(self).recording().installed(),
                event,
                shard_for(cpu as nat, old(self).recording()@.rings.len()),
            ),
            final(self).recording().installed() == old(self).recording().installed(),
            final(self).same_but_recorder(old(self)),
    {
        self.recorder.record(cpu, event);
    }

    /// Enables capture.
    pub fn enable(&mut self)
        ensures
            final(self).recording()@ == (RecorderView {
                enabled: true,
                ..old(self).recording()@
            }),
            final(self).recording().installed() == old(self).recording().installed(),
            final(self).same_but_recorder(old(self)),
    {
        self.recorder.set_enabled(true);
    }

    /// Disables capture. The rings retain what they hold, and [`trigger`](Self::trigger) still dumps.
    pub fn disable(&mut self)
        ensures
            final(self).recording()@ == (RecorderView {
                enabled: false,
                ..old(self).recording()@
            }),
            final(self).recording().installed() == old(self).recording().installed(),
            final(self).same_but_recorder(old(self)),
    {
        self.recorder.set_enabled(false);
    }

    /// Whether capture is currently enabled.
    pub fn is_enabled(&self) -> (on: bool)
        ensures
            on == self.recording()@.enabled,
    {
        self.recorder.is_enabled()
    }

    /// Requests a dump of the rings to disk. Requests that are not picked up yet coalesce into one.
    pub fn trigger(&mut self)
        ensures
            final(self).pending(),
            final(self).recording() == old(self).recording(),
            final(self).dumping() == old(self).dumping(),
            final(self).base_path() == old(self).base_path(),
            final(self).label() == old(self).label(),
    {
        self.requested = true;
    }

    /// Picks up the pending request, if there is one.
    pub fn take_request(&mut self) -> (was: bool)
        ensures
            was == old(self).pending(),
            !final(self).pending(),
            final(self).recording() == old(self).recording(),
            final(self).dumping() == old(self).dumping(),
            final(self).base_path() == old(self).base_path(),
            final(self).label() == old(self).label(),
    {
        let was = self.requested;
        self.requested = false;
        was
    }

    /// The configured base dump path.
    pub fn dump_path(&self) -> (p: &str)
        ensures
            p@ == self.base_path(),
    {
        self.path.as_str()
    }

    /// The embedded host label.
    pub fn host(&self) -> (h: &str)
        ensures
            h@ == self.label(),
    {
        self.host.as_str()
    }
}

} // verus!

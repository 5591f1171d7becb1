//! What the settings of the process-wide recorder are read from, and what they do.

use crate::global::{
    command_host, configure, env_host, parse_signal, stamped_name, truthy, DumpStep, Dumper,
    LimitPolicy, Overrides, Settings, Signal,
};
use crate::text::{
    dec_text, is_digit, is_white, law_number_round_trip, lower_char, lowered, number_of, stands_at,
    trim_end, trim_start, trimmed, unsigned_digits,
};
use crate::wire::opt_string;
use vstd::prelude::*;
use vstd::utf8::encode_utf8;

verus! {

// ---------------------------------------------------------------------------
// Words.
// ---------------------------------------------------------------------------

/// There is only white space.
pub open spec fn all_white(s: Seq<char>) -> bool {
    forall|i: int| 0 <= i < s.len() ==> is_white(#[trigger] s[i])
}

/// The same characters, but for the case of ASCII letters.
pub open spec fn same_letters(s: Seq<char>, word: Seq<char>) -> bool {
    &&& s.len() == word.len()
    &&& forall|i: int|
        0 <= i < s.len() ==> (#[trigger] s[i]) == word[i] || (65 <= s[i] as u32 <= 90 && word[i] == (
        s[i] as u32 + 32) as char)
}

/// A text is a middle with white space around it.
pub open spec fn set_in(s: Seq<char>, before: Seq<char>, middle: Seq<char>, after: Seq<char>) -> bool {
    s == before + middle + after && all_white(before) && all_white(after)
}

/// A text is the word, in any case, with or without white space around it.
pub open spec fn spells(s: Seq<char>, word: Seq<char>) -> bool {
    exists|before: Seq<char>, middle: Seq<char>, after: Seq<char>| #[trigger]
        set_in(s, before, middle, after) && same_letters(middle, word)
}

/// A word in lower case without white space.
spec fn is_plain(word: Seq<char>) -> bool {
    &&& word.len() > 0
    &&& forall|i: int|
        0 <= i < word.len() ==> !is_white(#[trigger] word[i]) && !(65 <= word[i] as u32 <= 90)
}

/// White space in front is trimmed.
proof fn lemma_trim_front(before: Seq<char>, s: Seq<char>)
    requires
        all_white(before),
    ensures
        trim_start(before + s) == trim_start(s),
    decreases before.len(),
{
    if before.len() == 0 {
        assert(before + s =~= s);
    } else {
        let all = before + s;
        assert(all[0] == before[0]);
        assert(all.skip(1) =~= before.skip(1) + s);
        assert forall|i: int| 0 <= i < before.skip(1).len() implies is_white(
            #[trigger] before.skip(1)[i],
        ) by {
            assert(before.skip(1)[i] == before[i + 1]);
        }
        lemma_trim_front(before.skip(1), s);
    }
}

/// White space at the end is trimmed.
proof fn lemma_trim_back(s: Seq<char>, after: Seq<char>)
    requires
        all_white(after),
    ensures
        trim_end(s + after) == trim_end(s),
    decreases after.len(),
{
    if after.len() == 0 {
        assert(s + after =~= s);
    } else {
        let all = s + after;
        assert(all.last() == after[after.len() - 1]);
        assert(all.drop_last() =~= s + after.drop_last());
        assert forall|i: int| 0 <= i < after.drop_last().len() implies is_white(
            #[trigger] after.drop_last()[i],
        ) by {
            assert(after.drop_last()[i] == after[i]);
        }
        lemma_trim_back(s, after.drop_last());
    }
}

/// What has white space around it, and none at its ends, is what trimming leaves.
proof fn lemma_trimmed_middle(
    s: Seq<char>,
    before: Seq<char>,
    middle: Seq<char>,
    after: Seq<char>,
)
    requires
        set_in(s, before, middle, after),
        middle.len() > 0,
        !is_white(middle[0]),
        !is_white(middle[middle.len() - 1]),
    ensures
        trimmed(s) == middle,
{
    let rest = middle + after;
    assert(s =~= before + rest);
    lemma_trim_front(before, rest);
    assert(rest[0] == middle[0]);
    assert(trim_start(rest) == rest);
    lemma_trim_back(middle, after);
    assert(middle.last() == middle[middle.len() - 1]);
}

/// What trimming takes from the front.
proof fn lemma_front_trimmed(s: Seq<char>) -> (before: Seq<char>)
    ensures
        s == before + trim_start(s),
        all_white(before),
    decreases s.len(),
{
    if s.len() > 0 && is_white(s[0]) {
        let b = lemma_front_trimmed(s.skip(1));
        let before = seq![s[0]] + b;
        let t = trim_start(s);
        assert(s =~= seq![s[0]] + s.skip(1));
        assert(seq![s[0]] + (b + t) =~= before + t);
        assert forall|i: int| 0 <= i < before.len() implies is_white(#[trigger] before[i]) by {
            if i > 0 {
                assert(before[i] == b[i - 1]);
            }
        }
        before
    } else {
        assert(s =~= Seq::<char>::empty() + s);
        Seq::empty()
    }
}

/// What trimming takes from the end.
proof fn lemma_back_trimmed(s: Seq<char>) -> (after: Seq<char>)
    ensures
        s == trim_end(s) + after,
        all_white(after),
    decreases s.len(),
{
    if s.len() > 0 && is_white(s.last()) {
        let a = lemma_back_trimmed(s.drop_last());
        let after = a.push(s.last());
        let t = trim_end(s);
        assert(s =~= s.drop_last().push(s.last()));
        assert((t + a).push(s.last()) =~= t + after);
        after
    } else {
        assert(s =~= s + Seq::<char>::empty());
        Seq::empty()
    }
}

/// The text that trimming and lowering make of another is the word exactly if that one spells it.
proof fn lemma_spells(s: Seq<char>, word: Seq<char>)
    requires
        is_plain(word),
    ensures
        spells(s, word) <==> lowered(trimmed(s)) == word,
{
    if spells(s, word) {
        let (before, middle, after) = choose|
            before: Seq<char>,
            middle: Seq<char>,
            after: Seq<char>,
        | #[trigger]
            set_in(s, before, middle, after) && same_letters(middle, word);
        let n = middle.len() - 1;
        assert(!is_white(word[0]) && !is_white(word[n]));
        assert(middle[0] == word[0] || 65 <= middle[0] as u32 <= 90);
        assert(middle[n] == word[n] || 65 <= middle[n] as u32 <= 90);
        lemma_trimmed_middle(s, before, middle, after);
        let low = lowered(middle);
        assert forall|i: int| 0 <= i < low.len() implies low[i] == word[i] by {
            assert(low[i] == lower_char(middle[i]));
            assert(!(65 <= word[i] as u32 <= 90));
            assert(middle[i] == word[i] || 65 <= middle[i] as u32 <= 90);
        }
        assert(low =~= word);
    }
    if lowered(trimmed(s)) == word {
        let middle = trimmed(s);
        let before = lemma_front_trimmed(s);
        let after = lemma_back_trimmed(trim_start(s));
        assert(s =~= before + middle + after);
        assert(set_in(s, before, middle, after));
        assert forall|i: int| 0 <= i < middle.len() implies (#[trigger] middle[i]) == word[i] || (65
            <= middle[i] as u32 <= 90 && word[i] == (middle[i] as u32 + 32) as char) by {
            assert(lowered(middle)[i] == lower_char(middle[i]));
        }
        assert(same_letters(middle, word));
    }
}

/// The words of the settings.
proof fn lemma_plain_words()
    ensures
        is_plain("keep-oldest"@),
        is_plain("oldest"@),
        is_plain("keep-newest"@),
        is_plain("newest"@),
        is_plain("1"@),
        is_plain("true"@),
        is_plain("yes"@),
        is_plain("on"@),
        is_plain("usr1"@),
        is_plain("sigusr1"@),
        is_plain("usr2"@),
        is_plain("sigusr2"@),
        "usr1"@[0] == 'u',
        "sigusr1"@[0] == 's',
        "usr2"@[0] == 'u',
        "sigusr2"@[0] == 's',
        "usr1"@ != "usr2"@,
        "usr1"@ != "sigusr2"@,
        "sigusr1"@ != "usr2"@,
        "sigusr1"@ != "sigusr2"@,
        "keep-oldest"@ != "keep-newest"@,
        "keep-oldest"@ != "newest"@,
        "oldest"@ != "keep-newest"@,
        "oldest"@ != "newest"@,
{
    reveal_strlit("keep-oldest");
    reveal_strlit("oldest");
    reveal_strlit("keep-newest");
    reveal_strlit("newest");
    reveal_strlit("1");
    reveal_strlit("true");
    reveal_strlit("yes");
    reveal_strlit("on");
    reveal_strlit("usr1");
    reveal_strlit("sigusr1");
    reveal_strlit("usr2");
    reveal_strlit("sigusr2");
    assert("usr1"@[3] != "usr2"@[3]);
    assert("sigusr1"@[6] != "sigusr2"@[6]);
    assert("keep-oldest"@[5] != "keep-newest"@[5]);
    assert("oldest"@[0] != "newest"@[0]);
}

/// A policy is read from its name, long or short, in any case, with or without white space around it,
/// and from nothing else.
pub proof fn law_policy_read(s: &str, r: Option<LimitPolicy>)
    requires
        call_ensures(LimitPolicy::parse, (s,), r),
    ensures
        r == Some(LimitPolicy::KeepOldest) <==> spells(s@, "keep-oldest"@) || spells(s@, "oldest"@),
        r == Some(LimitPolicy::KeepNewest) <==> spells(s@, "keep-newest"@) || spells(s@, "newest"@),
{
    lemma_plain_words();
    lemma_spells(s@, "keep-oldest"@);
    lemma_spells(s@, "oldest"@);
    lemma_spells(s@, "keep-newest"@);
    lemma_spells(s@, "newest"@);
}

/// A setting says yes exactly if it is there and is `1`, `true`, `yes` or `on`, in any case, with or
/// without white space around it.
pub proof fn law_yes_read(value: &Option<String>, r: bool)
    requires
        call_ensures(truthy, (value,), r),
    ensures
        r <==> (*value matches Some(s) && (spells(s@, "1"@) || spells(s@, "true"@) || spells(
            s@,
            "yes"@,
        ) || spells(s@, "on"@))),
{
    if let Some(s) = *value {
        lemma_plain_words();
        lemma_spells(s@, "1"@);
        lemma_spells(s@, "true"@);
        lemma_spells(s@, "yes"@);
        lemma_spells(s@, "on"@);
    }
}

/// A signal is read from its name, with or without `sig` before it, in any case, or from its number,
/// which is positive and below 64, in either case with or without white space around it.
pub proof fn law_signal_read(
    s: &str,
    r: Option<Signal>,
    before: Seq<char>,
    n: nat,
    after: Seq<char>,
)
    requires
        call_ensures(parse_signal, (s,), r),
    ensures
        r == Some(Signal::Usr1) <==> spells(s@, "usr1"@) || spells(s@, "sigusr1"@),
        r == Some(Signal::Usr2) <==> spells(s@, "usr2"@) || spells(s@, "sigusr2"@),
        r matches Some(Signal::Number(k)) ==> 0 < k < 64,
        set_in(s@, before, dec_text(n), after) && 0 < n < 64 ==> r == Some(Signal::Number(n as i32)),
        set_in(s@, before, dec_text(n), after) && (n == 0 || n >= 64) ==> r is None,
{
    lemma_plain_words();
    lemma_spells(s@, "usr1"@);
    lemma_spells(s@, "sigusr1"@);
    lemma_spells(s@, "usr2"@);
    lemma_spells(s@, "sigusr2"@);
    if set_in(s@, before, dec_text(n), after) {
        let t = dec_text(n);
        law_number_round_trip(n);
        assert(is_digit(t[0]) && is_digit(t[t.len() - 1]));
        lemma_trimmed_middle(s@, before, t, after);
        assert forall|i: int| 0 <= i < t.len() implies #[trigger] lowered(t)[i] == t[i] by {
            assert(is_digit(t[i]));
        }
        assert(lowered(t) =~= t);
    }
}

// ---------------------------------------------------------------------------
// Numbers.
// ---------------------------------------------------------------------------

/// The setting is there and writes the number.
pub open spec fn sets(value: Option<String>, n: nat) -> bool {
    value matches Some(t) && t@ == dec_text(n)
}

/// A text that writes no number: there are no digits, or a character that is none and no plus sign at
/// the start.
pub open spec fn no_number(t: Seq<char>) -> bool {
    ||| t.len() == 0
    ||| t.len() == 1 && t[0] == '+'
    ||| exists|i: int| 0 <= i < t.len() && !is_digit(#[trigger] t[i]) && (i > 0 || t[i] != '+')
}

/// The setting is not there, or is of no use: it writes no number, or one above `max`.
pub open spec fn sets_nothing(value: Option<String>, max: nat) -> bool {
    match value {
        Some(t) => no_number(t@) || exists|n: nat| n > max && t@ == #[trigger] dec_text(n),
        None => true,
    }
}

/// A text that writes no number is not read as one.
proof fn lemma_no_number(t: Seq<char>)
    requires
        no_number(t),
    ensures
        number_of(t) is None,
{
    let d = unsigned_digits(t);
    if exists|i: int| 0 <= i < t.len() && !is_digit(#[trigger] t[i]) && (i > 0 || t[i] != '+') {
        let i = choose|i: int|
            0 <= i < t.len() && !is_digit(#[trigger] t[i]) && (i > 0 || t[i] != '+');
        if t[0] == '+' {
            assert(d[i - 1] == t[i]);
        } else {
            assert(d[i] == t[i]);
        }
    }
}

/// Of what sets nothing, no number is read.
proof fn lemma_sets_nothing(value: Option<String>, max: nat)
    requires
        sets_nothing(value, max),
    ensures
        crate::global::setting_number(value, max) is None,
{
    if let Some(t) = value {
        if no_number(t@) {
            lemma_no_number(t@);
        } else {
            let n = choose|n: nat| n > max && t@ == #[trigger] dec_text(n);
            law_number_round_trip(n);
        }
    }
}

/// A number that is set is taken. The shard count and the bytes per shard must be positive, and there
/// is at least a page per shard; a limit of no dumps is no limit.
pub proof fn law_numbers_taken(o: &Overrides, parallelism: Option<usize>, s: Settings, n: nat)
    requires
        call_ensures(configure, (o, parallelism), s),
    ensures
        sets(o.shards, n) && 0 < n <= usize::MAX ==> s.shards == n,
        sets(o.bytes_per_shard, n) && 4096 <= n <= usize::MAX ==> s.bytes_per_shard == n,
        sets(o.bytes_per_shard, n) && 0 < n < 4096 ==> s.bytes_per_shard == 4096,
        sets(o.throttle_ms, n) && n <= u64::MAX ==> s.throttle_ms == n,
        sets(o.max_dumps, n) && 0 < n <= u64::MAX ==> s.max_dumps == Some(n as u64),
        sets(o.max_dumps, 0) ==> s.max_dumps is None,
{
    law_number_round_trip(n);
    law_number_round_trip(0);
}

/// Where a number is not set, or not to any use, the default stands: one shard for each CPU, but at
/// most 16 and at least one; 16 MiB per shard; a dump a second; eight dumps. No shards, or no bytes per
/// shard, are of no use.
pub proof fn law_numbers_unset(o: &Overrides, parallelism: Option<usize>, s: Settings)
    requires
        call_ensures(configure, (o, parallelism), s),
    ensures
        sets_nothing(o.shards, usize::MAX as nat) || sets(o.shards, 0) ==> match parallelism {
            None => s.shards == 1,
            Some(cpus) => (1 <= cpus <= 16 ==> s.shards == cpus) && (cpus > 16 ==> s.shards == 16)
                && (cpus == 0 ==> s.shards == 1),
        },
        sets_nothing(o.bytes_per_shard, usize::MAX as nat) || sets(o.bytes_per_shard, 0)
            ==> s.bytes_per_shard == 16 * 1024 * 1024,
        sets_nothing(o.throttle_ms, u64::MAX as nat) ==> s.throttle_ms == 1000,
        sets_nothing(o.max_dumps, u64::MAX as nat) ==> s.max_dumps == Some(8u64),
{
    law_number_round_trip(0);
    if sets_nothing(o.shards, usize::MAX as nat) {
        lemma_sets_nothing(o.shards, usize::MAX as nat);
    }
    if sets_nothing(o.bytes_per_shard, usize::MAX as nat) {
        lemma_sets_nothing(o.bytes_per_shard, usize::MAX as nat);
    }
    if sets_nothing(o.throttle_ms, u64::MAX as nat) {
        lemma_sets_nothing(o.throttle_ms, u64::MAX as nat);
    }
    if sets_nothing(o.max_dumps, u64::MAX as nat) {
        lemma_sets_nothing(o.max_dumps, u64::MAX as nat);
    }
}

/// The other settings are what their texts are read as; where one is not there or not read, the oldest
/// dumps are kept, capture is not armed, a panic does not dump, and no signal does.
pub proof fn law_words_taken(
    o: &Overrides,
    parallelism: Option<usize>,
    s: Settings,
    text: &str,
    policy: Option<LimitPolicy>,
    enable: bool,
    on_panic: bool,
    signal: Option<Signal>,
)
    requires
        call_ensures(configure, (o, parallelism), s),
        call_ensures(LimitPolicy::parse, (text,), policy),
        call_ensures(truthy, (&o.enable,), enable),
        call_ensures(truthy, (&o.dump_on_panic,), on_panic),
        call_ensures(parse_signal, (text,), signal),
    ensures
        o.limit_policy matches Some(t) && t@ == text@ && policy is Some ==> s.limit_policy
            == policy->0,
        o.limit_policy is None ==> s.limit_policy == LimitPolicy::KeepOldest,
        o.limit_policy matches Some(t) && t@ == text@ && policy is None ==> s.limit_policy
            == LimitPolicy::KeepOldest,
        s.enable == enable,
        s.dump_on_panic == on_panic,
        o.signal matches Some(t) && t@ == text@ ==> s.signal == signal,
        o.signal is None ==> s.signal is None,
{
}

// ---------------------------------------------------------------------------
// The host label.
// ---------------------------------------------------------------------------

/// The text is there and not empty.
pub open spec fn says_something(s: Option<String>) -> bool {
    s matches Some(t) && t@.len() > 0
}

/// The host label is the override, unless that is not there or empty; then it is the first of the two
/// hostnames that is there, unless that is empty.
pub proof fn law_host_read(
    host: Option<String>,
    hostname: Option<String>,
    computername: Option<String>,
    r: Option<String>,
)
    requires
        call_ensures(env_host, (host, hostname, computername), r),
    ensures
        says_something(host) ==> opt_string(r) == opt_string(host),
        !says_something(host) && says_something(hostname) ==> opt_string(r) == opt_string(hostname),
        !says_something(host) && hostname is None && says_something(computername) ==> opt_string(r)
            == opt_string(computername),
        r is Some ==> says_something(r),
        !says_something(host) && hostname is Some && !says_something(hostname) ==> r is None,
        !says_something(host) && hostname is None && !says_something(computername) ==> r is None,
{
}

/// The host label that a command writes is what it writes without the white space around it; there is
/// none where the command fails.
pub proof fn law_command_read(
    output: Option<Vec<u8>>,
    h: String,
    before: Seq<char>,
    middle: Seq<char>,
    after: Seq<char>,
)
    requires
        call_ensures(command_host, (output,), h),
    ensures
        output is None ==> h@.len() == 0,
        output matches Some(b) && b@ == encode_utf8(before + middle + after) && all_white(before)
            && all_white(after) && middle.len() > 0 && !is_white(middle[0]) && !is_white(
            middle[middle.len() - 1],
        ) ==> h@ == middle,
{
    if let Some(b) = output {
        if b@ == encode_utf8(before + middle + after) && all_white(before) && all_white(after)
            && middle.len() > 0 && !is_white(middle[0]) && !is_white(middle[middle.len() - 1]) {
            let t = before + middle + after;
            vstd::utf8::encode_utf8_valid_utf8(t);
            vstd::utf8::encode_utf8_decode_utf8(t);
            lemma_trimmed_middle(t, before, middle, after);
        }
    }
}

// ---------------------------------------------------------------------------
// The dumper.
// ---------------------------------------------------------------------------

/// A dumper as it is set up drops a request exactly if it comes fewer milliseconds after the last dump
/// than the settings say, as long as the limit is not reached.
pub proof fn law_requests_throttled(
    settings: &Settings,
    d: &mut Dumper,
    since_last: Option<u128>,
    unix_millis: u64,
    step: DumpStep,
)
    requires
        call_ensures(Dumper::new, (settings,), *old(d)),
        call_ensures(Dumper::on_request, (d, since_last, unix_millis), step),
        settings.max_dumps matches Some(limit) ==> limit > 0,
    ensures
        step is Skip <==> (since_last matches Some(nanos) && nanos < settings.throttle_ms * 1_000_000),
        step is Skip || step is Write,
        step matches DumpStep::Write { evict, .. } ==> !evict,
{
}

/// The name of a dump file begins with the stem of the base name and ends with its extension, and the
/// stamp stands between them, behind a dot, with a dot before the extension. Files of different stamps
/// have different names.
pub proof fn law_names_are_stamped(
    stem: &str,
    ext: &str,
    stamp: &str,
    name: String,
    later: &str,
    other: String,
)
    requires
        call_ensures(stamped_name, (Some(stem), Some(ext), stamp), name),
        call_ensures(stamped_name, (Some(stem), Some(ext), later), other),
    ensures
        stands_at(name@, stem@, 0),
        name@[stem@.len() as int] == '.',
        stands_at(name@, stamp@, stem@.len() as int + 1),
        name@[stem@.len() as int + 1 + stamp@.len()] == '.',
        stands_at(name@, ext@, stem@.len() as int + 2 + stamp@.len()),
        name@.len() == stem@.len() + 2 + stamp@.len() + ext@.len(),
        stamp@ != later@ ==> name@ != other@,
{
    lemma_name_parts(stem, ext, stamp, name);
    lemma_name_parts(stem, ext, later, other);
    if name@ == other@ {
        let n = stem@.len() + 1;
        assert(stamp@.len() == later@.len());
        assert(name@.subrange(n as int, (n + stamp@.len()) as int) == stamp@);
        assert(other@.subrange(n as int, (n + later@.len()) as int) == later@);
    }
}

/// The parts of the name of a dump file.
proof fn lemma_name_parts(stem: &str, ext: &str, stamp: &str, name: String)
    requires
        call_ensures(stamped_name, (Some(stem), Some(ext), stamp), name),
    ensures
        stands_at(name@, stem@, 0),
        name@[stem@.len() as int] == '.',
        stands_at(name@, stamp@, stem@.len() as int + 1),
        name@[stem@.len() as int + 1 + stamp@.len()] == '.',
        stands_at(name@, ext@, stem@.len() as int + 2 + stamp@.len()),
        name@.len() == stem@.len() + 2 + stamp@.len() + ext@.len(),
{
    reveal_strlit(".");
    let a = stem@.len() as int;
    let b = stamp@.len() as int;
    let c = ext@.len() as int;
    assert(name@ == stem@ + "."@ + stamp@ + "."@ + ext@);
    assert(name@.subrange(0, a) =~= stem@);
    assert(name@.subrange(a + 1, a + 1 + b) =~= stamp@);
    assert(name@.subrange(a + 2 + b, a + 2 + b + c) =~= ext@);
}

} // verus!

//! The local inference engine: where it listens, and how long and how often
//! its start-up is waited for.

use vstd::prelude::*;
use crate::text::{chars_equal, chars_of, push_chars, string_of, to_owned_string, trim, trim_chars};
use crate::translator::zm::{decimal, decimal_string, push_decimal};

verus! {

/// Why the engine is being waited for.
#[derive(Debug, Clone, Copy, PartialEq, Eq)]
pub enum EngineWaitKind {
    NormalStartup,
    ModelSwitch,
}

/// How long, and how chattily, the engine's start-up is waited for.
#[derive(Debug, Clone, Copy, PartialEq, Eq)]
pub struct EngineWaitPolicy {
    pub max_attempts: u32,
    pub log_interval_attempts: u32,
    pub initial_backoff_ms: u64,
    pub max_backoff_ms: u64,
}

impl EngineWaitKind {
    /// A normal start-up waits 24 attempts and reports every second one; a
    /// model switch waits 12 and reports each; both back off from 500 ms to 3 s.
    pub fn policy(self) -> (r: EngineWaitPolicy)
        ensures
            r.max_attempts == (match self {
                EngineWaitKind::NormalStartup => 24u32,
                EngineWaitKind::ModelSwitch => 12u32,
            }),
            r.log_interval_attempts == (match self {
                EngineWaitKind::NormalStartup => 2u32,
                EngineWaitKind::ModelSwitch => 1u32,
            }),
            r.initial_backoff_ms == 500,
            r.max_backoff_ms == 3000,
    {
        match self {
            EngineWaitKind::NormalStartup => EngineWaitPolicy {
                max_attempts: 24,
                log_interval_attempts: 2,
                initial_backoff_ms: 500,
                max_backoff_ms: 3000,
            },
            EngineWaitKind::ModelSwitch => EngineWaitPolicy {
                max_attempts: 12,
                log_interval_attempts: 1,
                initial_backoff_ms: 500,
                max_backoff_ms: 3000,
            },
        }
    }

    /// The wording of this kind in notices.
    pub fn label(self) -> (r: &'static str)
        ensures
            r@ == (match self {
                EngineWaitKind::NormalStartup => "normal startup"@,
                EngineWaitKind::ModelSwitch => "model switch"@,
            }),
    {
        match self {
            EngineWaitKind::NormalStartup => "normal startup",
            EngineWaitKind::ModelSwitch => "model switch",
        }
    }
}

/// The hosts that mean the engine runs on this machine.
pub open spec fn is_local_host(host: Seq<char>) -> bool {
    let h = trim(host);
    h == "127.0.0.1"@ || h == "localhost"@ || h == "0.0.0.0"@ || h.len() == 0
}

/// Whether `host` names this machine.
pub fn is_local_llama_host(host: &str) -> (r: bool)
    ensures
        r == is_local_host(host@),
{
    let cs = chars_of(host);
    let h = trim_chars(&cs);
    h.len() == 0 || chars_equal(&h, &chars_of("127.0.0.1")) || chars_equal(&h, &chars_of("localhost"))
        || chars_equal(&h, &chars_of("0.0.0.0"))
}

/// The host to connect to: the loopback address for an empty, wildcard or
/// `localhost` host, else the host itself, trimmed.
pub open spec fn connect_host(host: Seq<char>) -> Seq<char> {
    let h = trim(host);
    if h.len() == 0 || h == "0.0.0.0"@ || h == "localhost"@ {
        "127.0.0.1"@
    } else {
        h
    }
}

/// The host to connect to for `host`.
pub fn llama_connect_host(host: &str) -> (r: String)
    ensures
        r@ == connect_host(host@),
{
    let cs = chars_of(host);
    let h = trim_chars(&cs);
    if h.len() == 0 || chars_equal(&h, &chars_of("0.0.0.0")) || chars_equal(&h, &chars_of("localhost")) {
        to_owned_string("127.0.0.1")
    } else {
        string_of(&h)
    }
}

/// A host names this machine exactly when the engine is reached over the
/// loopback address: `is_local_llama_host` holds of a host if and only if
/// `llama_connect_host` turns it into `127.0.0.1`, so the loopback address
/// itself, written with or without surrounding spaces, is local.
pub proof fn lemma_local_iff_loopback(host: Seq<char>)
    ensures
        is_local_host(host) <==> connect_host(host) == "127.0.0.1"@,
{
}

/// `http://<connect host>:<port>`.
pub open spec fn base_url(host: Seq<char>, port: u16) -> Seq<char> {
    "http://"@ + connect_host(host) + seq![':'] + decimal(port as nat)
}

/// The engine's base URL.
pub fn llama_base_url(host: &str, port: u16) -> (r: String)
    ensures
        r@ == base_url(host@, port),
{
    let mut r = to_owned_string("http://");
    let h = llama_connect_host(host);
    let hc = chars_of(h.as_str());
    push_chars(&mut r, &hc);
    let colon = [':'];
    push_chars(&mut r, &colon);
    push_decimal(&mut r, port as usize);
    assert(r@ =~= base_url(host@, port));
    r
}

// ---------------------------------------------------------------------------
// Waiting for the engine
// ---------------------------------------------------------------------------

/// What one look at the starting engine found.
#[derive(Debug, Clone, Copy, PartialEq, Eq)]
pub enum WaitProbe {
    /// Shutting down was requested.
    ShutdownRequested,
    /// The engine process is gone.
    ProcessExited,
    /// Its port does not accept connections yet.
    PortClosed,
    /// Its health check answered that it is ready.
    HealthReady,
    /// Its health check answered, but the model is still loading.
    HealthLoading,
    /// Its health check did not answer.
    HealthUnreachable,
}

/// The stage a wait notice reports.
#[derive(Debug, Clone, Copy, PartialEq, Eq)]
pub enum WaitNotice {
    Starting,
    ProcessExited,
    WaitingForPort,
    LoadingModel,
    WaitingForHealth,
    Timeout,
}

/// Where a wait stands: the attempt about to be made and the current pause.
#[derive(Debug, Clone, Copy, PartialEq, Eq)]
pub struct WaitState {
    pub attempt: u32,
    pub backoff_ms: u64,
}

/// What to do after a probe: report a notice (for the given attempt number
/// as shown to the user), then either finish with a verdict or pause.
#[derive(Debug, Clone, Copy, PartialEq, Eq)]
pub struct WaitStep {
    pub notice: Option<(WaitNotice, u32)>,
    pub finished: Option<bool>,
    pub sleep_ms: u64,
    pub next: WaitState,
}

/// The pause after `backoff`: doubled, but at most `max`.
pub open spec fn next_backoff(backoff: u64, max: u64) -> u64 {
    if 2 * backoff >= max {
        max
    } else {
        (2 * backoff) as u64
    }
}

/// The pause that follows `backoff_ms`.
pub fn next_backoff_ms(backoff_ms: u64, max_backoff_ms: u64) -> (r: u64)
    ensures
        r == next_backoff(backoff_ms, max_backoff_ms),
{
    if backoff_ms >= max_backoff_ms || max_backoff_ms - backoff_ms <= backoff_ms {
        max_backoff_ms
    } else {
        backoff_ms * 2
    }
}

impl EngineWaitPolicy {
    /// The state a wait starts in, and the notice it starts with.
    pub fn start(&self) -> (r: (WaitState, (WaitNotice, u32)))
        ensures
            r.0.attempt == 0,
            r.0.backoff_ms == self.initial_backoff_ms,
            r.1 == (WaitNotice::Starting, 0u32),
    {
        (WaitState { attempt: 0, backoff_ms: self.initial_backoff_ms }, (WaitNotice::Starting, 0))
    }

    /// Whether the attempts are used up; the wait then ends with a timeout
    /// notice for the last attempt and the verdict `false`.
    pub fn exhausted(&self, state: &WaitState) -> (r: Option<(WaitNotice, u32)>)
        ensures
            state.attempt >= self.max_attempts ==> r == Some((WaitNotice::Timeout, self.max_attempts)),
            state.attempt < self.max_attempts ==> r is None,
    {
        if state.attempt >= self.max_attempts {
            Some((WaitNotice::Timeout, self.max_attempts))
        } else {
            None
        }
    }

    /// The decision after one probe of attempt `state.attempt`: shutting
    /// down ends silently; a vanished process ends with a notice; a ready
    /// engine ends successfully; otherwise the wait pauses, reporting a
    /// loading model each time and the other stages only every
    /// `log_interval_attempts`-th attempt.
    pub fn step(&self, state: &WaitState, probe: WaitProbe) -> (r: WaitStep)
        requires
            self.log_interval_attempts > 0,
            state.attempt < self.max_attempts,
        ensures
            ({
                let shown = (state.attempt + 1) as u32;
                let due = state.attempt % self.log_interval_attempts == 0;
                let pause = WaitState {
                    attempt: shown,
                    backoff_ms: next_backoff(state.backoff_ms, self.max_backoff_ms),
                };
                match probe {
                    WaitProbe::ShutdownRequested => r.finished == Some(false) && r.notice is None,
                    WaitProbe::ProcessExited => r.finished == Some(false) && r.notice == Some(
                        (WaitNotice::ProcessExited, shown),
                    ),
                    WaitProbe::HealthReady => r.finished == Some(true) && r.notice is None,
                    WaitProbe::PortClosed => r.finished is None && r.sleep_ms == state.backoff_ms
                        && r.next == pause && r.notice == (if due {
                        Some((WaitNotice::WaitingForPort, shown))
                    } else {
                        None
                    }),
                    WaitProbe::HealthLoading => r.finished is None && r.sleep_ms
                        == state.backoff_ms && r.next == pause && r.notice == Some(
                        (WaitNotice::LoadingModel, shown),
                    ),
                    WaitProbe::HealthUnreachable => r.finished is None && r.sleep_ms
                        == state.backoff_ms && r.next == pause && r.notice == (if due {
                        Some((WaitNotice::WaitingForHealth, shown))
                    } else {
                        None
                    }),
                }
            }),
    {
        let shown = state.attempt + 1;
        let due = state.attempt % self.log_interval_attempts == 0;
        let pause = WaitState {
            attempt: shown,
            backoff_ms: next_backoff_ms(state.backoff_ms, self.max_backoff_ms),
        };
        match probe {
            WaitProbe::ShutdownRequested => WaitStep {
                notice: None,
                finished: Some(false),
                sleep_ms: 0,
                next: *state,
            },
            WaitProbe::ProcessExited => WaitStep {
                notice: Some((WaitNotice::ProcessExited, shown)),
                finished: Some(false),
                sleep_ms: 0,
                next: *state,
            },
            WaitProbe::HealthReady => WaitStep {
                notice: None,
                finished: Some(true),
                sleep_ms: 0,
                next: *state,
            },
            WaitProbe::PortClosed => WaitStep {
                notice: if due {
                    Some((WaitNotice::WaitingForPort, shown))
                } else {
                    None
                },
                finished: None,
                sleep_ms: state.backoff_ms,
                next: pause,
            },
            WaitProbe::HealthLoading => WaitStep {
                notice: Some((WaitNotice::LoadingModel, shown)),
                finished: None,
                sleep_ms: state.backoff_ms,
                next: pause,
            },
            WaitProbe::HealthUnreachable => WaitStep {
                notice: if due {
                    Some((WaitNotice::WaitingForHealth, shown))
                } else {
                    None
                },
                finished: None,
                sleep_ms: state.backoff_ms,
                next: pause,
            },
        }
    }
}


/// The GPU layer count passed to llama-server: 0 means unset and offloads
/// every layer (999), which keeps the Vulkan back end off the CPU path.
pub open spec fn effective_ngl(ngl: u32) -> u32 {
    if ngl == 0 {
        999
    } else {
        ngl
    }
}

/// The arguments llama-server is started with.
pub open spec fn llama_args_spec(
    model: Seq<char>,
    port: u16,
    ngl: u32,
    ctx_size: u32,
    batch_size: u32,
    ubatch_size: u32,
    cont_batching: bool,
    parallel: u32,
    extra_args: Seq<Seq<char>>,
) -> Seq<Seq<char>> {
    seq![
        "-m"@,
        model,
        "-ngl"@,
        decimal(effective_ngl(ngl) as nat),
        "--port"@,
        decimal(port as nat),
        "--ctx-size"@,
        decimal(ctx_size as nat),
        "--batch-size"@,
        decimal(batch_size as nat),
        "-ub"@,
        decimal(ubatch_size as nat),
        if cont_batching {
            "--cont-batching"@
        } else {
            "--no-cont-batching"@
        },
        "--parallel"@,
        decimal(if parallel > 1 { parallel as nat } else { 1 }),
        "--cache-ram"@,
        "0"@,
        "--metrics"@,
    ] + extra_args
}

fn push_arg(args: &mut Vec<String>, a: String)
    ensures
        final(args)@.map_values(|s: String| s@) == old(args)@.map_values(|s: String| s@).push(a@),
{
    let ghost before = args@.map_values(|s: String| s@);
    args.push(a);
    assert(args@.map_values(|s: String| s@) =~= before.push(a@));
}

/// The command-line arguments for llama-server: the model, its GPU layers
/// (0 meaning all), the port, context and batch sizes, continuous batching
/// on or off, at least one parallel slot, no prompt cache in RAM, the
/// metrics endpoint, then the extra arguments.
pub fn llama_args(
    model: &str,
    port: u16,
    ngl: u32,
    ctx_size: u32,
    batch_size: u32,
    ubatch_size: u32,
    cont_batching: bool,
    parallel: u32,
    extra_args: &Vec<String>,
) -> (r: Vec<String>)
    ensures
        r@.map_values(|s: String| s@) == llama_args_spec(
            model@,
            port,
            ngl,
            ctx_size,
            batch_size,
            ubatch_size,
            cont_batching,
            parallel,
            extra_args@.map_values(|s: String| s@),
        ),
{
    let ngl = if ngl == 0 {
        999
    } else {
        ngl
    };
    let parallel = if parallel > 1 {
        parallel
    } else {
        1
    };
    let mut args: Vec<String> = Vec::new();
    push_arg(&mut args, "-m".to_string());
    push_arg(&mut args, model.to_string());
    push_arg(&mut args, "-ngl".to_string());
    push_arg(&mut args, decimal_string(ngl as usize));
    push_arg(&mut args, "--port".to_string());
    push_arg(&mut args, decimal_string(port as usize));
    push_arg(&mut args, "--ctx-size".to_string());
    push_arg(&mut args, decimal_string(ctx_size as usize));
    push_arg(&mut args, "--batch-size".to_string());
    push_arg(&mut args, decimal_string(batch_size as usize));
    push_arg(&mut args, "-ub".to_string());
    push_arg(&mut args, decimal_string(ubatch_size as usize));
    push_arg(
        &mut args,
        if cont_batching {
            "--cont-batching".to_string()
        } else {
            "--no-cont-batching".to_string()
        },
    );
    push_arg(&mut args, "--parallel".to_string());
    push_arg(&mut args, decimal_string(parallel as usize));
    push_arg(&mut args, "--cache-ram".to_string());
    push_arg(&mut args, "0".to_string());
    push_arg(&mut args, "--metrics".to_string());
    let ghost head = args@.map_values(|s: String| s@);
    let mut i: usize = 0;
    while i < extra_args.len()
        invariant
            i <= extra_args@.len(),
            args@.map_values(|s: String| s@) == head + extra_args@.map_values(|s: String| s@).take(i as int),
        decreases extra_args.len() - i,
    {
        let a = extra_args[i].clone();
        assert(a@ == extra_args@[i as int]@);
        push_arg(&mut args, a);
        assert(extra_args@.map_values(|s: String| s@).take(i as int + 1) =~= extra_args@.map_values(
            |s: String| s@,
        ).take(i as int).push(a@));
        i += 1;
    }
    assert(extra_args@.map_values(|s: String| s@).take(extra_args@.len() as int) =~= extra_args@.map_values(
        |s: String| s@,
    ));
    assert(args@.map_values(|s: String| s@) =~= llama_args_spec(
        model@,
        port,
        ngl,
        ctx_size,
        batch_size,
        ubatch_size,
        cont_batching,
        parallel,
        extra_args@.map_values(|s: String| s@),
    ));
    args
}

/// The value texts of the lines of a `/metrics` body that report
/// `metric_name`, in order: a line other than a `#` comment, cut at its
/// first space, whose name part is the metric; its value part trimmed.
pub open spec fn metric_candidates_spec(body: Seq<char>, name: Seq<char>) -> Seq<Seq<char>> {
    metric_values_in(crate::text::text_lines(body), name)
}

/// The values of the lines that report `name`.
pub open spec fn metric_values_in(lines: Seq<Seq<char>>, name: Seq<char>) -> Seq<Seq<char>>
    decreases lines.len(),
{
    if lines.len() == 0 {
        Seq::empty()
    } else if metric_line_of(lines.last(), name) {
        metric_values_in(lines.drop_last(), name).push(
            trim(lines.last().skip(first_space(lines.last()) + 1)),
        )
    } else {
        metric_values_in(lines.drop_last(), name)
    }
}

/// The position of the first space of `l`, or its length.
pub open spec fn first_space(l: Seq<char>) -> int
    decreases l.len(),
{
    if l.len() == 0 {
        0
    } else if l[0] == ' ' {
        0
    } else {
        1 + first_space(l.skip(1))
    }
}

pub open spec fn metric_line_of(l: Seq<char>, name: Seq<char>) -> bool {
    !(l.len() > 0 && l[0] == '#') && first_space(l) < l.len() && l.take(first_space(l)) == name
}

fn first_space_of(l: &[char]) -> (r: usize)
    ensures
        r == first_space(l@),
{
    let mut i: usize = 0;
    assert(l@.skip(0) =~= l@);
    while i < l.len() && l[i] != ' '
        invariant
            i <= l@.len(),
            first_space(l@) == i + first_space(l@.skip(i as int)),
        decreases l.len() - i,
    {
        assert(l@.skip(i as int).skip(1) =~= l@.skip(i as int + 1));
        i += 1;
    }
    i
}

/// The candidate values of `metric_name` in a `/metrics` body, in order;
/// the first that parses as a number is the metric's value.
pub fn metric_value_candidates(body: &str, metric_name: &str) -> (r: Vec<String>)
    ensures
        r@.map_values(|s: String| s@) == metric_candidates_spec(body@, metric_name@),
{
    let lines = crate::text::lines_of(body);
    let ghost lv = lines@.map_values(|s: String| s@);
    let name = chars_of(metric_name);
    let mut out: Vec<String> = Vec::new();
    let mut i: usize = 0;
    while i < lines.len()
        invariant
            i <= lines@.len(),
            lv == lines@.map_values(|s: String| s@),
            name@ == metric_name@,
            out@.map_values(|s: String| s@) == metric_values_in(lv.take(i as int), metric_name@),
        decreases lines.len() - i,
    {
        assert(lv.take(i as int + 1).drop_last() =~= lv.take(i as int));
        assert(lv.take(i as int + 1).last() == lines@[i as int]@);
        let l = chars_of(lines[i].as_str());
        let k = first_space_of(&l);
        if !(l.len() > 0 && l[0] == '#') && k < l.len() {
            let (head, rest) = l.as_slice().split_at(k);
            if chars_equal(head, &name) {
                let (_, value) = rest.split_at(1);
                assert(value@ =~= l@.skip(k as int + 1));
                let v = string_of(&trim_chars(value));
                let ghost before = out@.map_values(|s: String| s@);
                out.push(v);
                assert(out@.map_values(|s: String| s@) =~= before.push(v@));
            }
        }
        i += 1;
    }
    assert(lv.take(lines@.len() as int) =~= lv);
    out
}
} // verus!

//! How the backend restarts its engine and translation server.

use vstd::prelude::*;

use crate::engine::EngineWaitKind;

verus! {

/// How much of the backend a settings change restarts. It follows from the
/// change; it is not a command.
#[derive(Debug, Clone, Copy, PartialEq, Eq, Structural)]
pub enum RestartScope {
    /// Only the translation server; the engine keeps running. Where the
    /// engine is not running this becomes a full start.
    TranslatorOnly,
    /// The engine and the translation server.
    Full,
}

/// One step of stopping and starting the backend.
#[derive(Debug, Clone, Copy, PartialEq, Eq)]
pub enum LifecycleOp {
    Stop,
    SleepMs(u64),
    Start(EngineWaitKind),
}

/// Stopping everything: stop, then half a second's pause.
pub fn stop_all_ops() -> (r: Vec<LifecycleOp>)
    ensures
        r@ == seq![LifecycleOp::Stop, LifecycleOp::SleepMs(500)],
{
    let mut v: Vec<LifecycleOp> = Vec::new();
    v.push(LifecycleOp::Stop);
    v.push(LifecycleOp::SleepMs(500));
    v
}

/// Restarting everything: stop, a second's pause, a normal start.
pub fn restart_all_ops() -> (r: Vec<LifecycleOp>)
    ensures
        r@ == seq![
            LifecycleOp::Stop,
            LifecycleOp::SleepMs(1000),
            LifecycleOp::Start(EngineWaitKind::NormalStartup),
        ],
{
    let mut v: Vec<LifecycleOp> = Vec::new();
    v.push(LifecycleOp::Stop);
    v.push(LifecycleOp::SleepMs(1000));
    v.push(LifecycleOp::Start(EngineWaitKind::NormalStartup));
    v
}

/// Switching models: stop, then a start that waits as for a model switch.
pub fn model_switch_ops() -> (r: Vec<LifecycleOp>)
    ensures
        r@ == seq![LifecycleOp::Stop, LifecycleOp::Start(EngineWaitKind::ModelSwitch)],
{
    let mut v: Vec<LifecycleOp> = Vec::new();
    v.push(LifecycleOp::Stop);
    v.push(LifecycleOp::Start(EngineWaitKind::ModelSwitch));
    v
}

/// What a restart does.
#[derive(Debug, Clone, Copy, PartialEq, Eq, Structural)]
pub enum RestartAction {
    /// Stop everything, then start everything.
    StopThenStart,
    /// Start everything (the engine is down).
    StartAll,
    /// Restart the translation server alone.
    RestartTranslator,
}

/// The action of a restart of the given scope: a full restart stops and
/// starts everything; a translator restart restarts the server alone,
/// unless the engine is down, when everything is started.
pub fn restart_action(scope: RestartScope, engine_running: bool) -> (r: RestartAction)
    ensures
        r == (match scope {
            RestartScope::Full => RestartAction::StopThenStart,
            RestartScope::TranslatorOnly => if engine_running {
                RestartAction::RestartTranslator
            } else {
                RestartAction::StartAll
            },
        }),
{
    match scope {
        RestartScope::Full => RestartAction::StopThenStart,
        RestartScope::TranslatorOnly => if engine_running {
            RestartAction::RestartTranslator
        } else {
            RestartAction::StartAll
        },
    }
}

/// What starting the backend does next, given what is running.
#[derive(Debug, Clone, Copy, PartialEq, Eq, Structural)]
pub enum StartStep {
    /// A start is already under way: nothing to do.
    AlreadyStarting,
    /// Start the engine first.
    StartEngine,
    /// The engine runs: start the translation server.
    StartServer,
    /// Both run already.
    NothingToStart,
}

/// The first step of a start: none while another start runs; the engine
/// when it is not running; else the server when it is not running.
pub fn start_step(starting: bool, engine_live: bool, server_running: bool) -> (r: StartStep)
    ensures
        r == (if starting {
            StartStep::AlreadyStarting
        } else if !engine_live {
            StartStep::StartEngine
        } else if !server_running {
            StartStep::StartServer
        } else {
            StartStep::NothingToStart
        }),
{
    if starting {
        StartStep::AlreadyStarting
    } else if !engine_live {
        StartStep::StartEngine
    } else if !server_running {
        StartStep::StartServer
    } else {
        StartStep::NothingToStart
    }
}

/// The message logged when the engine does not start, in English for an
/// English interface and in Japanese otherwise.
pub fn engine_failure_message(ui_lang: &str) -> (r: &'static str)
    ensures
        ui_lang@ == "en"@ ==> r@ == "Inference engine failed to start; translation server will not launch."@,
        ui_lang@ != "en"@ ==> r@ == "推論エンジンの起動に失敗したため、翻訳サーバーは起動しませんでした"@,
{
    if crate::text::str_equal(ui_lang, "en") {
        "Inference engine failed to start; translation server will not launch."
    } else {
        "推論エンジンの起動に失敗したため、翻訳サーバーは起動しませんでした"
    }
}

} // verus!

verus! {

/// The message logged when the translation server has started: where it
/// listens, and that it can be reached from the network when it listens on
/// every interface; in English for an English interface, in Japanese
/// otherwise.
pub open spec fn server_started_text(ui_lang: Seq<char>, host: Seq<char>, port: u16) -> Seq<char> {
    let p = crate::translator::zm::decimal(port as nat);
    if ui_lang == "en"@ {
        if host == "0.0.0.0"@ {
            "Translation server started (http://0.0.0.0:"@ + p + ") - accessible from network"@
        } else {
            "Translation server started (http://"@ + host + ":"@ + p + ")"@
        }
    } else {
        if host == "0.0.0.0"@ {
            "翻訳サーバーを起動しました (http://0.0.0.0:"@ + p + ") - ネットワークからアクセス可能"@
        } else {
            "翻訳サーバーを起動しました (http://"@ + host + ":"@ + p + ")"@
        }
    }
}

/// The message logged when the translation server has started.
pub fn server_started_message(ui_lang: &str, host: &str, port: u16) -> (r: String)
    ensures
        r@ == server_started_text(ui_lang@, host@, port),
{
    let p = crate::translator::zm::decimal_string(port as usize);
    let all = crate::text::str_equal(host, "0.0.0.0");
    let mut out = if crate::text::str_equal(ui_lang, "en") {
        if all {
            crate::text::to_owned_string("Translation server started (http://0.0.0.0:")
        } else {
            let mut s = crate::text::to_owned_string("Translation server started (http://");
            s.append(host);
            s.append(":");
            s
        }
    } else {
        if all {
            crate::text::to_owned_string("翻訳サーバーを起動しました (http://0.0.0.0:")
        } else {
            let mut s = crate::text::to_owned_string("翻訳サーバーを起動しました (http://");
            s.append(host);
            s.append(":");
            s
        }
    };
    out.append(p.as_str());
    if crate::text::str_equal(ui_lang, "en") {
        if all {
            out.append(") - accessible from network");
        } else {
            out.append(")");
        }
    } else {
        if all {
            out.append(") - ネットワークからアクセス可能");
        } else {
            out.append(")");
        }
    }
    out
}

} // verus!

use tenuki::engine::{
    is_local_llama_host, llama_base_url, llama_connect_host, next_backoff_ms, EngineWaitKind,
    WaitNotice, WaitProbe,
};

#[test]
fn local_hosts_are_recognised() {
    assert!(is_local_llama_host(" localhost "));
    assert!(is_local_llama_host(""));
    assert!(is_local_llama_host("0.0.0.0"));
    assert!(!is_local_llama_host("192.168.1.2"));
}

#[test]
fn connect_host_and_base_url() {
    assert_eq!(llama_connect_host("0.0.0.0"), "127.0.0.1");
    assert_eq!(llama_connect_host(" 10.0.0.5 "), "10.0.0.5");
    assert_eq!(llama_base_url("localhost", 8080), "http://127.0.0.1:8080");
    assert_eq!(llama_base_url("example", 0), "http://example:0");
}

#[test]
fn labels_name_the_wait_kind() {
    assert_eq!(EngineWaitKind::NormalStartup.label(), "normal startup");
    assert_eq!(EngineWaitKind::ModelSwitch.label(), "model switch");
}

#[test]
fn backoff_doubles_up_to_the_cap() {
    assert_eq!(next_backoff_ms(500, 3000), 1000);
    assert_eq!(next_backoff_ms(2000, 3000), 3000);
    assert_eq!(next_backoff_ms(u64::MAX, 3000), 3000);
}

#[test]
fn wait_steps_follow_the_probe() {
    let policy = EngineWaitKind::NormalStartup.policy();
    let (state, notice) = policy.start();
    assert_eq!(notice, (WaitNotice::Starting, 0));
    let step = policy.step(&state, WaitProbe::PortClosed);
    assert_eq!(step.notice, Some((WaitNotice::WaitingForPort, 1)));
    assert_eq!(step.sleep_ms, 500);
    assert_eq!(step.next.backoff_ms, 1000);
    let step2 = policy.step(&step.next, WaitProbe::HealthUnreachable);
    assert_eq!(step2.notice, None);
    let done = policy.step(&step2.next, WaitProbe::HealthReady);
    assert_eq!(done.finished, Some(true));
    let gone = policy.step(&state, WaitProbe::ProcessExited);
    assert_eq!(gone.finished, Some(false));
    assert_eq!(gone.notice, Some((WaitNotice::ProcessExited, 1)));
    let mut s = state;
    s.attempt = 24;
    assert_eq!(policy.exhausted(&s), Some((WaitNotice::Timeout, 24)));
}

#[test]
fn llama_arguments_follow_the_settings() {
    let extra = vec!["--flash-attn".to_string()];
    let args = tenuki::engine::llama_args("C:\\m\\model.gguf", 8080, 0, 4096, 512, 256, false, 0, &extra);
    assert_eq!(
        args,
        vec![
            "-m", "C:\\m\\model.gguf", "-ngl", "999", "--port", "8080", "--ctx-size", "4096",
            "--batch-size", "512", "-ub", "256", "--no-cont-batching", "--parallel", "1",
            "--cache-ram", "0", "--metrics", "--flash-attn",
        ]
    );
    let args = tenuki::engine::llama_args("m", 1, 33, 1, 1, 1, true, 4, &Vec::new());
    assert_eq!(&args[2..4], &["-ngl".to_string(), "33".to_string()]);
    assert_eq!(args[12], "--cont-batching");
    assert_eq!(args[14], "4");
    assert_eq!(args.len(), 18);
}

#[test]
fn metric_candidates_skip_comments_and_other_names() {
    let body = "# HELP llamacpp:predicted_tokens_seconds rate\nllamacpp:prompt_tokens_seconds 3.5\nllamacpp:predicted_tokens_seconds  42.25 \nllamacpp:predicted_tokens_seconds x\n";
    assert_eq!(
        tenuki::engine::metric_value_candidates(body, "llamacpp:predicted_tokens_seconds"),
        vec!["42.25".to_string(), "x".to_string()]
    );
    assert!(tenuki::engine::metric_value_candidates("name_only", "name_only").is_empty());
}

#[test]
fn log_file_gets_a_byte_order_mark_once() {
    assert_eq!(tenuki::log_file::bom_rewrite(None), Some(vec![0xEF, 0xBB, 0xBF]));
    assert_eq!(tenuki::log_file::bom_rewrite(Some(b"ab")), Some(vec![0xEF, 0xBB, 0xBF, b'a', b'b']));
    assert_eq!(tenuki::log_file::bom_rewrite(Some(&[0xEF, 0xBB, 0xBF, b'x'])), None);
    assert_eq!(tenuki::log_file::log_line("12:00", "INFO", "ready"), "[12:00] INFO ready");
}

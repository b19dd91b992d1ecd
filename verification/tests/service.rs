use proxy::service::{
    argument_port, await_shutdown, clear_last_error, jni_port, last_error, launched, record_fault,
    set_last_error, start_report, Endpoint, Fault, LastError, Launch, Slot, StartStep, StopStep,
    WaitStep, LOOPBACK,
};
use proxy::{
    is_running, running_port, start, stop, take_last_error, DEFAULT_PORT, JNI_FALLBACK_PORT,
};

/// Starts the service where nothing goes wrong outside of it.
fn start_it(slot: &mut Slot, error: &mut LastError, port: u16) -> i32 {
    match start(slot, error, port) {
        StartStep::Reply(code) => code,
        StartStep::Bind(endpoint) => launched(slot, error, endpoint.port, Launch::Spawned),
    }
}

/// Stops the service, whose thread finishes at once.
fn stop_it(slot: &mut Slot, error: &mut LastError) -> i32 {
    match stop(slot, error) {
        StopStep::Reply(code) => code,
        StopStep::Shutdown(_) => match await_shutdown(error, true, 0) {
            WaitStep::Reply(code) => code,
            WaitStep::Sleep(_) => panic!("finished"),
        },
    }
}

#[test]
fn lifecycle_and_error_codes() {
    let mut slot = Slot::Stopped;
    let mut error = last_error();

    // Stopping what does not run is a success.
    assert_eq!(stop_it(&mut slot, &mut error), 0);
    assert_eq!(is_running(&slot), 0);

    // Port 0 stands for the fallback.
    assert_eq!(start_it(&mut slot, &mut error, 0), 0);
    assert_eq!(is_running(&slot), 1);
    assert_eq!(running_port(&slot), JNI_FALLBACK_PORT);

    // A second start is answered with 1.
    assert_eq!(start_it(&mut slot, &mut error, 0), 1);
    assert_eq!(take_last_error(&error), "proxy already running");

    assert_eq!(stop_it(&mut slot, &mut error), 0);
    assert_eq!(is_running(&slot), 0);
}

#[test]
fn start_binds_the_loopback_interface() {
    let mut error = last_error();
    set_last_error(&mut error, "old".to_string());
    assert_eq!(
        start(&Slot::Stopped, &mut error, 8080),
        StartStep::Bind(Endpoint { host: LOOPBACK, port: 8080 })
    );
    assert_eq!(take_last_error(&error), "");
    assert_eq!(std::format!("{:x}", LOOPBACK), "7f000001");
    assert_eq!(DEFAULT_PORT, 5575);
    assert_eq!(JNI_FALLBACK_PORT, DEFAULT_PORT);
}

#[test]
fn failed_starts() {
    let cases = [
        (Launch::BindFailed("in use".to_string()), 2, "in use"),
        (Launch::SetupFailed("no".to_string()), 2, "no"),
        (Launch::SpawnFailed("full".to_string()), 3, "启动线程失败: full"),
    ];
    for (launch, code, text) in cases {
        let mut slot = Slot::Stopped;
        let mut error = last_error();
        assert_eq!(launched(&mut slot, &mut error, 1, launch), code);
        assert_eq!(slot, Slot::Stopped);
        assert_eq!(running_port(&slot), 0);
        assert_eq!(take_last_error(&error), text);
    }
}

#[test]
fn poisoned_locks() {
    let mut slot = Slot::Poisoned;
    let mut error = last_error();
    assert_eq!(start(&slot, &mut error, 1), StartStep::Reply(3));
    assert_eq!(take_last_error(&error), "state lock poisoned");
    clear_last_error(&mut error);
    assert_eq!(stop(&mut slot, &mut error), StopStep::Reply(1));
    assert_eq!(take_last_error(&error), "state lock poisoned");
    assert_eq!(is_running(&slot), 0);
    assert_eq!(running_port(&slot), 0);

    let mut error = LastError::Poisoned;
    set_last_error(&mut error, "lost".to_string());
    assert_eq!(error, LastError::Poisoned);
    assert_eq!(take_last_error(&error), "");
}

#[test]
fn shutdown_is_waited_for() {
    let mut error = last_error();
    assert_eq!(await_shutdown(&mut error, false, 0), WaitStep::Sleep(50));
    assert_eq!(await_shutdown(&mut error, false, 4999), WaitStep::Sleep(50));
    assert_eq!(await_shutdown(&mut error, false, 5000), WaitStep::Reply(1));
    assert_eq!(take_last_error(&error), "shutdown timeout");
    assert_eq!(await_shutdown(&mut error, true, 9000), WaitStep::Reply(0));
    assert_eq!(take_last_error(&error), "");
}

#[test]
fn stop_names_the_running_service() {
    let mut slot = Slot::Running(7);
    let mut error = last_error();
    assert_eq!(stop(&mut slot, &mut error), StopStep::Shutdown(7));
    assert_eq!(slot, Slot::Stopped);
    assert_eq!(stop(&mut slot, &mut error), StopStep::Reply(0));
}

#[test]
fn faults_are_recorded() {
    let mut error = last_error();
    record_fault(&mut error, Fault::Runtime, "e");
    assert_eq!(take_last_error(&error), "构建 runtime 失败: e");
    record_fault(&mut error, Fault::Listener, "e");
    assert_eq!(take_last_error(&error), "转换 listener 失败: e");
    record_fault(&mut error, Fault::Serve, "e");
    assert_eq!(take_last_error(&error), "serve 结束: e");
}

#[test]
fn ports() {
    assert_eq!(jni_port(0), 5575);
    assert_eq!(jni_port(-1), 5575);
    assert_eq!(jni_port(65536), 5575);
    assert_eq!(jni_port(65535), 65535);
    assert_eq!(jni_port(1), 1);
    assert_eq!(argument_port(None), 5575);
    assert_eq!(argument_port(Some("8080")), 8080);
    assert_eq!(argument_port(Some("65536")), 5575);
    assert_eq!(argument_port(Some("x")), 5575);
    assert_eq!(argument_port(Some("0")), 0);
}

#[test]
fn start_reports() {
    let r = start_report(0, 80, "");
    assert_eq!((r.text.as_str(), r.running, r.exit_code), ("服务器启动在 127.0.0.1:80", true, 0));
    let r = start_report(1, 80, "x");
    assert_eq!((r.text.as_str(), r.running, r.exit_code), ("服务已在运行", false, 0));
    let r = start_report(2, 80, "x");
    assert_eq!((r.text.as_str(), r.running, r.exit_code), ("端口绑定失败: x", false, 1));
    let r = start_report(3, 80, "x");
    assert_eq!((r.text.as_str(), r.running, r.exit_code), ("启动失败: x", false, 1));
}

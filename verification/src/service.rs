//! The life of the service: starting, stopping, and the last error.

use vstd::prelude::*;
use vstd::string::*;

use crate::reply::prefixed;
use crate::text;
use crate::text::{parse_u16, push_natural};

verus! {

/// The port where none is asked for.
pub const DEFAULT_PORT: u16 = 5575;

/// The port for a request from Java that names none.
pub const JNI_FALLBACK_PORT: u16 = DEFAULT_PORT;

/// How long stopping may take.
pub const SHUTDOWN_MILLIS: u64 = 5000;

/// How long to wait before looking again whether the service has stopped.
pub const SHUTDOWN_POLL_MILLIS: u64 = 50;

/// The service, as the lock that guards it shows it.
#[derive(Clone, Copy, Debug, PartialEq, Eq, Structural)]
pub enum Slot {
    /// A thread has panicked with the lock in its hands.
    Poisoned,
    /// No service runs.
    Stopped,
    /// A service runs on this port.
    Running(u16),
}

/// The last error, as the lock that guards it shows it.
#[derive(Debug, PartialEq, Eq)]
pub enum LastError {
    /// A thread has panicked with the lock in its hands.
    Poisoned,
    /// The text of the last error, empty where there is none.
    Text(String),
}

impl View for LastError {
    type V = Option<Seq<char>>;

    open spec fn view(&self) -> Option<Seq<char>> {
        match self {
            LastError::Poisoned => None,
            LastError::Text(s) => Some(s@),
        }
    }
}

/// The last error once `message` has been set: a poisoned one cannot be set.
pub open spec fn with_error(error: Option<Seq<char>>, message: Seq<char>) -> Option<Seq<char>> {
    match error {
        None => None,
        Some(_) => Some(message),
    }
}

/// The last error at the start: none.
pub fn last_error() -> (result: LastError)
    ensures
        result@ == Some(Seq::<char>::empty()),
{
    LastError::Text(String::new())
}

/// Sets the last error.
pub fn set_last_error(error: &mut LastError, message: String)
    ensures
        final(error)@ == with_error(old(error)@, message@),
{
    match error {
        LastError::Poisoned => {},
        LastError::Text(_) => {
            *error = LastError::Text(message);
        },
    }
}

/// Forgets the last error.
pub fn clear_last_error(error: &mut LastError)
    ensures
        final(error)@ == with_error(old(error)@, Seq::empty()),
{
    set_last_error(error, String::new());
}

/// The text that is reported of the last error, empty where there is none.
pub open spec fn reported_error(error: Option<Seq<char>>) -> Seq<char> {
    match error {
        Some(s) => s,
        None => Seq::empty(),
    }
}

/// The text of the last error, empty where there is none.
pub fn take_last_error(error: &LastError) -> (result: String)
    ensures
        result@ == reported_error(error@),
{
    match error {
        LastError::Poisoned => String::new(),
        LastError::Text(s) => s.clone(),
    }
}

/// One if a service runs, and zero otherwise.
pub open spec fn running_code(slot: Slot) -> i32 {
    if slot is Running {
        1
    } else {
        0
    }
}

/// The port of the running service, and zero if none runs.
pub open spec fn port_of(slot: Slot) -> u16 {
    match slot {
        Slot::Running(port) => port,
        _ => 0,
    }
}

/// One if a service runs, and zero otherwise.
pub fn is_running(slot: &Slot) -> (result: i32)
    ensures
        result == running_code(*slot),
{
    match slot {
        Slot::Running(_) => 1,
        _ => 0,
    }
}

/// The port of the running service, and zero if none runs.
pub fn running_port(slot: &Slot) -> (result: u16)
    ensures
        result == port_of(*slot),
{
    match slot {
        Slot::Running(port) => *port,
        _ => 0,
    }
}

/// The loopback interface, 127.0.0.1.
pub const LOOPBACK: u32 = 0x7f00_0001;

/// An IPv4 address, as a number, and a port.
#[derive(Clone, Copy, Debug, PartialEq, Eq, Structural)]
pub struct Endpoint {
    pub host: u32,
    pub port: u16,
}

/// What to do when the service is to be started.
#[derive(Clone, Copy, Debug, PartialEq, Eq, Structural)]
pub enum StartStep {
    /// Answer with this code.
    Reply(i32),
    /// Bind this endpoint, start the service on it, and hand in what came of that.
    Bind(Endpoint),
}

/// What came of starting the service.
pub enum Launch {
    /// The port could not be bound.
    BindFailed(String),
    /// The socket could not be set up.
    SetupFailed(String),
    /// The thread of the service could not be started.
    SpawnFailed(String),
    /// The service runs.
    Spawned,
}

/// What to do when the service is to be started on `port`.
pub open spec fn start_step(slot: Slot, port: u16) -> StartStep {
    match slot {
        Slot::Poisoned => StartStep::Reply(3),
        Slot::Running(_) => StartStep::Reply(1),
        Slot::Stopped => StartStep::Bind(
            Endpoint {
                host: LOOPBACK,
                port: if port == 0 {
                    JNI_FALLBACK_PORT
                } else {
                    port
                },
            },
        ),
    }
}

/// The last error when the service is to be started.
pub open spec fn start_error(slot: Slot) -> Seq<char> {
    match slot {
        Slot::Poisoned => "state lock poisoned"@,
        Slot::Running(_) => "proxy already running"@,
        Slot::Stopped => Seq::empty(),
    }
}

/// Starts the service on `port` of the loopback interface, or on the fallback port
/// where that is zero. A service that runs already is left alone.
pub fn start(slot: &Slot, error: &mut LastError, port: u16) -> (result: StartStep)
    ensures
        result == start_step(*slot, port),
        final(error)@ == with_error(old(error)@, start_error(*slot)),
{
    clear_last_error(error);
    match slot {
        Slot::Poisoned => {
            set_last_error(error, "state lock poisoned".to_owned());
            StartStep::Reply(3)
        },
        Slot::Running(_) => {
            set_last_error(error, "proxy already running".to_owned());
            StartStep::Reply(1)
        },
        Slot::Stopped => {
            let port: u16 = if port == 0 {
                JNI_FALLBACK_PORT
            } else {
                port
            };
            StartStep::Bind(Endpoint { host: LOOPBACK, port })
        },
    }
}

/// The service after a start on `port`.
pub open spec fn slot_after_launch(slot: Slot, port: u16, launch: Launch) -> Slot {
    if launch is Spawned {
        Slot::Running(port)
    } else {
        slot
    }
}

/// The code for what came of a start: 0 for a running service, 2 for a socket that
/// failed, 3 for a thread that did.
pub open spec fn launch_code(launch: Launch) -> i32 {
    match launch {
        Launch::BindFailed(_) => 2,
        Launch::SetupFailed(_) => 2,
        Launch::SpawnFailed(_) => 3,
        Launch::Spawned => 0,
    }
}

/// The last error after a start.
pub open spec fn launch_error(error: Option<Seq<char>>, launch: Launch) -> Option<Seq<char>> {
    match launch {
        Launch::BindFailed(e) => with_error(error, e@),
        Launch::SetupFailed(e) => with_error(error, e@),
        Launch::SpawnFailed(e) => with_error(error, "启动线程失败: "@ + e@),
        Launch::Spawned => error,
    }
}

/// Takes in what came of starting a service on `port`, and gives the code to answer
/// with.
pub fn launched(slot: &mut Slot, error: &mut LastError, port: u16, launch: Launch) -> (result: i32)
    ensures
        result == launch_code(launch),
        *final(slot) == slot_after_launch(*old(slot), port, launch),
        final(error)@ == launch_error(old(error)@, launch),
{
    match launch {
        Launch::BindFailed(e) => {
            set_last_error(error, e);
            2
        },
        Launch::SetupFailed(e) => {
            set_last_error(error, e);
            2
        },
        Launch::SpawnFailed(e) => {
            set_last_error(error, prefixed("启动线程失败: ", e.as_str()));
            3
        },
        Launch::Spawned => {
            *slot = Slot::Running(port);
            0
        },
    }
}

/// What can go wrong in the thread of the service.
#[derive(Clone, Copy, Debug, PartialEq, Eq, Structural)]
pub enum Fault {
    /// The runtime could not be built.
    Runtime,
    /// The socket could not be handed to the runtime.
    Listener,
    /// Serving ended with an error.
    Serve,
}

/// What a fault is called.
pub open spec fn fault_prefix(fault: Fault) -> Seq<char> {
    match fault {
        Fault::Runtime => "构建 runtime 失败: "@,
        Fault::Listener => "转换 listener 失败: "@,
        Fault::Serve => "serve 结束: "@,
    }
}

/// Records a fault in the thread of the service.
pub fn record_fault(error: &mut LastError, fault: Fault, detail: &str)
    ensures
        final(error)@ == with_error(old(error)@, fault_prefix(fault) + detail@),
{
    let message = match fault {
        Fault::Runtime => prefixed("构建 runtime 失败: ", detail),
        Fault::Listener => prefixed("转换 listener 失败: ", detail),
        Fault::Serve => prefixed("serve 结束: ", detail),
    };
    set_last_error(error, message);
}

/// What to do when the service is to be stopped.
#[derive(Clone, Copy, Debug, PartialEq, Eq, Structural)]
pub enum StopStep {
    /// Answer with this code.
    Reply(i32),
    /// Tell the service on this port to shut down, and wait for it.
    Shutdown(u16),
}

/// What to do when the service is to be stopped.
pub open spec fn stop_step(slot: Slot) -> StopStep {
    match slot {
        Slot::Poisoned => StopStep::Reply(1),
        Slot::Stopped => StopStep::Reply(0),
        Slot::Running(port) => StopStep::Shutdown(port),
    }
}

/// The service once it is to be stopped.
pub open spec fn slot_after_stop(slot: Slot) -> Slot {
    match slot {
        Slot::Poisoned => Slot::Poisoned,
        _ => Slot::Stopped,
    }
}

/// The last error when the service is to be stopped.
pub open spec fn stop_error(slot: Slot, error: Option<Seq<char>>) -> Option<Seq<char>> {
    match slot {
        Slot::Poisoned => with_error(error, "state lock poisoned"@),
        Slot::Stopped => with_error(error, Seq::empty()),
        Slot::Running(_) => error,
    }
}

/// Stops the service. If none runs, there is nothing to do.
pub fn stop(slot: &mut Slot, error: &mut LastError) -> (result: StopStep)
    ensures
        result == stop_step(*old(slot)),
        *final(slot) == slot_after_stop(*old(slot)),
        final(error)@ == stop_error(*old(slot), old(error)@),
{
    match *slot {
        Slot::Poisoned => {
            set_last_error(error, "state lock poisoned".to_owned());
            StopStep::Reply(1)
        },
        Slot::Stopped => {
            clear_last_error(error);
            StopStep::Reply(0)
        },
        Slot::Running(port) => {
            *slot = Slot::Stopped;
            StopStep::Shutdown(port)
        },
    }
}

/// What to do while the service shuts down.
#[derive(Clone, Copy, Debug, PartialEq, Eq, Structural)]
pub enum WaitStep {
    /// Answer with this code.
    Reply(i32),
    /// Wait this many milliseconds and look again.
    Sleep(u64),
}

/// What to do about a service that was told to shut down `elapsed_millis` ago.
pub open spec fn wait_step(finished: bool, elapsed_millis: u64) -> WaitStep {
    if finished {
        WaitStep::Reply(0)
    } else if elapsed_millis >= SHUTDOWN_MILLIS {
        WaitStep::Reply(1)
    } else {
        WaitStep::Sleep(SHUTDOWN_POLL_MILLIS)
    }
}

/// The last error while the service shuts down.
pub open spec fn wait_error(
    finished: bool,
    elapsed_millis: u64,
    error: Option<Seq<char>>,
) -> Option<Seq<char>> {
    if finished {
        with_error(error, Seq::empty())
    } else if elapsed_millis >= SHUTDOWN_MILLIS {
        with_error(error, "shutdown timeout"@)
    } else {
        error
    }
}

/// Looks after a service that was told to shut down `elapsed_millis` ago: a thread that
/// has `finished` is stopped, and one that has not by the end of the time is given up.
pub fn await_shutdown(error: &mut LastError, finished: bool, elapsed_millis: u64) -> (result:
    WaitStep)
    ensures
        result == wait_step(finished, elapsed_millis),
        final(error)@ == wait_error(finished, elapsed_millis, old(error)@),
{
    if finished {
        clear_last_error(error);
        WaitStep::Reply(0)
    } else if elapsed_millis >= SHUTDOWN_MILLIS {
        set_last_error(error, "shutdown timeout".to_owned());
        WaitStep::Reply(1)
    } else {
        WaitStep::Sleep(SHUTDOWN_POLL_MILLIS)
    }
}

/// The port for a request from Java.
pub open spec fn port_for_java(port: i32) -> u16 {
    if 0 < port <= u16::MAX {
        port as u16
    } else {
        JNI_FALLBACK_PORT
    }
}

/// The port for a request from Java: the one that it names, where that is a port, and
/// the fallback port otherwise.
pub fn jni_port(port: i32) -> (result: u16)
    ensures
        result == port_for_java(port),
{
    if port <= 0 || port > 65535 {
        JNI_FALLBACK_PORT
    } else {
        port as u16
    }
}

/// The port for a start from the command line.
pub open spec fn port_for_argument(argument: Option<Seq<char>>) -> u16 {
    match argument {
        Some(s) => match text::u16_value(s) {
            Some(port) => port,
            None => DEFAULT_PORT,
        },
        None => DEFAULT_PORT,
    }
}

/// The port for a start from the command line: the one that the argument names, where
/// there is one and it is a number, and the default port otherwise.
pub fn argument_port(argument: Option<&str>) -> (result: u16)
    ensures
        result == port_for_argument(
            match argument {
                Some(s) => Some(s@),
                None => None,
            },
        ),
{
    match argument {
        Some(s) => match parse_u16(s) {
            Some(port) => port,
            None => DEFAULT_PORT,
        },
        None => DEFAULT_PORT,
    }
}

/// What to say about a start from the command line.
#[derive(Debug, PartialEq, Eq)]
pub struct Report {
    pub text: String,
    /// Whether the service runs and the process is to go on.
    pub running: bool,
    /// The code to exit with if it is not.
    pub exit_code: i32,
}

/// The text about a start on `port` that was answered with `code`.
pub open spec fn report_text(code: i32, port: u16, error: Seq<char>) -> Seq<char> {
    if code == 0 {
        "服务器启动在 127.0.0.1:"@ + text::decimal(port as int)
    } else if code == 1 {
        "服务已在运行"@
    } else if code == 2 {
        "端口绑定失败: "@ + error
    } else {
        "启动失败: "@ + error
    }
}

/// The code to exit with after a start that was answered with `code`.
pub open spec fn report_exit_code(code: i32) -> i32 {
    if code == 0 || code == 1 {
        0
    } else {
        1
    }
}

/// What to say about a start on `port` that was answered with `code`, where `error` is
/// the last error.
pub fn start_report(code: i32, port: u16, error: &str) -> (result: Report)
    ensures
        result.running == (code == 0),
        result.exit_code == report_exit_code(code),
        result.text@ == report_text(code, port, error@),
{
    if code == 0 {
        let mut text = "服务器启动在 127.0.0.1:".to_owned();
        push_natural(&mut text, port as u64);
        Report { text, running: true, exit_code: 0 }
    } else if code == 1 {
        Report { text: "服务已在运行".to_owned(), running: false, exit_code: 0 }
    } else if code == 2 {
        Report { text: prefixed("端口绑定失败: ", error), running: false, exit_code: 1 }
    } else {
        Report { text: prefixed("启动失败: ", error), running: false, exit_code: 1 }
    }
}

/// A message that was set as the last error is what is reported, until another one is
/// set. A poisoned lock takes no message and reports none.
pub proof fn law_last_error_is_reported(
    error: Option<Seq<char>>,
    message: Seq<char>,
    other: Seq<char>,
)
    ensures
        error is Some ==> reported_error(with_error(error, message)) == message,
        with_error(with_error(error, other), message) == with_error(error, message),
        error is None ==> reported_error(with_error(error, message)).len() == 0,
{
}

/// Every start is answered with its code: 0 for a service that runs then, 1 if one runs
/// already, 2 where the socket failed, 3 where the thread or the lock did. Each but the
/// first is reported as the last error, with the cause where there is one.
pub proof fn law_start_codes(slot: Slot, port: u16, launch: Launch, error: Option<Seq<char>>)
    requires
        error is Some,
    ensures
        slot is Running ==> start_step(slot, port) == StartStep::Reply(1) && start_error(slot)
            == "proxy already running"@,
        slot is Poisoned ==> start_step(slot, port) == StartStep::Reply(3) && start_error(slot)
            == "state lock poisoned"@,
        slot is Stopped ==> start_step(slot, port) is Bind && start_error(slot).len() == 0,
        launch_code(launch) == 0 <==> launch is Spawned,
        launch is Spawned ==> slot_after_launch(slot, port, launch) == Slot::Running(port)
            && launch_error(error, launch) == error,
        launch !is Spawned ==> slot_after_launch(slot, port, launch) == slot,
        launch matches Launch::BindFailed(e) ==> launch_code(launch) == 2 && launch_error(
            error,
            launch,
        ) == Some(e@),
        launch matches Launch::SetupFailed(e) ==> launch_code(launch) == 2 && launch_error(
            error,
            launch,
        ) == Some(e@),
        launch matches Launch::SpawnFailed(e) ==> launch_code(launch) == 3 && launch_error(
            error,
            launch,
        ) == Some("启动线程失败: "@ + e@),
{
}

/// A service that runs is told to stop and no longer counts as running. Where none runs
/// there is nothing to stop, which is a success, and the last error is forgotten.
pub proof fn law_stop_codes(slot: Slot, error: Option<Seq<char>>)
    requires
        error is Some,
    ensures
        slot matches Slot::Running(port) ==> stop_step(slot) == StopStep::Shutdown(port)
            && slot_after_stop(slot) == Slot::Stopped && stop_error(slot, error) == error,
        slot is Stopped ==> stop_step(slot) == StopStep::Reply(0) && slot_after_stop(slot) == slot
            && stop_error(slot, error) == Some(Seq::<char>::empty()),
        slot is Poisoned ==> stop_step(slot) == StopStep::Reply(1) && slot_after_stop(slot) == slot
            && stop_error(slot, error) == Some("state lock poisoned"@),
{
}

/// A service that shuts down is looked after every twentieth of a second, for five
/// seconds. If it has finished by then that is a success, whenever it is seen; if not, a
/// failure, which is reported.
pub proof fn law_shutdown_takes_five_seconds(
    finished: bool,
    elapsed_millis: u64,
    error: Option<Seq<char>>,
)
    requires
        error is Some,
    ensures
        finished ==> wait_step(finished, elapsed_millis) == WaitStep::Reply(0) && wait_error(
            finished,
            elapsed_millis,
            error,
        ) == Some(Seq::<char>::empty()),
        !finished && elapsed_millis >= 5000 ==> wait_step(finished, elapsed_millis)
            == WaitStep::Reply(1) && wait_error(finished, elapsed_millis, error) == Some(
            "shutdown timeout"@,
        ),
        !finished && elapsed_millis < 5000 ==> wait_step(finished, elapsed_millis)
            == WaitStep::Sleep(50) && wait_error(finished, elapsed_millis, error) == error,
{
}

/// One if and only if a service runs, and then the port that it runs on.
pub proof fn law_what_runs_is_reported(slot: Slot)
    ensures
        running_code(slot) == 0 || running_code(slot) == 1,
        running_code(slot) == 1 <==> slot is Running,
        slot matches Slot::Running(port) ==> port_of(slot) == port,
        slot !is Running ==> port_of(slot) == 0,
{
}

/// A port that a Java host or the command line names is taken, and 5575 where what they
/// name is no port.
pub proof fn law_named_ports_are_taken(port: i32, argument: Option<Seq<char>>)
    ensures
        0 < port <= 65535 ==> port_for_java(port) == port,
        port <= 0 || port > 65535 ==> port_for_java(port) == 5575,
        argument is None ==> port_for_argument(argument) == 5575,
        argument matches Some(s) ==> match text::u16_value(s) {
            Some(port) => port_for_argument(argument) == port,
            None => port_for_argument(argument) == 5575,
        },
{
}

/// A start from the command line says where the service runs, that it runs already, or
/// why it does not; only the last is a failure of the process.
pub proof fn law_start_is_reported(code: i32, port: u16, error: Seq<char>)
    ensures
        report_text(0, port, error) == "服务器启动在 127.0.0.1:"@ + text::decimal(port as int),
        report_text(1, port, error) == "服务已在运行"@,
        report_text(2, port, error) == "端口绑定失败: "@ + error,
        code < 0 || code > 2 ==> report_text(code, port, error) == "启动失败: "@ + error,
        report_exit_code(code) == 0 <==> code == 0 || code == 1,
        report_exit_code(code) == 0 || report_exit_code(code) == 1,
{
}

/// What can go wrong in the thread of the service is told apart by its name.
pub proof fn law_faults_are_named()
    ensures
        fault_prefix(Fault::Runtime) == "构建 runtime 失败: "@,
        fault_prefix(Fault::Listener) == "转换 listener 失败: "@,
        fault_prefix(Fault::Serve) == "serve 结束: "@,
{
}

/// Starting a stopped service binds the loopback interface and nothing else, on the port
/// that is asked for, or on the default port where that is zero. Once it runs it is
/// reported as running on that port, and a further start is refused and changes nothing.
pub proof fn law_start_makes_it_run(port: u16, again: u16)
    ensures
        start_step(Slot::Stopped, port) matches StartStep::Bind(endpoint) && {
            let running = slot_after_launch(Slot::Stopped, endpoint.port, Launch::Spawned);
            &&& endpoint.host == 0x7f00_0001
            &&& endpoint.port == if port == 0 {
                5575
            } else {
                port
            }
            &&& running_code(running) == 1
            &&& port_of(running) == endpoint.port
            &&& start_step(running, again) == StartStep::Reply(1)
            &&& start_error(running) == "proxy already running"@
        },
{
}

/// A start that fails leaves the service stopped, and answers with a code above zero.
pub proof fn law_failed_start_changes_nothing(port: u16, launch: Launch)
    requires
        launch !is Spawned,
    ensures
        slot_after_launch(Slot::Stopped, port, launch) == Slot::Stopped,
        launch_code(launch) > 0,
{
}

/// Once the service is told to stop it counts as stopped, and telling it again is
/// answered with success.
pub proof fn law_stop_is_idempotent(slot: Slot)
    requires
        slot !is Poisoned,
    ensures
        running_code(slot_after_stop(slot)) == 0,
        port_of(slot_after_stop(slot)) == 0,
        stop_step(slot_after_stop(slot)) == StopStep::Reply(0),
        slot_after_stop(slot_after_stop(slot)) == slot_after_stop(slot),
{
}

} // verus!

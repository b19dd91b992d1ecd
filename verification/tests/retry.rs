use proxy::retry::{Download, Next, Outcome};

#[test]
fn accepted_answers_are_read() {
    let mut d = Download::new(100, 199);
    assert_eq!(d.range_field(), "bytes=100-199");
    assert_eq!(d.observe(Outcome::Status(206)), Next::ReadBody);
    assert_eq!(d.observe(Outcome::Complete), Next::Finish);
    assert_eq!(d.observe(Outcome::Status(200)), Next::ReadBody);
    assert_eq!(d.failures, 0);
}

#[test]
fn third_failure_is_final() {
    let mut d = Download::new(0, 9);
    assert_eq!(d.observe(Outcome::Status(500)), Next::Retry(500));
    assert_eq!(d.observe(Outcome::Unreachable("refused".to_string())), Next::Retry(1000));
    assert_eq!(d.observe(Outcome::Status(206)), Next::ReadBody);
    assert_eq!(
        d.observe(Outcome::Unreadable("cut off".to_string())),
        Next::GiveUp("重试 3 次失败: 读取响应体失败: cut off".to_string())
    );
}

#[test]
fn errors_are_named() {
    let mut d = Download::new(0, 9);
    d.observe(Outcome::Status(404));
    d.observe(Outcome::Status(404));
    assert_eq!(
        d.observe(Outcome::Status(416)),
        Next::GiveUp("重试 3 次失败: 状态码: 416".to_string())
    );
    let mut d = Download::new(0, 9);
    d.observe(Outcome::Unreachable("a".to_string()));
    d.observe(Outcome::Unreachable("b".to_string()));
    assert_eq!(
        d.observe(Outcome::Unreachable("c".to_string())),
        Next::GiveUp("重试 3 次失败: c".to_string())
    );
}

#[test]
fn success_after_failures_is_kept() {
    let mut d = Download::new(0, 9);
    d.observe(Outcome::Status(503));
    d.observe(Outcome::Status(503));
    assert_eq!(d.observe(Outcome::Status(206)), Next::ReadBody);
    assert_eq!(d.observe(Outcome::Complete), Next::Finish);
    assert_eq!(d.failures, 2);
}

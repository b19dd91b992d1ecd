use proxy::extract_params;
use proxy::query::Params;
use proxy::reply::Refusal;

fn params(pairs: &[(&str, &str)]) -> Params {
    let mut params = Params::new();
    for (name, value) in pairs {
        params.insert(name.to_string(), value.to_string());
    }
    params
}

fn refusal(pairs: &[(&str, &str)]) -> Refusal {
    extract_params(&params(pairs)).err().unwrap()
}

#[test]
fn complete_parameters() {
    let p = params(&[("thread", "16"), ("chunkSize", "1024"), ("url", "http://x/y")]);
    assert_eq!(extract_params(&p), Ok((16, 1024, "http://x/y".to_string())));
    let p = params(&[("url", "u"), ("thread", "+0"), ("chunkSize", "-7"), ("other", "z")]);
    assert_eq!(extract_params(&p), Ok((0, -7, "u".to_string())));
}

#[test]
fn incomplete_parameters() {
    let expected = Refusal { status: 400, body: "参数不完整".to_string() };
    assert_eq!(refusal(&[]), expected);
    assert_eq!(refusal(&[("chunkSize", "1"), ("url", "u")]), expected);
    assert_eq!(refusal(&[("thread", "1"), ("url", "u")]), expected);
    assert_eq!(refusal(&[("thread", "1"), ("chunkSize", "1")]), expected);
    assert_eq!(refusal(&[("thread", ""), ("chunkSize", "1"), ("url", "u")]), expected);
    assert_eq!(refusal(&[("thread", "1"), ("chunkSize", ""), ("url", "u")]), expected);
    assert_eq!(refusal(&[("thread", "x"), ("chunkSize", "1"), ("url", "")]), expected);
}

#[test]
fn bad_integers() {
    let r = refusal(&[("thread", "-1"), ("chunkSize", "x"), ("url", "u")]);
    assert_eq!(r, Refusal { status: 400, body: "thread必须为整数".to_string() });
    let r = refusal(&[("thread", "1"), ("chunkSize", "1.5"), ("url", "u")]);
    assert_eq!(r, Refusal { status: 400, body: "chunkSize必须为整数".to_string() });
}

#[test]
fn later_value_counts() {
    let p = params(&[("thread", "1"), ("thread", "2"), ("chunkSize", "3"), ("url", "u")]);
    assert_eq!(extract_params(&p), Ok((2, 3, "u".to_string())));
    assert_eq!(p.get("thread"), Some(&"2".to_string()));
    assert_eq!(p.get("Thread"), None);
}

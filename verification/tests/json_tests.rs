use wotwot::json::{listing_lines, print_lines, read_usage, usage_from_output, Json, JsonNumber};

fn obj(members: Vec<(&str, Json)>) -> Json {
    Json::Object(members.into_iter().map(|(k, v)| (k.to_string(), v)).collect())
}

fn num(as_u64: Option<u64>, text: &str) -> Json {
    Json::Number(JsonNumber { as_u64, text: text.to_string() })
}

#[test]
fn listing_numbers_entry_texts() {
    let doc = Json::Array(vec![
        obj(vec![("id", Json::Str("x".into())), ("text", Json::Str("buy milk".into()))]),
        obj(vec![("text", num(Some(3), "3"))]),
        Json::Str("loose".into()),
    ]);
    assert_eq!(
        listing_lines("ignored", Some(&doc)),
        vec![" 1. buy milk".to_string(), " 2. ".to_string(), " 3. ".to_string()]
    );
}

#[test]
fn listing_of_non_array_is_the_body() {
    let doc = obj(vec![("ok", Json::Bool(true))]);
    assert_eq!(listing_lines("{\"ok\":true}", Some(&doc)), vec!["{\"ok\":true}".to_string()]);
    assert_eq!(listing_lines("not json", None), vec!["not json".to_string()]);
}

#[test]
fn usage_prefers_today() {
    let doc = obj(vec![
        ("daily", Json::Array(vec![obj(vec![("totalTokens", num(Some(5), "5"))])])),
        ("today", obj(vec![("totalCost", num(None, "1.25")), ("totalTokens", num(Some(1234), "1234"))])),
    ]);
    let r = read_usage(Some(&doc));
    assert_eq!(r.today_tokens, Some(1234));
    assert_eq!(r.today_cost, Some("1.25".to_string()));
}

#[test]
fn usage_falls_back_to_last_day() {
    let doc = obj(vec![(
        "daily",
        Json::Array(vec![
            obj(vec![("totalTokens", num(Some(5), "5"))]),
            obj(vec![("totalTokens", num(None, "-2")), ("totalCost", Json::Str("x".into()))]),
        ]),
    )]);
    let r = read_usage(Some(&doc));
    assert_eq!(r.today_tokens, None);
    assert_eq!(r.today_cost, None);
    let empty = obj(vec![("daily", Json::Array(vec![]))]);
    assert_eq!(read_usage(Some(&empty)).today_tokens, None);
    assert_eq!(read_usage(None).today_tokens, None);
}

#[test]
fn print_lines_reads_the_reply() {
    let body = r#"[{"id":"x","text":"buy milk"},{"id":"y","text":"call mum"},{"id":"z"}]"#;
    assert_eq!(print_lines(body), vec![" 1. buy milk", " 2. call mum", " 3. "]);
    assert_eq!(print_lines(r#"{"removed":true}"#), vec![r#"{"removed":true}"#]);
    assert_eq!(print_lines("oops"), vec!["oops"]);
}

#[test]
fn usage_from_ccusage_output() {
    let r = usage_from_output(br#"{"today":{"totalCost":1.5,"totalTokens":1234567}}"#);
    assert_eq!(r.today_tokens, Some(1234567));
    assert_eq!(r.today_cost.as_deref(), Some("1.5"));
    let r = usage_from_output(br#"{"daily":[{"totalTokens":1},{"totalTokens":42,"totalCost":0.25}]}"#);
    assert_eq!(r.today_tokens, Some(42));
    assert_eq!(r.today_cost.as_deref(), Some("0.25"));
    let r = usage_from_output(b"not json \xff");
    assert_eq!(r.today_tokens, None);
    assert_eq!(r.today_cost, None);
}

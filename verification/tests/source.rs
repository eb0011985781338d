use vless_collector::source::{
    config_lines, configs_of, extract_configs, gather_configs, parse_subscriptions, FetchResult,
};

fn list(items: &[&str]) -> Vec<String> {
    items.iter().map(|s| s.to_string()).collect()
}

#[allow(deprecated)]
fn encoded(text: &str) -> String {
    base64::encode(text.as_bytes())
}

#[test]
fn only_lines_with_the_prefix_are_entries() {
    let text = "vless://a@h:1?type=ws\nvmess://xyz\n\n# note\ntrojan://t\n vless://indented\nvless://b@h:2\n";
    assert_eq!(config_lines(text), list(&["vless://a@h:1?type=ws", "vless://b@h:2"]));
    assert_eq!(config_lines(""), Vec::<String>::new());
    assert_eq!(config_lines("VLESS://upper"), Vec::<String>::new());
}

#[test]
fn line_endings_are_not_part_of_an_entry() {
    assert_eq!(config_lines("vless://a\r\nvless://b\r\n"), list(&["vless://a", "vless://b"]));
    assert_eq!(config_lines("vless://a\nvless://b"), list(&["vless://a", "vless://b"]));
}

#[test]
fn an_encoded_body_is_decoded_first() {
    let body = "vless://a@h:1?type=ws\nss://other\nvless://b@h:2?security=tls\n";
    let expected = list(&["vless://a@h:1?type=ws", "vless://b@h:2?security=tls"]);
    assert_eq!(extract_configs(body), expected);
    assert_eq!(extract_configs(&encoded(body)), expected);
    assert_eq!(extract_configs(&encoded(&encoded(body))), expected);
    assert_eq!(extract_configs(&format!("{}\n", encoded(body))), expected);
}

#[test]
fn a_body_without_entries_gives_none() {
    assert_eq!(extract_configs("<html>not found</html>"), Vec::<String>::new());
    assert_eq!(extract_configs(&encoded("vmess://only-this-one-and-nothing-else")), Vec::<String>::new());
}

#[test]
fn blank_lines_and_comments_name_no_url() {
    let text = "# sources\nhttps://one.example/sub\n\n   \n#https://off.example\nhttps://two.example/sub\r\n\t\n";
    assert_eq!(parse_subscriptions(text), list(&["https://one.example/sub", "https://two.example/sub"]));
}

#[test]
fn a_line_is_kept_as_it_stands() {
    assert_eq!(parse_subscriptions("  https://a.example  \n #x\n"), list(&["  https://a.example  ", " #x"]));
}

#[test]
fn a_file_of_blanks_and_comments_stops_the_run() {
    let text = "# one\n\n   \n#two\n\t\n";
    let urls = parse_subscriptions(text);
    assert!(urls.is_empty());
    let results: Vec<FetchResult> = Vec::new();
    assert!(gather_configs(&results).is_empty());
    let pipeline = vless_collector::pipeline::Pipeline::with_default_size();
    match pipeline.run(&results) {
        Err(e) => assert_eq!(e, vless_collector::pipeline::PipelineError::EmptyAggregate),
        Ok(_) => panic!("a run without entries must fail"),
    }
}

#[test]
fn a_failure_contributes_nothing() {
    assert_eq!(configs_of(&FetchResult::Failed("timeout".to_string())), Vec::<String>::new());
    assert_eq!(configs_of(&FetchResult::Failed("vless://not-a-body".to_string())), Vec::<String>::new());
    assert_eq!(configs_of(&FetchResult::Body("vless://a\nx".to_string())), list(&["vless://a"]));
}

#[test]
fn entries_are_gathered_in_the_order_of_the_outcomes() {
    let results = vec![
        FetchResult::Body("vless://a\nvless://b\n".to_string()),
        FetchResult::Failed("Request error".to_string()),
        FetchResult::Body(encoded("vless://c@host:443?type=grpc\n")),
        FetchResult::Body("nothing here".to_string()),
        FetchResult::Body("vless://a\n".to_string()),
    ];
    assert_eq!(
        gather_configs(&results),
        list(&["vless://a", "vless://b", "vless://c@host:443?type=grpc", "vless://a"])
    );
}

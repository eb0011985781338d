use vless_collector::output::{
    all_configs_file, decimal_string, index_files, is_txt_file, raw_link, render_index,
    render_lines, shard_file, text_le, transport_file,
};
use vless_collector::transport::TransportType;

fn list(items: &[&str]) -> Vec<String> {
    items.iter().map(|s| s.to_string()).collect()
}

fn chars(s: &str) -> Vec<char> {
    s.chars().collect()
}

#[test]
fn file_names() {
    assert_eq!(all_configs_file(), "all_vless_config.txt");
    assert_eq!(transport_file(TransportType::WebSocket), "vless_ws.txt");
    assert_eq!(transport_file(TransportType::Grpc), "vless_grpc.txt");
    assert_eq!(transport_file(TransportType::Tcp), "vless_tcp.txt");
    assert_eq!(transport_file(TransportType::Tls), "vless_tls.txt");
    assert_eq!(transport_file(TransportType::XHttp), "vless_xhttp.txt");
    assert_eq!(shard_file(1), "vless_config_1.txt");
    assert_eq!(shard_file(12), "vless_config_12.txt");
    assert_eq!(shard_file(300), "vless_config_300.txt");
}

#[test]
fn numbers_in_decimal() {
    assert_eq!(decimal_string(0), "0");
    assert_eq!(decimal_string(7), "7");
    assert_eq!(decimal_string(10), "10");
    assert_eq!(decimal_string(1234567890), "1234567890");
    assert_eq!(decimal_string(usize::MAX), usize::MAX.to_string());
    for n in 0..1200 {
        assert_eq!(decimal_string(n), n.to_string());
    }
}

#[test]
fn one_entry_per_line() {
    assert_eq!(render_lines(&list(&["vless://a", "vless://b"])), "vless://a\nvless://b\n");
    assert_eq!(render_lines(&list(&["vless://a"])), "vless://a\n");
    assert_eq!(render_lines(&[]), "");
}

#[test]
fn links_of_the_index() {
    assert_eq!(
        raw_link("https://github.com/o/r", "vless_ws.txt"),
        "https://github.com/o/r/raw/main/configs/vless_ws.txt"
    );
    assert_eq!(
        render_index("https://github.com/o/r", &list(&["all_vless_config.txt", "vless_ws.txt"])),
        "- [all_vless_config.txt](https://github.com/o/r/raw/main/configs/all_vless_config.txt)\n- [vless_ws.txt](https://github.com/o/r/raw/main/configs/vless_ws.txt)\n"
    );
    assert_eq!(render_index("https://github.com/o/r", &[]), "");
}

#[test]
fn files_of_entries_are_known_by_their_extension() {
    assert!(is_txt_file(&chars("vless_ws.txt")));
    assert!(is_txt_file(&chars("a.txt")));
    assert!(is_txt_file(&chars("a.b.txt")));
    assert!(!is_txt_file(&chars(".txt")));
    assert!(!is_txt_file(&chars("txt")));
    assert!(!is_txt_file(&chars("a.TXT")));
    assert!(!is_txt_file(&chars("a.txt.bak")));
    assert!(!is_txt_file(&chars("README.md")));
    assert!(!is_txt_file(&chars("")));
}

#[test]
fn the_order_of_a_dictionary() {
    assert!(text_le(&chars(""), &chars("")));
    assert!(text_le(&chars(""), &chars("a")));
    assert!(!text_le(&chars("a"), &chars("")));
    assert!(text_le(&chars("a"), &chars("a")));
    assert!(text_le(&chars("a"), &chars("ab")));
    assert!(!text_le(&chars("ab"), &chars("a")));
    assert!(text_le(&chars("ab"), &chars("b")));
    assert!(text_le(&chars("B"), &chars("a")));
    assert!(text_le(&chars("vless_config_10.txt"), &chars("vless_config_2.txt")));
    assert!(!text_le(&chars("vless_ws.txt"), &chars("vless_tls.txt")));
}

#[test]
fn the_order_is_that_of_strings() {
    let words = ["", "a", "ab", "b", "B", "\u{e9}", "e", "z\u{1f600}", "z\u{ffff}", "vless_1.txt", "vless_10.txt"];
    for a in words {
        for b in words {
            assert_eq!(text_le(&chars(a), &chars(b)), a <= b);
        }
    }
}

#[test]
fn the_index_lists_the_txt_files_sorted() {
    let names = list(&[
        "vless_ws.txt",
        "notes.md",
        "vless_config_2.txt",
        "all_vless_config.txt",
        ".txt",
        "vless_config_10.txt",
        "vless_config_1.txt",
        "vless_tcp.txt",
        "archive.txt.gz",
    ]);
    assert_eq!(
        index_files(&names),
        list(&[
            "all_vless_config.txt",
            "vless_config_1.txt",
            "vless_config_10.txt",
            "vless_config_2.txt",
            "vless_tcp.txt",
            "vless_ws.txt",
        ])
    );
    assert_eq!(index_files(&Vec::new()), Vec::<String>::new());
    assert_eq!(index_files(&list(&["b.txt", "a.txt", "b.txt"])), list(&["a.txt", "b.txt", "b.txt"]));
}

#[test]
fn the_index_is_sorted_as_the_standard_library_sorts() {
    let names: Vec<String> = (0..60).map(|i| format!("f{}.txt", (i * 37) % 61)).collect();
    let mut expected = names.clone();
    expected.sort();
    assert_eq!(index_files(&names), expected);
}

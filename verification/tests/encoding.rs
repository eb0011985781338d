use vless_collector::encoding::{
    accept_layer, all_layer_chars, ascii_bytes, decode_base64, is_base64_char, is_layer_space,
    layer_candidate, starts_plain, trim_bounds, unwrap_layer, MAX_LAYERS, MIN_ENCODED_LEN,
};

fn chars(s: &str) -> Vec<char> {
    s.chars().collect()
}

#[allow(deprecated)]
fn wrap(text: &str, layers: usize) -> String {
    let mut out = text.to_string();
    for _ in 0..layers {
        out = base64::encode(out.as_bytes());
    }
    out
}

#[test]
fn one_layer_decodes_to_the_marker_and_halts() {
    let decoded = decode_base64("dmxlc3M6Ly9leGFtcGxl");
    assert_eq!(decoded, "vless://example");
    assert_eq!(unwrap_layer(&decoded), None);
}

#[test]
fn one_pass_gives_the_inner_text() {
    assert_eq!(unwrap_layer("dmxlc3M6Ly9leGFtcGxl"), Some("vless://example".to_string()));
}

#[test]
fn plain_text_is_returned_unchanged() {
    let vless = "vless://uuid@host:443?type=ws&security=tls#name";
    assert_eq!(decode_base64(vless), vless);
    let vmess = "vmess://AAAAAAAAAAAAAAAAAAAAAAAAAAAAAAAA";
    assert_eq!(decode_base64(vmess), vmess);
}

#[test]
fn a_marker_wins_over_a_text_of_alphabet_characters() {
    // Every character after the marker is in the alphabet, yet nothing is decoded.
    let text = "vmess://dmxlc3M6Ly9leGFtcGxl";
    assert_eq!(unwrap_layer(text), None);
    assert_eq!(decode_base64(text), text);
}

#[test]
fn a_short_text_is_returned_unchanged() {
    // 16 characters of valid base64, below the threshold of 20.
    assert_eq!(decode_base64("dmxlc3M6Ly9hYmM="), "dmxlc3M6Ly9hYmM=");
    assert_eq!(decode_base64(""), "");
}

#[test]
fn the_threshold_is_twenty_characters() {
    assert_eq!(MIN_ENCODED_LEN, 20);
    // 19 characters: too short. With one more it decodes.
    let nineteen = "dmxlc3M6Ly9leGFtcGx";
    assert_eq!(nineteen.len(), 19);
    assert_eq!(layer_candidate(&chars(nineteen)), None);
    let twenty = "dmxlc3M6Ly9leGFtcGxl";
    assert_eq!(twenty.len(), 20);
    assert_eq!(layer_candidate(&chars(twenty)), Some(twenty.as_bytes().to_vec()));
}

#[test]
fn a_character_outside_the_alphabet_stops_the_pass() {
    let text = "dmxlc3M6Ly9leGFtcGxl-dmxlc3M6";
    assert_eq!(decode_base64(text), text);
    let unicode = "dmxlc3M6Ly9leGFtcGxl\u{e9}dmxl";
    assert_eq!(decode_base64(unicode), unicode);
    // A vertical tab is white space, but none that a layer may hold.
    let tab = "dmxlc3M6Ly9leGFtcGxl\u{b}";
    assert_eq!(decode_base64(tab), tab);
}

#[test]
fn spaces_around_a_layer_are_trimmed() {
    assert_eq!(decode_base64("  dmxlc3M6Ly9leGFtcGxl\r\n"), "vless://example");
    assert_eq!(decode_base64("\t\x0Cdmxlc3M6Ly9leGFtcGxl \n"), "vless://example");
}

#[test]
fn spaces_inside_a_layer_stop_the_pass() {
    let text = "dmxlc3M6Ly9\nleGFtcGxl";
    assert_eq!(decode_base64(text), text);
}

#[test]
fn a_text_that_does_not_decode_is_returned_unchanged() {
    // 21 characters: no length that base64 gives.
    let text = "dmxlc3M6Ly9leGFtcGxlA";
    assert_eq!(decode_base64(text), text);
    // Padding in the middle.
    let padded = "dmxlc3M6Ly9=leGFtcGxl";
    assert_eq!(decode_base64(padded), padded);
}

#[test]
fn bytes_that_are_no_text_are_not_adopted() {
    // Twenty times '/': fifteen bytes 0xFF, which are no UTF-8.
    let text = "////////////////////";
    assert_eq!(unwrap_layer(text), None);
    assert_eq!(decode_base64(text), text);
}

#[test]
fn two_layers_are_removed() {
    let plain = "vless://uuid@example.com:443?type=grpc";
    assert_eq!(decode_base64(&wrap(plain, 2)), plain);
}

#[test]
fn five_layers_are_removed() {
    let plain = "vless://uuid@example.com:443?type=grpc";
    assert_eq!(MAX_LAYERS, 5);
    assert_eq!(decode_base64(&wrap(plain, 5)), plain);
}

#[test]
fn a_sixth_layer_is_left_in_place() {
    let plain = "vless://uuid@example.com:443?type=grpc";
    let once = decode_base64(&wrap(plain, 6));
    assert_eq!(once, wrap(plain, 1));
    // Such a text is not settled: normalizing again removes the last layer.
    assert_eq!(decode_base64(&once), plain);
}

#[test]
fn normalizing_twice_changes_nothing_up_to_five_layers() {
    let plain = "some text that is no entry at all, only prose";
    for layers in 0..=5 {
        let once = decode_base64(&wrap(plain, layers));
        assert_eq!(decode_base64(&once), once);
    }
}

#[test]
fn a_body_of_several_lines_is_decoded_whole() {
    let body = "vless://a@h:1?type=ws\nvless://b@h:2?security=tls\n";
    assert_eq!(decode_base64(&wrap(body, 1)), body);
}

#[test]
fn a_decoded_text_equal_to_the_current_one_is_not_adopted() {
    let text = chars("dmxlc3M6Ly9leGFtcGxl");
    assert_eq!(accept_layer(&text, b"dmxlc3M6Ly9leGFtcGxl".to_vec()), None);
    assert_eq!(accept_layer(&text, b"other".to_vec()), Some("other".to_string()));
}

#[test]
fn decoded_bytes_are_read_as_utf8() {
    let text = chars("irrelevant");
    assert_eq!(accept_layer(&text, "h\u{e9}llo \u{1f600}".as_bytes().to_vec()), Some("h\u{e9}llo \u{1f600}".to_string()));
    assert_eq!(accept_layer(&text, vec![0x68, 0xC3]), None);
    assert_eq!(accept_layer(&text, vec![0xED, 0xA0, 0x80]), None);
    assert_eq!(accept_layer(&text, Vec::new()), Some(String::new()));
}

#[test]
fn the_candidate_is_the_trimmed_text_as_bytes() {
    let text = chars(" \tQUJDREVGR0hJSktMTU5PUFFSU1Q=\r\n");
    assert_eq!(layer_candidate(&text), Some(b"QUJDREVGR0hJSktMTU5PUFFSU1Q=".to_vec()));
    assert_eq!(layer_candidate(&chars("vless://QUJDREVGR0hJSktMTU5P")), None);
    assert_eq!(layer_candidate(&chars("QUJDREVGR0hJSktMTU5PUFFSU1Q!")), None);
}

#[test]
fn trim_bounds_cut_spaces_at_both_ends_only() {
    assert_eq!(trim_bounds(&chars("  a b \n")), (2, 5));
    assert_eq!(trim_bounds(&chars("ab")), (0, 2));
    assert_eq!(trim_bounds(&chars("")), (0, 0));
    let (start, end) = trim_bounds(&chars(" \r\n\t"));
    assert_eq!(start, end);
}

#[test]
fn alphabet_membership() {
    for c in "ABCXYZabcxyz0189+/=".chars() {
        assert!(is_base64_char(c));
    }
    for c in "-_ \n.:?&@[`{".chars() {
        assert!(!is_base64_char(c));
    }
    assert!(!is_base64_char('\u{e9}'));
}

#[test]
fn layer_spaces_are_the_five_ascii_ones() {
    for c in [' ', '\t', '\n', '\x0C', '\r'] {
        assert!(is_layer_space(c));
    }
    for c in ['\u{b}', '\u{a0}', 'a', '\u{2028}'] {
        assert!(!is_layer_space(c));
    }
    assert!(all_layer_chars(&chars("AZaz09+/= \t\r\n")));
    assert!(!all_layer_chars(&chars("AZaz09+/=_")));
    assert!(all_layer_chars(&chars("")));
}

#[test]
fn plain_text_is_known_by_its_marker() {
    assert!(starts_plain(&chars("vless://x")));
    assert!(starts_plain(&chars("vmess://")));
    assert!(!starts_plain(&chars("vless:/")));
    assert!(!starts_plain(&chars("VLESS://x")));
    assert!(!starts_plain(&chars(" vless://x")));
    assert!(!starts_plain(&chars("trojan://x")));
}

#[test]
fn ascii_text_as_bytes() {
    assert_eq!(ascii_bytes(&chars("Az09+/=")), b"Az09+/=".to_vec());
    assert_eq!(ascii_bytes(&chars("")), Vec::<u8>::new());
}

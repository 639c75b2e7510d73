use hologram_ai::stream::{drain_complete_utf8, CallbackSink, InvalidUtf8};

#[test]
fn utf8_delta_boundary_never_splits_a_character_and_accumulates_exactly() {
    // 1-, 2-, 3- and 4-byte characters, adjacent in every order.
    let text = "a\u{00E9}\u{2192}\u{1F980}x\u{1F980}\u{2192}\u{00E9}b";
    let bytes = text.as_bytes();
    let mut pending = Vec::new();
    let mut emitted = String::new();
    for b in bytes {
        let delta =
            drain_complete_utf8(&mut pending, std::slice::from_ref(b)).expect("valid stream");
        emitted.push_str(&delta);
        assert!(
            text.starts_with(&emitted),
            "emitted a byte sequence the text does not begin with: {emitted:?}"
        );
    }
    assert_eq!(emitted, text, "accumulation equals concatenation");
    assert!(pending.is_empty(), "a finished stream holds nothing back");
}

#[test]
fn utf8_delta_boundary_holds_an_incomplete_tail_across_writes() {
    let crab = "\u{1F980}".as_bytes(); // 4 bytes
    let mut pending = Vec::new();
    let first = drain_complete_utf8(&mut pending, &crab[..2]).expect("incomplete, not invalid");
    assert_eq!(first, "", "a half-written character must not surface");
    assert_eq!(pending, &crab[..2], "the partial bytes are held back");
    let rest = drain_complete_utf8(&mut pending, &crab[2..]).expect("now complete");
    assert_eq!(rest, "\u{1F980}", "completion emits the whole character");
    assert!(pending.is_empty());
}

#[test]
fn utf8_delta_boundary_rejects_invalid_bytes_loudly() {
    let mut pending = Vec::new();
    drain_complete_utf8(&mut pending, &[b'o', b'k', 0xFF])
        .expect_err("0xFF can never begin a UTF-8 sequence");
}

/// The boundary agrees with the standard library on every beginning of two or
/// three bytes.
#[test]
fn the_boundary_is_the_standard_library_s() {
    for a in 0x80u8..=0xFF {
        for b in [0x00u8, 0x7F, 0x80, 0x8F, 0x90, 0x9F, 0xA0, 0xBF, 0xC0, 0xFF] {
            for tail in [vec![a], vec![a, b], vec![a, b, 0x80], vec![a, b, 0x7F]] {
                let mut stream = b"ok".to_vec();
                stream.extend_from_slice(&tail);
                let mut pending = Vec::new();
                let got = drain_complete_utf8(&mut pending, &stream);
                match std::str::from_utf8(&stream) {
                    Ok(text) => assert_eq!(got, Ok(text.to_string())),
                    Err(e) if e.error_len().is_none() => {
                        let (head, rest) = stream.split_at(e.valid_up_to());
                        assert_eq!(got, Ok(String::from_utf8(head.to_vec()).unwrap()));
                        assert_eq!(pending, rest);
                    }
                    Err(_) => {
                        assert_eq!(got, Err(InvalidUtf8));
                        assert_eq!(pending, stream);
                    }
                }
            }
        }
    }
}

#[test]
fn a_sink_hands_out_deltas_and_keeps_the_whole() {
    let text = "caf\u{00E9}";
    let (head, tail) = text.as_bytes().split_at(4);
    let mut sink = CallbackSink::new(true);
    assert_eq!(sink.write(head), Ok("caf".to_string()));
    assert_eq!(sink.write(tail), Ok("\u{00E9}".to_string()));
    assert_eq!(sink.finish(), Ok(text.to_string()));
}

#[test]
fn a_sink_without_a_listener_only_accumulates() {
    let mut sink = CallbackSink::new(false);
    assert_eq!(sink.write(&[0xFF]), Ok(String::new()));
    assert_eq!(sink.finish(), Err(InvalidUtf8));
    let mut sink = CallbackSink::new(true);
    assert_eq!(sink.write(&[0xFF]), Err(InvalidUtf8));
}

#[test]
fn the_text_does_not_show_its_cuts() {
    let text = "d\u{00E9}j\u{00E0} \u{1F600}!";
    for width in 1..=text.len() {
        let mut sink = CallbackSink::new(true);
        let mut sent = String::new();
        for piece in text.as_bytes().chunks(width) {
            sent.push_str(&sink.write(piece).expect("a text so far"));
        }
        assert_eq!(sent, text);
        assert_eq!(sink.finish(), Ok(text.to_string()));
    }
}

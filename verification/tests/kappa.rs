use hologram_ai::bytes::{copy_bytes, push_bytes, push_le, read_le, slice_range};
use hologram_ai::kappa::{
    compute_kappa, kappa_digest, kappa_file_name, kappa_of, DigestError, KappaHasher,
};
use hologram_ai::kappa_map::{parse_kappa_map, KappaRequirement, LineFault, MapError};
use hologram_ai::weights::{bytes_before, sort_weights_section, WeightsError};

const EMPTY: &str = "blake3:af1349b9f5f9a1a6a0404dea36dcc9499bcb25c9adc112b7cc9a93cae41f3262";

#[test]
fn kappa_digest_is_the_content_fingerprint_and_mints_the_same_label() {
    for body in [
        &b""[..],
        b"w",
        b"a-larger-weight-body-0123456789",
        &[0xABu8; 257],
    ] {
        let kappa = kappa_of(body);
        let digest = kappa_digest(&kappa).expect("well-formed κ decodes");
        let expected = blake3::hash(body);
        assert_eq!(
            &digest,
            expected.as_bytes(),
            "kappa_digest equals the weight fingerprint"
        );
        assert_eq!(
            format!("blake3:{}", blake3::Hash::from(digest).to_hex()),
            kappa,
            "the paged slot's label equals the resident path's address"
        );
    }
}

#[test]
fn kappa_digest_rejects_malformed_labels() {
    assert!(kappa_digest("sha256:abcd").is_err(), "wrong scheme");
    assert!(kappa_digest("blake3:xyz").is_err(), "short/non-hex digest");
    assert!(
        kappa_digest(&format!("blake3:{}", "g".repeat(64))).is_err(),
        "non-hex digits"
    );
}

#[test]
fn each_malformed_label_has_its_own_error() {
    assert_eq!(kappa_digest("sha256:abcd"), Err(DigestError::Scheme));
    assert_eq!(kappa_digest("blake3:xyz"), Err(DigestError::Length(3)));
    assert_eq!(
        kappa_digest(&format!("blake3:{}", "g".repeat(64))),
        Err(DigestError::NotHex)
    );
    assert!(kappa_digest(&EMPTY.to_uppercase()).is_err());
    // Every pair is two hex digits: a sign in front of one is no number.
    assert_eq!(
        kappa_digest(&format!("blake3:{}", "+f".repeat(32))),
        Err(DigestError::NotHex)
    );
    assert_eq!(
        kappa_digest(&format!("blake3:{}+f", "0".repeat(62))),
        Err(DigestError::NotHex)
    );
    let upper = format!("blake3:{}", EMPTY[7..].to_uppercase());
    assert_eq!(kappa_digest(&upper), kappa_digest(EMPTY));
}

#[test]
fn kappa_of_is_prefixed_blake3_hex() {
    let k = kappa_of(b"hologram");
    assert!(k.starts_with("blake3:"));
    assert_eq!(k.len(), 7 + 64);
    assert_eq!(k, kappa_of(b"hologram"), "κ is deterministic");
    assert_ne!(k, kappa_of(b"holospace"), "κ separates content");
}

#[test]
fn the_label_of_nothing_is_the_known_digest() {
    assert_eq!(kappa_of(b""), EMPTY);
    assert_eq!(compute_kappa(b""), EMPTY);
    assert_eq!(KappaHasher::new().finalize(), EMPTY);
}

#[test]
fn compute_kappa_works() {
    let bytes = b"hello world";
    let expected = format!("blake3:{}", blake3::hash(bytes).to_hex());
    let result = compute_kappa(bytes);
    assert_eq!(result, expected);
}

#[test]
fn a_label_may_be_minted_in_pieces() {
    let mut hasher = KappaHasher::default();
    hasher.update(b"hello ");
    hasher.update(b"");
    hasher.update(b"world");
    assert_eq!(hasher.finalize(), kappa_of(b"hello world"));
}

#[test]
fn file_names_are_portable() {
    let name = kappa_file_name(EMPTY);
    assert_eq!(name, format!("{}.bin", EMPTY.replace(':', "-")));
    assert!(!name.contains(':'));
    assert_eq!(kappa_file_name("sha256:ab"), "sha256-ab.bin");
    assert_ne!(kappa_file_name("sha256:ab"), kappa_file_name("blake3:ab"));
}

#[test]
fn sort_weights_section_normalizes_any_order() {
    let encode = |entries: &[([u8; 32], &[u8])]| {
        let mut out = Vec::new();
        out.extend_from_slice(&(entries.len() as u32).to_le_bytes());
        for (fp, b) in entries {
            out.extend_from_slice(fp);
            out.extend_from_slice(&(b.len() as u64).to_le_bytes());
            out.extend_from_slice(b);
        }
        out
    };
    let a = ([0xAAu8; 32], &b"first-weight"[..]);
    let b = ([0x11u8; 32], &b"second"[..]);
    let ab = sort_weights_section(&encode(&[a, b])).expect("sort ab");
    let ba = sort_weights_section(&encode(&[b, a])).expect("sort ba");
    assert_eq!(ab, ba, "canonical Weights bytes are order-independent");
    assert_eq!(&ab[4..36], &[0x11u8; 32], "entries sorted by fingerprint");
    assert_eq!(ab, encode(&[b, a]), "the weights themselves are kept");
    assert_eq!(
        sort_weights_section(&ab),
        Ok(ab.clone()),
        "canonicalization is idempotent"
    );
}

#[test]
fn truncated_weights_are_refused_where_they_break() {
    assert_eq!(sort_weights_section(&[1, 0, 0]), Err(WeightsError::Count));
    let mut section = vec![1, 0, 0, 0];
    section.extend_from_slice(&[7; 31]);
    assert_eq!(
        sort_weights_section(&section),
        Err(WeightsError::Fingerprint)
    );
    section.push(7);
    section.extend_from_slice(&[2, 0, 0]);
    assert_eq!(sort_weights_section(&section), Err(WeightsError::Length));
    section.extend_from_slice(&[0, 0, 0, 0, 0]);
    section.push(9);
    assert_eq!(sort_weights_section(&section), Err(WeightsError::Body));
    section.push(9);
    assert_eq!(sort_weights_section(&section), Ok(section.clone()));
    assert_eq!(sort_weights_section(&[0, 0, 0, 0]), Ok(vec![0, 0, 0, 0]));
}

#[test]
fn fingerprints_are_ordered_byte_by_byte() {
    assert!(bytes_before(&[1, 2], &[1, 3]));
    assert!(bytes_before(&[1], &[1, 0]));
    assert!(!bytes_before(&[2], &[1, 9]));
    assert!(!bytes_before(&[1, 2], &[1, 2]));
}

#[test]
fn parse_kappa_map_round_trips() {
    let text = format!(
        "ConstantId(0):{}\nConstantId(7):{}\n",
        kappa_of(b"a"),
        kappa_of(b"b")
    );
    let reqs = parse_kappa_map(text.as_bytes()).expect("well-formed map parses");
    assert_eq!(reqs.len(), 2);
    assert_eq!(reqs[0].constant, 0);
    assert_eq!(reqs[1].constant, 7);
    assert_eq!(reqs[0].kappa, kappa_of(b"a"));
    assert_eq!(reqs[1].range, None);
    let spaced = text.replace('\n', "\n \t\r\n\n");
    let again = parse_kappa_map(format!("\n{spaced}").as_bytes()).expect("blank lines");
    assert_eq!(again, reqs, "blank lines change nothing");
    assert!(
        parse_kappa_map(b"garbage-line").is_err(),
        "malformed lines fail loud"
    );
}

#[test]
fn a_binding_may_carry_a_byte_range() {
    let reqs = parse_kappa_map(b"ConstantId(3):blake3:ab@48+16\n\n").expect("a ranged line");
    assert_eq!(
        reqs,
        vec![KappaRequirement {
            constant: 3,
            kappa: "blake3:ab".to_string(),
            range: Some((48, 16)),
        }]
    );
}

fn fault(line: &str) -> LineFault {
    match parse_kappa_map(line.as_bytes()) {
        Err(MapError::Line { fault, line: named }) => {
            assert_eq!(named, line, "the line is named");
            fault
        }
        other => panic!("{line} gave {other:?}"),
    }
}

#[test]
fn each_malformed_line_has_its_own_fault() {
    assert_eq!(fault("garbage-line"), LineFault::Shape);
    assert_eq!(fault("ConstantId(1)blake3:ab"), LineFault::Shape);
    assert_eq!(fault("ConstantId(x):blake3:ab"), LineFault::Constant);
    assert_eq!(fault("ConstantId(4294967296):blake3:ab"), LineFault::Constant);
    assert_eq!(fault("ConstantId(1):blake3:ab@5"), LineFault::Range);
    assert_eq!(fault("ConstantId(1):blake3:ab@x+1"), LineFault::Offset);
    assert_eq!(fault("ConstantId(1):blake3:ab@1+x"), LineFault::Length);
    assert_eq!(parse_kappa_map(&[0xFF]), Err(MapError::NotUtf8));
    assert_eq!(parse_kappa_map(b""), Ok(vec![]));
}

#[test]
fn numbers_are_written_little_end_first() {
    let mut out = vec![9];
    push_le(&mut out, 0x0102, 4);
    assert_eq!(out, vec![9, 2, 1, 0, 0]);
    assert_eq!(read_le(&out[1..]), 0x0102);
    push_bytes(&mut out, b"ab");
    assert_eq!(copy_bytes(&out), vec![9, 2, 1, 0, 0, b'a', b'b']);
}

#[test]
fn a_range_stays_inside_its_content() {
    assert_eq!(slice_range(b"abcd", 1, 2), Some(b"bc".to_vec()));
    assert_eq!(slice_range(b"abcd", 4, 0), Some(vec![]));
    assert_eq!(slice_range(b"abcd", 3, 2), None);
    assert_eq!(slice_range(b"abcd", u64::MAX, 2), None);
}

use docker_source_checksum::combine::combine_digests;
use docker_source_checksum::encode::encode_digest;
use docker_source_checksum::{hash, Opts};
use std::path::PathBuf;

const BLAKE2B_ABC: &str = "ba80a53f981c4d0d6a2797b69f12f6e94c212f14685ac4b74b12bb6fdbffa2d1\
                           7d87c5392aab792dc252d5de4533cc9518d38aa8dbf1925ab92386edd4009923";

fn opts(hex: bool, extra_string: &[&str]) -> Opts {
    Opts {
        hex,
        ignore_path: Vec::new(),
        extra_path: Vec::new(),
        extra_string: extra_string.iter().map(|s| s.to_string()).collect(),
        dockerfile_path: None,
        context_path: PathBuf::from("."),
    }
}

fn digest_of(content: &[u8]) -> Vec<u8> {
    combine_digests(vec![content.to_vec()])
}

#[test]
fn checksum_of_a_file_alone_is_the_hash_of_its_bytes() {
    assert_eq!(hash("abc", Vec::new(), &opts(true, &[])), BLAKE2B_ABC);
}

#[test]
fn checksum_joins_digests_strings_and_file_in_byte_order() {
    let by_hand = combine_digests(vec![
        b"FROM x".to_vec(),
        vec![0xff, 0x00],
        b"ARG=1".to_vec(),
        vec![0x00, 0xff],
    ]);
    let checksum = hash(
        "FROM x",
        vec![vec![0xff, 0x00], vec![0x00, 0xff]],
        &opts(true, &["ARG=1"]),
    );
    assert_eq!(checksum, hex::encode(by_hand));
    assert_eq!(hash("bc", Vec::new(), &opts(true, &["a"])), BLAKE2B_ABC);
    assert_eq!(hash("a", vec![b"b".to_vec()], &opts(true, &["c"])), BLAKE2B_ABC);
}

#[test]
fn checksum_counts_the_bytes_of_strings_not_their_characters() {
    let by_hand = combine_digests(vec!["é\n".as_bytes().to_vec(), "ü".as_bytes().to_vec()]);
    assert_eq!(hash("é\n", Vec::new(), &opts(true, &["ü"])), hex::encode(by_hand));
}

#[test]
fn checksum_is_the_same_each_time() {
    let digests = vec![digest_of(b"print(1)")];
    let first = hash("COPY app.py /app/", digests.clone(), &opts(false, &[]));
    let second = hash("COPY app.py /app/", digests, &opts(false, &[]));
    assert_eq!(first, second);
    assert_eq!(first.len(), 86);
}

#[test]
fn checksum_follows_the_content_of_a_dependency() {
    let before = hash("COPY app.py /app/", vec![digest_of(b"print(1)")], &opts(false, &[]));
    let after = hash("COPY app.py /app/", vec![digest_of(b"print(2)")], &opts(false, &[]));
    assert_ne!(before, after);
}

#[test]
fn checksum_follows_the_instruction_file_and_the_strings() {
    let digests = vec![digest_of(b"x")];
    let base = hash("COPY a /a", digests.clone(), &opts(true, &["v=1"]));
    assert_ne!(base, hash("COPY a /b", digests.clone(), &opts(true, &["v=1"])));
    assert_ne!(base, hash("COPY a /a", digests.clone(), &opts(true, &["v=2"])));
    assert_ne!(base, hash("COPY a /a", digests.clone(), &opts(true, &[])));
    assert_ne!(base, hash("COPY a /a", Vec::new(), &opts(true, &["v=1"])));
}

#[test]
fn checksum_ignores_the_order_of_discovery() {
    let a = digest_of(b"a");
    let b = digest_of(b"b");
    let c = digest_of(b"c");
    let one = hash("COPY a b c /x", vec![a.clone(), b.clone(), c.clone()], &opts(true, &["s", "t"]));
    let two = hash("COPY a b c /x", vec![c, a, b], &opts(true, &["t", "s"]));
    assert_eq!(one, two);
}

#[test]
fn checksum_in_both_encodings_is_one_digest() {
    let digests = vec![digest_of(b"print(1)")];
    let as_hex = hash("COPY app.py /app/", digests.clone(), &opts(true, &["x"]));
    let as_base64 = hash("COPY app.py /app/", digests, &opts(false, &["x"]));
    assert_eq!(as_hex.len(), 128);
    assert_eq!(as_base64.len(), 86);
    let from_hex = hex::decode(&as_hex).unwrap();
    let from_base64 = base64::decode_config(&as_base64, base64::URL_SAFE_NO_PAD).unwrap();
    assert_eq!(from_hex, from_base64);
    assert_eq!(encode_digest(&from_hex, false), as_base64);
}

#[test]
fn checksum_reads_only_strings_and_encoding_of_the_options() {
    let mut other = opts(true, &["s"]);
    other.ignore_path = vec![PathBuf::from("target")];
    other.extra_path = vec![PathBuf::from("README.md")];
    other.dockerfile_path = Some(PathBuf::from("docker/Dockerfile"));
    other.context_path = PathBuf::from("/srv/build");
    assert_eq!(hash("FROM a", Vec::new(), &other), hash("FROM a", Vec::new(), &opts(true, &["s"])));
}

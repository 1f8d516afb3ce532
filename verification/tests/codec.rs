use treasury::ids::{
    hyphenated, parse_hyphenated, version_from_systime, Mtime,
};
use treasury::manifest::parse_manifest;
use treasury::paths::{AbsPath, RelPath};
use treasury::treasury::{DirProbe, Treasury};

fn bytes(s: &str) -> Vec<u8> {
    s.as_bytes().to_vec()
}

fn abs(parts: &[&str]) -> AbsPath {
    AbsPath { components: parts.iter().map(|p| bytes(p)).collect() }
}

fn fresh() -> DirProbe {
    DirProbe {
        root_exists: false,
        root_is_dir: false,
        treasury_exists: false,
        treasury_is_file: false,
        manifest_exists: false,
    }
}

#[test]
fn the_hyphenated_form_matches_the_uuid_crate() {
    let samples: [u128; 4] = [
        0,
        1,
        0x1234_5678_9abc_def0_1122_3344_5566_7788,
        u128::MAX,
    ];
    for x in samples {
        let ours = String::from_utf8(hyphenated(x)).expect("ascii");
        let theirs = uuid::Uuid::from_u128(x).hyphenated().to_string();
        assert_eq!(ours, theirs);
    }
}

#[test]
fn hyphenated_text_reads_back_to_the_same_value() {
    let x: u128 = 0x0f0e_0d0c_0b0a_0908_0706_0504_0302_0100;
    let h = hyphenated(x);
    assert_eq!(h.len(), 36);
    assert_eq!(parse_hyphenated(&h), Some(x));
}

#[test]
fn malformed_identifier_text_is_refused() {
    assert_eq!(parse_hyphenated(&bytes("not-a-uuid")), None);
    let mut h = hyphenated(7);
    h[8] = b'x';
    assert_eq!(parse_hyphenated(&h), None);
}

#[test]
fn the_empty_manifest_has_the_documented_shape() {
    let t = match Treasury::new(abs(&["tmp", "r"]), &fresh(), true) {
        Ok((t, _)) => t,
        Err(e) => panic!("creation refused: {:?}", e),
    };
    let saved = t.save();
    assert_eq!(
        String::from_utf8(saved).expect("ascii"),
        "{\"importers_dirs\":[],\"assets\":[]}"
    );
}

#[test]
fn a_manifest_with_one_record_round_trips_through_bytes() {
    let mut t = match Treasury::new(abs(&["tmp", "r"]), &fresh(), true) {
        Ok((t, _)) => t,
        Err(e) => panic!("creation refused: {:?}", e),
    };
    let source = RelPath { components: vec![bytes("art"), bytes("x.png")] };
    let source_absolute = abs(&["tmp", "r", "art", "x.png"]);
    assert!(t.store_commit(
        99,
        source,
        bytes("png"),
        bytes("tex"),
        vec![bytes("hero")],
        source_absolute,
    ));
    let saved = t.save();
    let text = String::from_utf8(saved.clone()).expect("ascii");
    assert!(text.contains("\"source\":\"art/x.png\""));
    assert!(text.contains("\"source_format\":\"png\""));
    assert!(text.contains("\"tags\":[\"hero\"]"));
    let data = parse_manifest(&saved).expect("parses");
    assert_eq!(data.assets.len(), 1);
    assert_eq!(data.assets[0].uuid, 99);
    assert_eq!(
        data.assets[0].source.components,
        vec![bytes("art"), bytes("x.png")]
    );
    assert_eq!(data.assets[0].tags, vec![bytes("hero")]);
    // Absolute paths are not serialized: they come back empty and are
    // re-derived by open.
    assert_eq!(data.assets[0].source_absolute.components.len(), 0);
}

#[test]
fn garbage_is_not_a_manifest() {
    assert!(parse_manifest(&bytes("")).is_none());
    assert!(parse_manifest(&bytes("{}")).is_none());
    assert!(parse_manifest(&bytes("{\"importers_dirs\":[],\"assets\":[]")).is_none());
    assert!(parse_manifest(&bytes("{\"importers_dirs\":[],\"assets\":[]}x")).is_none());
}

#[test]
fn versions_count_whole_milliseconds() {
    assert_eq!(version_from_systime(Mtime { secs: 5, nanos: 1_500_000 }), 5001);
    assert_eq!(version_from_systime(Mtime { secs: 0, nanos: 999_999 }), 0);
    let earlier = version_from_systime(Mtime { secs: 5, nanos: 1_000_000 });
    let later = version_from_systime(Mtime { secs: 6, nanos: 0 });
    assert!(earlier < later);
}

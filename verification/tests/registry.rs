use std::collections::HashMap;

use treasury::ids::{version_from_systime, Mtime};
use treasury::manifest::parse_manifest;
use treasury::paths::{join_relative, relative_to, AbsPath, RelPath};
use treasury::treasury::{
    DirProbe, FetchError, ImporterEntry, NewError, OpenError, StalenessPlan, StoreError,
    StorePlan, Treasury,
};

fn bytes(s: &str) -> Vec<u8> {
    s.as_bytes().to_vec()
}

fn abs(parts: &[&str]) -> AbsPath {
    AbsPath { components: parts.iter().map(|p| bytes(p)).collect() }
}

fn rel(parts: &[&str]) -> RelPath {
    RelPath { components: parts.iter().map(|p| bytes(p)).collect() }
}

fn fresh_probe() -> DirProbe {
    DirProbe {
        root_exists: false,
        root_is_dir: false,
        treasury_exists: false,
        treasury_is_file: false,
        manifest_exists: false,
    }
}

fn new_registry(root: &[&str]) -> Treasury {
    match Treasury::new(abs(root), &fresh_probe(), true) {
        Ok((t, _plan)) => t,
        Err(e) => panic!("creation refused: {:?}", e),
    }
}

/// Drive one store the way the surrounding process would: prepare, do the
/// planned file work against a simulated filesystem, commit.
fn do_store(
    t: &mut Treasury,
    fs: &mut HashMap<Vec<Vec<u8>>, Vec<u8>>,
    source_abs: &AbsPath,
    sf: &str,
    nf: &str,
    tags: &[&str],
) -> Result<u128, StoreError> {
    let sfv = bytes(sf);
    let nfv = bytes(nf);
    let tagv: Vec<Vec<u8>> = tags.iter().map(|x| bytes(x)).collect();
    match t.store_prepare(source_abs, &sfv, &nfv)? {
        StorePlan::AlreadyStored { uuid } => Ok(uuid),
        StorePlan::CopyNative { uuid, source_from_root, native_absolute } => {
            let content = fs.get(&source_abs.components).expect("source file").clone();
            fs.insert(native_absolute.components.clone(), content);
            assert!(t.store_commit(
                uuid,
                source_from_root,
                sfv,
                nfv,
                tagv,
                AbsPath { components: source_abs.components.clone() },
            ));
            Ok(uuid)
        }
        StorePlan::RunImport {
            uuid,
            importer_name: _,
            source_from_root,
            native_absolute,
            native_tmp: _,
            native_tmp_absolute,
        } => {
            // The "importer" writes a fixed byte to the transient path.
            fs.insert(native_tmp_absolute.components.clone(), vec![0x01]);
            let moved = fs.remove(&native_tmp_absolute.components).unwrap();
            fs.insert(native_absolute.components.clone(), moved);
            assert!(t.store_commit(
                uuid,
                source_from_root,
                sfv,
                nfv,
                tagv,
                AbsPath { components: source_abs.components.clone() },
            ));
            Ok(uuid)
        }
    }
}

#[test]
fn empty_create_save_open_lists_nothing() {
    let t = new_registry(&["tmp", "r"]);
    let saved = t.save();
    let data = parse_manifest(&saved).expect("own manifest parses");
    let t2 = Treasury::open(abs(&["tmp", "r"]), data).expect("opens");
    let listed = t2.list(&Vec::new(), None);
    assert_eq!(listed.len(), 0);
}

#[test]
fn identity_passthrough_store_serves_same_bytes() {
    let mut fs: HashMap<Vec<Vec<u8>>, Vec<u8>> = HashMap::new();
    let mut t = new_registry(&["tmp", "r"]);
    let src = abs(&["tmp", "r", "thing.bin"]);
    fs.insert(src.components.clone(), vec![0xDE, 0xAD, 0xBE, 0xEF]);
    let u = do_store(&mut t, &mut fs, &src, "bin", "bin", &[]).expect("stores");
    let begin = t.fetch_begin(u).expect("found");
    let served = fs.get(&begin.native_absolute.components).expect("native file");
    assert_eq!(served, &vec![0xDE, 0xAD, 0xBE, 0xEF]);
    let m = Mtime { secs: 10, nanos: 0 };
    let info = t.fetch_complete(begin.index, m, 0).expect("version gate passes");
    assert_eq!(info.version, version_from_systime(m));
    assert_eq!(info.native_path.components, begin.native_absolute.components);
}

#[test]
fn storing_the_same_triple_twice_returns_the_same_uuid() {
    let mut fs: HashMap<Vec<Vec<u8>>, Vec<u8>> = HashMap::new();
    let mut t = new_registry(&["tmp", "r"]);
    let added = t.load_importers_dir(
        rel(&["importers"]),
        vec![ImporterEntry {
            source_format: bytes("a"),
            native_format: bytes("b"),
            name: bytes("ab-importer"),
        }],
    );
    assert!(added);
    let src = abs(&["tmp", "r", "source.a"]);
    fs.insert(src.components.clone(), bytes("payload"));
    let u1 = do_store(&mut t, &mut fs, &src, "a", "b", &[]).expect("first store");
    let u2 = do_store(&mut t, &mut fs, &src, "a", "b", &[]).expect("second store");
    assert_eq!(u1, u2);
    assert_eq!(t.list(&Vec::new(), None).len(), 1);
}

#[test]
fn stale_native_is_reimported_and_version_grows() {
    let mut fs: HashMap<Vec<Vec<u8>>, Vec<u8>> = HashMap::new();
    let mut t = new_registry(&["tmp", "r"]);
    t.load_importers_dir(
        rel(&["importers"]),
        vec![ImporterEntry {
            source_format: bytes("a"),
            native_format: bytes("b"),
            name: bytes("ab-importer"),
        }],
    );
    let src = abs(&["tmp", "r", "source.a"]);
    fs.insert(src.components.clone(), bytes("v1"));
    let u = do_store(&mut t, &mut fs, &src, "a", "b", &[]).expect("stores");
    let begin = t.fetch_begin(u).expect("found");
    let native_before = Mtime { secs: 100, nanos: 0 };
    let source_touched = Mtime { secs: 200, nanos: 0 };
    match t.fetch_staleness(begin.index, native_before, Some(source_touched)) {
        StalenessPlan::Reimport { importer_name, native_tmp_absolute, native_tmp: _ } => {
            assert_eq!(importer_name, bytes("ab-importer"));
            // The importer now produces different bytes; rename over the native.
            fs.insert(native_tmp_absolute.components.clone(), vec![0x02]);
            let moved = fs.remove(&native_tmp_absolute.components).unwrap();
            fs.insert(begin.native_absolute.components.clone(), moved);
        }
        other => panic!("expected a reimport, got {:?}", other),
    }
    let native_after = Mtime { secs: 300, nanos: 0 };
    let info = t.fetch_complete(begin.index, native_after, 0).expect("serves");
    assert!(info.version > version_from_systime(native_before));
    assert_eq!(fs.get(&begin.native_absolute.components).unwrap(), &vec![0x02]);
}

#[test]
fn up_to_date_native_is_not_reimported() {
    let mut fs: HashMap<Vec<Vec<u8>>, Vec<u8>> = HashMap::new();
    let mut t = new_registry(&["tmp", "r"]);
    let src = abs(&["tmp", "r", "x.bin"]);
    fs.insert(src.components.clone(), bytes("x"));
    let u = do_store(&mut t, &mut fs, &src, "bin", "bin", &[]).expect("stores");
    let begin = t.fetch_begin(u).expect("found");
    let plan = t.fetch_staleness(
        begin.index,
        Mtime { secs: 200, nanos: 0 },
        Some(Mtime { secs: 100, nanos: 0 }),
    );
    assert!(matches!(plan, StalenessPlan::UpToDate));
    let plan = t.fetch_staleness(begin.index, Mtime { secs: 200, nanos: 0 }, None);
    assert!(matches!(plan, StalenessPlan::SourceUnknown));
}

#[test]
fn stale_without_importer_serves_the_old_file() {
    let mut fs: HashMap<Vec<Vec<u8>>, Vec<u8>> = HashMap::new();
    let mut t = new_registry(&["tmp", "r"]);
    let src = abs(&["tmp", "r", "x.bin"]);
    fs.insert(src.components.clone(), bytes("x"));
    let u = do_store(&mut t, &mut fs, &src, "bin", "bin", &[]).expect("stores");
    let begin = t.fetch_begin(u).expect("found");
    let plan = t.fetch_staleness(
        begin.index,
        Mtime { secs: 100, nanos: 0 },
        Some(Mtime { secs: 200, nanos: 0 }),
    );
    assert!(matches!(plan, StalenessPlan::StaleNoImporter));
}

#[test]
fn fetch_updated_returns_nothing_for_a_known_version() {
    let mut fs: HashMap<Vec<Vec<u8>>, Vec<u8>> = HashMap::new();
    let mut t = new_registry(&["tmp", "r"]);
    let src = abs(&["tmp", "r", "x.bin"]);
    fs.insert(src.components.clone(), bytes("x"));
    let u = do_store(&mut t, &mut fs, &src, "bin", "bin", &[]).expect("stores");
    let begin = t.fetch_begin(u).expect("found");
    let m = Mtime { secs: 50, nanos: 0 };
    let version = version_from_systime(m);
    // The caller already has `version`: asking with version + 1 yields nothing.
    assert!(t.fetch_complete(begin.index, m, version + 1).is_none());
    // An outdated caller is served, and strictly newer data only.
    let info = t.fetch_complete(begin.index, m, version).expect("served");
    assert!(info.version >= version);
}

#[test]
fn fetching_an_unknown_uuid_is_refused() {
    let t = new_registry(&["tmp", "r"]);
    match t.fetch_begin(42) {
        Err(FetchError::NotFound) => {}
        other => panic!("expected a missing asset, got {:?}", other.map(|_| ())),
    }
}

#[test]
fn storing_without_an_importer_is_refused() {
    let mut t = new_registry(&["tmp", "r"]);
    let src = abs(&["tmp", "r", "source.a"]);
    match t.store_prepare(&src, &bytes("a"), &bytes("b")) {
        Err(StoreError::ImporterNotFound { source_format, native_format }) => {
            assert_eq!(source_format, bytes("a"));
            assert_eq!(native_format, bytes("b"));
        }
        other => panic!("expected a missing importer, got {:?}", other),
    }
}

#[test]
fn creation_is_refused_when_the_root_is_a_file() {
    let probe = DirProbe {
        root_exists: true,
        root_is_dir: false,
        treasury_exists: false,
        treasury_is_file: false,
        manifest_exists: false,
    };
    match Treasury::new(abs(&["tmp", "r"]), &probe, false) {
        Err(NewError::RootIsNotDir { path }) => {
            assert_eq!(path.components, abs(&["tmp", "r"]).components);
        }
        other => panic!("expected a refusal, got {:?}", other.map(|_| ())),
    }
}

#[test]
fn creation_is_refused_over_an_existing_manifest_without_overwrite() {
    let probe = DirProbe {
        root_exists: true,
        root_is_dir: true,
        treasury_exists: true,
        treasury_is_file: false,
        manifest_exists: true,
    };
    match Treasury::new(abs(&["tmp", "r"]), &probe, false) {
        Err(NewError::GoodsAlreadyExist { path }) => {
            assert_eq!(path.components.len(), 3);
        }
        other => panic!("expected a refusal, got {:?}", other.map(|_| ())),
    }
    // With overwrite asked for, the same probe is accepted.
    assert!(Treasury::new(abs(&["tmp", "r"]), &probe, true).is_ok());
}

#[test]
fn opening_duplicate_identifiers_is_refused() {
    let mut fs: HashMap<Vec<Vec<u8>>, Vec<u8>> = HashMap::new();
    let mut t = new_registry(&["tmp", "r"]);
    let src = abs(&["tmp", "r", "x.bin"]);
    fs.insert(src.components.clone(), bytes("x"));
    do_store(&mut t, &mut fs, &src, "bin", "bin", &[]).expect("stores");
    let saved = t.save();
    let data = parse_manifest(&saved).expect("parses");
    let mut assets = data.assets;
    let copy = assets[0].clone();
    assets.push(copy);
    let bad = treasury::treasury::Data { importers_dirs: data.importers_dirs, assets };
    match Treasury::open(abs(&["tmp", "r"]), bad) {
        Err(OpenError::JsonError { .. }) => {}
        other => panic!("expected a refusal, got {:?}", other.map(|_| ())),
    }
}

#[test]
fn list_filters_by_format_and_tags() {
    let mut fs: HashMap<Vec<Vec<u8>>, Vec<u8>> = HashMap::new();
    let mut t = new_registry(&["tmp", "r"]);
    for (name, nf, tags) in [
        ("a.bin", "bin", vec!["hero", "red"]),
        ("b.bin", "bin", vec!["red"]),
        ("c.txt", "txt", vec!["hero"]),
    ] {
        let src = abs(&["tmp", "r", name]);
        fs.insert(src.components.clone(), bytes(name));
        do_store(&mut t, &mut fs, &src, nf, nf, &tags).expect("stores");
    }
    assert_eq!(t.list(&Vec::new(), None).len(), 3);
    let binf = bytes("bin");
    assert_eq!(t.list(&Vec::new(), Some(&binf)).len(), 2);
    let red = vec![bytes("red")];
    assert_eq!(t.list(&red, None).len(), 2);
    assert_eq!(t.list(&red, Some(&binf)).len(), 2);
    let hero_red = vec![bytes("hero"), bytes("red")];
    let both = t.list(&hero_red, None);
    assert_eq!(both.len(), 1);
    assert_eq!(both[0].source_format, bytes("bin"));
}

#[test]
fn remove_drops_the_record_and_names_the_native_file() {
    let mut fs: HashMap<Vec<Vec<u8>>, Vec<u8>> = HashMap::new();
    let mut t = new_registry(&["tmp", "r"]);
    let src = abs(&["tmp", "r", "x.bin"]);
    fs.insert(src.components.clone(), bytes("x"));
    let u = do_store(&mut t, &mut fs, &src, "bin", "bin", &[]).expect("stores");
    let begin = t.fetch_begin(u).expect("found");
    let gone = t.remove(u).expect("names the native file");
    assert_eq!(gone.components, begin.native_absolute.components);
    assert_eq!(t.list(&Vec::new(), None).len(), 0);
    assert!(t.remove(u).is_none());
}

#[test]
fn an_importer_directory_is_registered_once() {
    let mut t = new_registry(&["tmp", "r"]);
    let entry = ImporterEntry {
        source_format: bytes("a"),
        native_format: bytes("b"),
        name: bytes("first"),
    };
    assert!(t.load_importers_dir(rel(&["imp"]), vec![entry]));
    let later = ImporterEntry {
        source_format: bytes("a"),
        native_format: bytes("b"),
        name: bytes("second"),
    };
    // The same directory again: nothing changes.
    assert!(!t.load_importers_dir(rel(&["imp"]), vec![later]));
    // A second directory with an entry for a served pair: the first wins.
    let later = ImporterEntry {
        source_format: bytes("a"),
        native_format: bytes("b"),
        name: bytes("second"),
    };
    assert!(t.load_importers_dir(rel(&["imp2"]), vec![later]));
    let src = abs(&["tmp", "r", "s.a"]);
    match t.store_prepare(&src, &bytes("a"), &bytes("b")) {
        Ok(StorePlan::RunImport { importer_name, .. }) => {
            assert_eq!(importer_name, bytes("first"));
        }
        other => panic!("expected an import plan, got {:?}", other),
    }
}

#[test]
fn save_and_open_recover_the_catalog() {
    let mut fs: HashMap<Vec<Vec<u8>>, Vec<u8>> = HashMap::new();
    let mut t = new_registry(&["tmp", "r"]);
    let src = abs(&["tmp", "r", "art", "x.bin"]);
    fs.insert(src.components.clone(), bytes("x"));
    let u = do_store(&mut t, &mut fs, &src, "bin", "bin", &["tagged"]).expect("stores");
    let saved = t.save();
    let data = parse_manifest(&saved).expect("parses");
    let t2 = Treasury::open(abs(&["tmp", "r"]), data).expect("opens");
    let listed = t2.list(&Vec::new(), None);
    assert_eq!(listed.len(), 1);
    let a = &listed[0];
    assert_eq!(a.uuid, u);
    assert_eq!(a.source.components, vec![bytes("art"), bytes("x.bin")]);
    assert_eq!(a.source_format, bytes("bin"));
    assert_eq!(a.native_format, bytes("bin"));
    assert_eq!(a.tags, vec![bytes("tagged")]);
    // Absolute paths are rehydrated below the root.
    assert_eq!(
        a.source_absolute.components,
        vec![bytes("tmp"), bytes("r"), bytes("art"), bytes("x.bin")]
    );
    assert_eq!(a.native_absolute.components.len(), 4);
    assert_eq!(a.native_absolute.components[2], bytes(".treasury"));
}

#[test]
fn text_that_cannot_stand_in_the_manifest_is_refused_at_commit() {
    let mut t = new_registry(&["tmp", "r"]);
    // A tag holding a quote would corrupt the written manifest: the
    // commit refuses it and the catalog stays unchanged.
    let refused = t.store_commit(
        7,
        rel(&["x.bin"]),
        bytes("bin"),
        bytes("bin"),
        vec![bytes("a\",\"b")],
        abs(&["tmp", "r", "x.bin"]),
    );
    assert!(!refused);
    assert_eq!(t.list(&Vec::new(), None).len(), 0);
    // The same record with plain text is accepted.
    let accepted = t.store_commit(
        7,
        rel(&["x.bin"]),
        bytes("bin"),
        bytes("bin"),
        vec![bytes("plain")],
        abs(&["tmp", "r", "x.bin"]),
    );
    assert!(accepted);
    assert_eq!(t.list(&Vec::new(), None).len(), 1);
}

#[test]
fn an_importer_directory_that_cannot_stand_in_the_manifest_is_refused() {
    let mut t = new_registry(&["tmp", "r"]);
    let bad = RelPath { components: vec![b"im\"p".to_vec()] };
    assert!(!t.load_importers_dir(bad, Vec::new()));
    assert!(t.load_importers_dir(rel(&["imp"]), Vec::new()));
}

#[test]
fn opening_records_with_unquotable_text_is_refused() {
    let mut fs: HashMap<Vec<Vec<u8>>, Vec<u8>> = HashMap::new();
    let mut t = new_registry(&["tmp", "r"]);
    let src = abs(&["tmp", "r", "x.bin"]);
    fs.insert(src.components.clone(), bytes("x"));
    do_store(&mut t, &mut fs, &src, "bin", "bin", &[]).expect("stores");
    let saved = t.save();
    let data = parse_manifest(&saved).expect("parses");
    let mut assets = data.assets;
    assets[0].tags.push(b"a\\b".to_vec());
    let bad = treasury::treasury::Data { importers_dirs: data.importers_dirs, assets };
    match Treasury::open(abs(&["tmp", "r"]), bad) {
        Err(OpenError::JsonError { .. }) => {}
        other => panic!("expected a refusal, got {:?}", other.map(|_| ())),
    }
}

#[test]
fn relative_path_round_trip() {
    let p = abs(&["home", "me", "art", "x.bin"]);
    let root = abs(&["home", "me", "registry"]);
    let r = relative_to(&p, &root);
    assert_eq!(
        r.components,
        vec![bytes(".."), bytes("art"), bytes("x.bin")]
    );
    let joined = join_relative(&p, &root);
    assert_eq!(joined.components, p.components);
}

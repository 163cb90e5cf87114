use notes::cli::{Define, Search};
use notes::configuration::{ApplicationPaths, Configuration};
use notes::store::{unzip, zip};

#[test]
fn zip_round_trips_bytes() {
    let data: Vec<u8> = b"a cache blob, a cache blob, a cache blob".to_vec();
    let blob = zip(&data).unwrap();
    assert_ne!(blob, data);
    assert_eq!(&blob[..2], &[0x1f, 0x8b]);
    assert_eq!(unzip(&blob).unwrap(), data);
}

#[test]
fn unzip_rejects_corrupt_blob() {
    assert!(unzip(&b"not gzip".to_vec()).is_none());
}

#[test]
fn query_keys_are_lowercased() {
    let d = Define { term: "API Key".to_string() };
    assert_eq!(d.key(), "api key");
    let s = Search { tag: "ToDo".to_string() };
    assert_eq!(s.key(), "todo");
}

#[test]
fn application_paths_under_directory() {
    let p = ApplicationPaths::from_current("/home/u/proj");
    assert_eq!(p.tools(), "/home/u/proj/.tool");
    assert_eq!(p.config(), "/home/u/proj/.tool/notes.json");
    assert_eq!(p.cache(), "/home/u/proj/.tool/notecache.bin.gz");
    let q = ApplicationPaths::from_current("/srv/");
    assert_eq!(q.tools(), "/srv/.tool");
}

#[test]
fn configuration_from_command() {
    let c = Configuration::from_command(&notes::cli::Config { root: "notes".to_string() });
    assert_eq!(c.root, "notes");
}

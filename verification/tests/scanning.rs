//! Listings, specification files and directory scans.

use cdi::listing::{
    cdi_spec_files, entry_action, DirEntry, EntryAction, FileType, Found, IoFailure,
};
use cdi::path::HostPath;
use cdi::scan::scan_cdi_spec_dir;
use cdi::spec_file::{
    parse_cdi_spec_file, CdiContainerEdits, CdiDevice, CdiDeviceNode, CdiSpec, SpecFileContents,
};
use cdi::table::EffectiveCdiDevice;

fn path(text: &str) -> HostPath {
    HostPath::from_text(text)
}

fn node(path: &str, host_path: Option<&str>) -> CdiDeviceNode {
    CdiDeviceNode { path: path.to_string(), host_path: host_path.map(|found| found.to_string()) }
}

fn spec(kind: &str, names: &[&str]) -> SpecFileContents {
    SpecFileContents::Spec(CdiSpec {
        kind: kind.to_string(),
        devices: names
            .iter()
            .map(|name| CdiDevice {
                name: name.to_string(),
                container_edits: CdiContainerEdits {
                    device_nodes: vec![node(&format!("/dev/{name}"), None)],
                },
            })
            .collect(),
        container_edits: CdiContainerEdits { device_nodes: vec![node("/dev/all", Some("/dev/x"))] },
    })
}

fn file(at: &str) -> DirEntry {
    DirEntry { path: path(at), found: Found::File(spec("a/b", &[])) }
}

fn directory(at: &str, entries: Vec<DirEntry>) -> DirEntry {
    DirEntry { path: path(at), found: Found::Directory(Ok(entries)) }
}

fn failure(reason: &str) -> IoFailure {
    IoFailure { not_found: false, reason: reason.to_string() }
}

fn shown(listing: Result<Vec<DirEntry>, IoFailure>) -> Result<Vec<String>, String> {
    cdi_spec_files(listing)
        .map(|files| files.iter().map(|found| found.path.display()).collect())
        .map_err(|found| found.reason)
}

#[test]
fn directories_are_listed_and_spec_files_read() {
    assert!(matches!(
        entry_action(&path("/d/x.yaml"), FileType::Directory),
        EntryAction::ListDirectory
    ));
    assert!(matches!(entry_action(&path("/d/x.yaml"), FileType::File), EntryAction::ReadSpecFile));
    assert!(matches!(entry_action(&path("/d/x.txt"), FileType::File), EntryAction::Skip));
    assert!(matches!(entry_action(&path("/d/x.yaml"), FileType::Other), EntryAction::Skip));
}

#[test]
fn spec_files_come_in_the_order_of_their_paths() {
    let listing = Ok(vec![
        file("/d/z.yaml"),
        directory("/d/sub", vec![file("/d/sub/b.yaml"), file("/d/sub/a.yaml")]),
        file("/d/sub.yaml"),
        file("/d/a.json"),
    ]);
    assert_eq!(
        shown(listing),
        Ok(["/d/a.json", "/d/sub/a.yaml", "/d/sub/b.yaml", "/d/sub.yaml", "/d/z.yaml"]
            .iter()
            .map(|found| found.to_string())
            .collect())
    );
}

#[test]
fn only_spec_files_are_found() {
    let listing = Ok(vec![
        file("/d/a.txt"),
        file("/d/b.yml"),
        DirEntry { path: path("/d/c.yaml"), found: Found::Skipped },
        directory("/d/d.yaml", vec![file("/d/d.yaml/yaml"), file("/d/d.yaml/e.json")]),
    ]);
    assert_eq!(
        shown(listing),
        Ok(vec!["/d/b.yml".to_string(), "/d/d.yaml/e.json".to_string()])
    );
}

#[test]
fn files_at_the_same_path_keep_their_order() {
    let listing = Ok(vec![file("/d//a.yaml"), file("/d/b.yaml"), file("/d/a.yaml")]);
    assert_eq!(
        shown(listing),
        Ok(["/d//a.yaml", "/d/a.yaml", "/d/b.yaml"].iter().map(|found| found.to_string()).collect())
    );
}

#[test]
fn the_first_failure_in_path_order_ends_the_search() {
    let failed = |at: &str, reason: &str| DirEntry {
        path: path(at),
        found: Found::Failed(failure(reason)),
    };
    let unlisted = |at: &str, reason: &str| DirEntry {
        path: path(at),
        found: Found::Directory(Err(failure(reason))),
    };
    assert_eq!(shown(Err(failure("gone"))), Err("gone".to_string()));
    assert_eq!(
        shown(Ok(vec![failed("/d/z", "late"), unlisted("/d/b", "early"), file("/d/a.yaml")])),
        Err("early".to_string())
    );
    assert_eq!(
        shown(Ok(vec![
            failed("/d/z", "late"),
            directory("/d/b", vec![failed("/d/b/c", "inner")])
        ])),
        Err("inner".to_string())
    );
}

#[test]
fn spec_files_are_checked() {
    let parsed = parse_cdi_spec_file(&path("/d/a.yaml"), spec("a.com/b", &["0", "all"]))
        .expect("well-formed names");
    assert_eq!(parsed.path, path("/d/a.yaml"));
    assert_eq!(parsed.global_device_nodes.len(), 1);
    assert_eq!(parsed.global_device_nodes[0].host_path, Some("/dev/x".to_string()));
    assert_eq!(parsed.devices.len(), 2);
    assert_eq!(parsed.devices[0].qualified_name, "a.com/b=0");
    assert_eq!(parsed.devices[1].qualified_name, "a.com/b=all");
    assert_eq!(parsed.devices[1].device_nodes[0].path, "/dev/all");

    let problem = |contents: SpecFileContents| {
        parse_cdi_spec_file(&path("/d/a.yaml"), contents).expect_err("a problem")
    };
    assert_eq!(
        problem(SpecFileContents::OpenFailed("denied".to_string())),
        "failed to open CDI spec file: denied"
    );
    assert_eq!(
        problem(SpecFileContents::Malformed("no kind".to_string())),
        "failed to parse CDI spec: no kind"
    );
    assert_eq!(
        problem(spec("b", &["/"])),
        "CDI kind `b` must be of the form `vendor.com/class`"
    );
    assert_eq!(
        problem(spec("a/b", &["0", "/", ""])),
        "invalid character `/` in device name `/`"
    );
}

#[test]
fn a_directory_says_what_it_defines() {
    let listing = Ok(vec![
        DirEntry { path: path("/d/1.yaml"), found: Found::File(spec("a/b", &["x", "y"])) },
        DirEntry { path: path("/d/2.yaml"), found: Found::File(spec("a/b", &["y", "z", "y"])) },
        DirEntry { path: path("/d/4.yaml"), found: Found::File(spec("a", &["x"])) },
        DirEntry {
            path: path("/d/3.yaml"),
            found: Found::File(SpecFileContents::Malformed("odd".to_string())),
        },
    ]);
    let scan = scan_cdi_spec_dir(&path("/d"), listing);
    assert_eq!(
        scan.scan_errors,
        vec![
            "/d/3.yaml: failed to parse CDI spec: odd".to_string(),
            "/d/4.yaml: CDI kind `a` must be of the form `vendor.com/class`".to_string(),
        ]
    );
    match scan.entries.get(&"a/b=z".to_string()) {
        Some(EffectiveCdiDevice::Resolved(device)) => {
            assert_eq!(device.spec_path, path("/d/2.yaml"));
            assert_eq!(device.global_device_nodes[0].path, "/dev/all");
            assert_eq!(device.device_nodes[0].path, "/dev/z");
        }
        other => panic!("unexpected {other:?}"),
    }
    match scan.entries.get(&"a/b=y".to_string()) {
        Some(EffectiveCdiDevice::InvalidDuplicate { message }) => {
            assert_eq!(message, "CDI device `a/b=y` is defined more than once in /d");
        }
        other => panic!("unexpected {other:?}"),
    }
    assert!(scan.entries.get(&"a/b=x".to_string()).is_some());
    assert!(scan.entries.get(&"a=x".to_string()).is_none());
}

#[test]
fn the_order_of_files_decides_nothing_about_devices() {
    let entry = |at: &str, names: &[&str]| DirEntry {
        path: path(at),
        found: Found::File(spec("a/b", names)),
    };
    let forwards = Ok(vec![entry("/d/1.yaml", &["x", "y"]), entry("/d/2.yaml", &["y"])]);
    let backwards = Ok(vec![entry("/d/2.yaml", &["x", "y"]), entry("/d/1.yaml", &["y"])]);
    for listing in [forwards, backwards] {
        let scan = scan_cdi_spec_dir(&path("/d"), listing);
        assert!(matches!(
            scan.entries.get(&"a/b=x".to_string()),
            Some(EffectiveCdiDevice::Resolved(_))
        ));
        assert!(matches!(
            scan.entries.get(&"a/b=y".to_string()),
            Some(EffectiveCdiDevice::InvalidDuplicate { .. })
        ));
    }
}

#[test]
fn one_more_malformed_file_is_reported_in_its_place() {
    let bad = |at: &str| DirEntry {
        path: path(at),
        found: Found::File(SpecFileContents::Malformed("odd".to_string())),
    };
    let good = |at: &str, name: &str| DirEntry {
        path: path(at),
        found: Found::File(spec("a/b", &[name])),
    };
    let before = || {
        Ok(vec![
            directory("/d/sub", vec![good("/d/sub/k.yaml", "k")]),
            bad("/d/z.yaml"),
            good("/d/x.yaml", "x"),
            bad("/d/a.yaml"),
        ])
    };
    let on_top = || {
        Ok(vec![
            directory("/d/sub", vec![good("/d/sub/k.yaml", "k")]),
            bad("/d/z.yaml"),
            bad("/d/m.yaml"),
            good("/d/x.yaml", "x"),
            bad("/d/a.yaml"),
        ])
    };
    let deep = || {
        Ok(vec![
            directory("/d/sub", vec![good("/d/sub/k.yaml", "k"), bad("/d/sub/m.yaml")]),
            bad("/d/z.yaml"),
            good("/d/x.yaml", "x"),
            bad("/d/a.yaml"),
        ])
    };
    let told = |listing: Result<Vec<DirEntry>, IoFailure>| {
        let scan = scan_cdi_spec_dir(&path("/d"), listing);
        for (name, file) in [("a/b=k", "/d/sub/k.yaml"), ("a/b=x", "/d/x.yaml")] {
            match scan.entries.get(&name.to_string()) {
                Some(EffectiveCdiDevice::Resolved(device)) => {
                    assert_eq!(device.spec_path, path(file));
                }
                other => panic!("unexpected {other:?}"),
            }
        }
        scan.scan_errors
    };
    let report = |at: &str| format!("{at}: failed to parse CDI spec: odd");
    assert_eq!(told(before()), vec![report("/d/a.yaml"), report("/d/z.yaml")]);
    assert_eq!(
        told(on_top()),
        vec![report("/d/a.yaml"), report("/d/m.yaml"), report("/d/z.yaml")]
    );
    assert_eq!(
        told(deep()),
        vec![report("/d/a.yaml"), report("/d/sub/m.yaml"), report("/d/z.yaml")]
    );
}

#[test]
fn the_order_of_a_listing_does_not_matter() {
    let tree = |reordered: bool| {
        let mut inner = vec![file("/d/s/b.yaml"), file("/d/s/a.yaml")];
        let mut outer = vec![file("/d/t.yaml"), file("/d/a.yml"), file("/d/s-.yaml")];
        if reordered {
            inner.reverse();
            outer.reverse();
        }
        outer.push(directory("/d/s", inner));
        Ok(outer)
    };
    let expected: Vec<String> =
        ["/d/a.yml", "/d/s/a.yaml", "/d/s/b.yaml", "/d/s-.yaml", "/d/t.yaml"]
            .iter()
            .map(|found| found.to_string())
            .collect();
    assert_eq!(shown(tree(false)), Ok(expected));
    assert_eq!(shown(tree(true)), shown(tree(false)));
}

#[test]
fn a_directory_that_does_not_exist_holds_nothing() {
    let scan = scan_cdi_spec_dir(
        &path("/d"),
        Err(IoFailure { not_found: true, reason: "no such directory".to_string() }),
    );
    assert!(scan.scan_errors.is_empty());
    let scan = scan_cdi_spec_dir(&path("/d"), Err(failure("denied")));
    assert_eq!(
        scan.scan_errors,
        vec!["failed to read CDI spec directory /d: denied".to_string()]
    );
}

#[test]
fn tables_keep_what_was_put_in_last() {
    let invalid = |text: &str| EffectiveCdiDevice::InvalidDuplicate { message: text.to_string() };
    let told = |table: &cdi::table::DeviceTable, name: &str| match table.get(&name.to_string()) {
        Some(EffectiveCdiDevice::InvalidDuplicate { message }) => message.clone(),
        _ => "nothing".to_string(),
    };
    let mut lower = cdi::table::DeviceTable::new();
    lower.insert("a".to_string(), invalid("1"));
    lower.insert("b".to_string(), invalid("2"));
    lower.insert("a".to_string(), invalid("3"));
    let mut upper = cdi::table::DeviceTable::new();
    upper.insert("b".to_string(), invalid("4"));
    lower.extend(upper);
    assert_eq!(told(&lower, "a"), "3");
    assert_eq!(told(&lower, "b"), "4");
    assert_eq!(told(&lower, "c"), "nothing");
}

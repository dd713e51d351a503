//! Resolution of requests, from specification files to binds.

use cdi::binds::{device_binds, host_node_candidates, DeviceBind};
use cdi::listing::{entry_action, DirEntry, EntryAction, FileType, Found, IoFailure};
use cdi::path::HostPath;
use cdi::resolve::{
    default_cdi_spec_dirs, missing_device_message, requested_devices, resolve_cdi_device_binds,
    select_cdi_devices, SpecDir,
};
use cdi::spec_file::{
    CdiContainerEdits, CdiDevice, CdiDeviceNode, CdiSpec, SpecFileContents,
};
use serde_yaml::Value;

const TEMP_DIR: &str = "/tmp/cdi-test";

fn path(text: &str) -> HostPath {
    HostPath::from_text(text)
}

fn host_node(name: &str) -> String {
    format!("{TEMP_DIR}/dev/{name}")
}

fn text_of(value: &Value, key: &str) -> Option<String> {
    value.get(key).and_then(|found| found.as_str()).map(|found| found.to_string())
}

fn edits_of(value: &Value) -> CdiContainerEdits {
    let nodes = value
        .get("containerEdits")
        .and_then(|edits| edits.get("deviceNodes"))
        .and_then(|nodes| nodes.as_sequence())
        .cloned()
        .unwrap_or_default();
    CdiContainerEdits {
        device_nodes: nodes
            .iter()
            .map(|node| CdiDeviceNode {
                path: text_of(node, "path").expect("node path"),
                host_path: text_of(node, "hostPath"),
            })
            .collect(),
    }
}

fn read_spec(contents: &str) -> SpecFileContents {
    let value: Value = match serde_yaml::from_str(contents) {
        Ok(value) => value,
        Err(err) => return SpecFileContents::Malformed(err.to_string()),
    };
    let devices = value
        .get("devices")
        .and_then(|devices| devices.as_sequence())
        .cloned()
        .unwrap_or_default();
    SpecFileContents::Spec(CdiSpec {
        kind: text_of(&value, "kind").expect("kind"),
        devices: devices
            .iter()
            .map(|device| CdiDevice {
                name: text_of(device, "name").expect("device name"),
                container_edits: edits_of(device),
            })
            .collect(),
        container_edits: edits_of(&value),
    })
}

/// A directory with these files in it.
fn spec_dir(name: &str, files: &[(&str, &str)]) -> SpecDir {
    let dir = format!("{TEMP_DIR}/{name}");
    let mut entries = Vec::new();
    for (file, contents) in files {
        let file_path = path(&format!("{dir}/{file}"));
        let found = match entry_action(&file_path, FileType::File) {
            EntryAction::ReadSpecFile => Found::File(read_spec(contents)),
            _ => Found::Skipped,
        };
        entries.push(DirEntry { path: file_path, found });
    }
    SpecDir { path: path(&dir), listing: Ok(entries) }
}

fn device_spec(kind: &str, name: &str, host_node: &str) -> String {
    format!(
        r#"
cdiVersion: 0.7.0
kind: {kind}
devices:
  - name: "{name}"
    containerEdits:
      deviceNodes:
        - path: /dev/test-device
          hostPath: {host_node}
"#
    )
}

fn resolve(
    devices: &[&str],
    dirs: Vec<SpecDir>,
    host_nodes: &[&str],
) -> Result<Vec<DeviceBind>, String> {
    let devices: Vec<String> = devices.iter().map(|device| device.to_string()).collect();
    let host_nodes: Vec<HostPath> = host_nodes.iter().map(|node| path(node)).collect();
    resolve_cdi_device_binds(&devices, dirs, &host_nodes).map_err(|err| err.message())
}

fn bind(source: &str, destination: &str) -> DeviceBind {
    DeviceBind { source: path(source), destination: path(destination) }
}

#[test]
fn resolves_exact_device_nodes() {
    let host_node = host_node("nvidia0");
    let shared_node = self::host_node("nvidiactl");
    let dir = spec_dir(
        "cdi",
        &[(
            "nvidia.yaml",
            &format!(
                r#"
cdiVersion: 0.7.0
kind: nvidia.com/gpu
containerEdits:
  deviceNodes:
    - path: {shared_node}
devices:
  - name: "0"
    containerEdits:
      deviceNodes:
        - path: /dev/nvidia0
          hostPath: {host_node}
"#
            ),
        )],
    );

    let binds = resolve(&["nvidia.com/gpu=0"], vec![dir], &[&host_node, &shared_node])
        .expect("resolve CDI device");

    assert_eq!(
        binds,
        vec![bind(&shared_node, &shared_node), bind(&host_node, "/dev/nvidia0")]
    );
}

#[test]
fn all_is_a_normal_device_name() {
    let host_node = host_node("all");
    let dir = spec_dir(
        "cdi",
        &[(
            "gpu.yaml",
            &format!(
                r#"
cdiVersion: 0.7.0
kind: vendor.com/gpu
devices:
  - name: all
    containerEdits:
      deviceNodes:
        - path: /dev/vendor-all
          hostPath: {host_node}
"#
            ),
        )],
    );

    let binds =
        resolve(&["vendor.com/gpu=all"], vec![dir], &[&host_node]).expect("resolve CDI device");

    assert_eq!(binds, vec![bind(&host_node, "/dev/vendor-all")]);
}

#[test]
fn all_is_not_expanded_when_not_defined() {
    let host_node = host_node("zero");
    let dir = spec_dir(
        "cdi",
        &[(
            "gpu.yaml",
            &format!(
                r#"
cdiVersion: 0.7.0
kind: vendor.com/gpu
devices:
  - name: "0"
    containerEdits:
      deviceNodes:
        - path: /dev/vendor0
          hostPath: {host_node}
"#
            ),
        )],
    );

    let err = resolve(&["vendor.com/gpu=all"], vec![dir], &[&host_node])
        .expect_err("all must not expand");

    assert!(err.contains("CDI device `vendor.com/gpu=all` was not found"));
}

#[test]
fn malformed_specs_are_ignored_until_the_requested_device_is_missing() {
    let host_node = host_node("good");
    let good = format!(
        r#"
cdiVersion: 0.7.0
kind: vendor.com/gpu
devices:
  - name: good
    containerEdits:
      deviceNodes:
        - path: /dev/good
          hostPath: {host_node}
"#
    );
    let files: [(&str, &str); 2] = [("bad.yaml", "kind: ["), ("good.yaml", &good)];

    resolve(&["vendor.com/gpu=good"], vec![spec_dir("cdi", &files)], &[&host_node])
        .expect("malformed unrelated spec should not fail requested device");

    let message = resolve(
        &["vendor.com/gpu=missing"],
        vec![spec_dir("cdi", &files)],
        &[&host_node],
    )
    .expect_err("missing requested device should report malformed specs");
    assert!(message.contains("CDI device `vendor.com/gpu=missing` was not found"));
    assert!(message.contains("ignored malformed CDI specs"));
    assert!(message.contains("/tmp/cdi-test/cdi/bad.yaml: failed to parse CDI spec: "));
}

#[test]
fn higher_precedence_directory_overrides_lower_precedence_directory() {
    let run_node = host_node("run");
    let etc_node = host_node("etc");
    let etc_dir = spec_dir(
        "etc",
        &[("device.yaml", &device_spec("vendor.com/gpu", "0", &etc_node))],
    );
    let run_dir = spec_dir(
        "run",
        &[("device.yaml", &device_spec("vendor.com/gpu", "0", &run_node))],
    );

    let binds = resolve(&["vendor.com/gpu=0"], vec![run_dir, etc_dir], &[&run_node, &etc_node])
        .expect("resolve CDI device");

    assert_eq!(binds, vec![bind(&run_node, "/dev/test-device")]);
}

#[test]
fn duplicate_devices_within_one_directory_are_invalid() {
    let first_node = host_node("first");
    let second_node = host_node("second");
    let dir = spec_dir(
        "cdi",
        &[
            ("first.yaml", &device_spec("vendor.com/gpu", "0", &first_node)),
            ("second.yaml", &device_spec("vendor.com/gpu", "0", &second_node)),
        ],
    );

    let err = resolve(&["vendor.com/gpu=0"], vec![dir], &[&first_node, &second_node])
        .expect_err("duplicate requested device should fail");

    assert!(err.contains("CDI device `vendor.com/gpu=0` is defined more than once"));
    assert_eq!(
        err,
        "CDI device `vendor.com/gpu=0` is defined more than once in /tmp/cdi-test/cdi"
    );
}

#[test]
fn a_duplicate_in_a_lower_directory_does_not_matter() {
    let node = host_node("node");
    let spec = device_spec("vendor.com/gpu", "0", &node);
    let run_dir = spec_dir("run", &[("a.yaml", &spec)]);
    let etc_dir = spec_dir("etc", &[("a.yaml", &spec), ("b.yaml", &spec), ("c.yaml", &spec)]);
    let binds = resolve(&["vendor.com/gpu=0"], vec![run_dir, etc_dir], &[&node]);
    assert_eq!(binds, Ok(vec![bind(&node, "/dev/test-device")]));
}

#[test]
fn a_request_for_nothing_resolves_to_nothing() {
    assert_eq!(resolve(&[], vec![spec_dir("cdi", &[("bad.yaml", "kind: [")])], &[]), Ok(vec![]));
}

#[test]
fn names_are_checked_before_anything_is_looked_up() {
    assert_eq!(
        resolve(&["vendor.com/gpu=0", "gpu"], vec![], &[]),
        Err(
            "CDI device `gpu` must be a fully qualified name of the form \
             `vendor.com/class=device`"
                .to_string()
        )
    );
}

#[test]
fn repeated_requests_are_made_once() {
    let devices: Vec<String> = ["a.com/x=1", "a.com/x=0", "a.com/x=1"]
        .iter()
        .map(|device| device.to_string())
        .collect();
    assert_eq!(
        requested_devices(&devices).expect("well-formed names"),
        vec!["a.com/x=1".to_string(), "a.com/x=0".to_string()]
    );
    let node = host_node("node");
    let spec = device_spec("a.com/x", "1", &node);
    let once = resolve(&["a.com/x=1"], vec![spec_dir("cdi", &[("a.json", &spec)])], &[&node]);
    let twice = resolve(
        &["a.com/x=1", "a.com/x=1"],
        vec![spec_dir("cdi", &[("a.json", &spec)])],
        &[&node],
    );
    assert_eq!(once, Ok(vec![bind(&node, "/dev/test-device")]));
    assert_eq!(once, twice);
}

#[test]
fn more_requests_add_binds_at_the_end() {
    let first = device_spec("a.com/x", "1", "/dev/one");
    let second = device_spec("a.com/y", "2", "/dev/two");
    let files: [(&str, &str); 2] = [("a.yml", &first), ("b.yml", &second)];
    let nodes = ["/dev/one", "/dev/two"];
    assert_eq!(
        resolve(&["a.com/y=2"], vec![spec_dir("cdi", &files)], &nodes),
        Ok(vec![bind("/dev/two", "/dev/test-device")])
    );
    assert_eq!(
        resolve(&["a.com/y=2", "a.com/x=1"], vec![spec_dir("cdi", &files)], &nodes),
        Ok(vec![
            bind("/dev/two", "/dev/test-device"),
            bind("/dev/one", "/dev/test-device")
        ])
    );
}

#[test]
fn the_first_missing_device_is_named() {
    assert_eq!(
        resolve(&["a.com/x=1", "a.com/x=2"], vec![spec_dir("run", &[]), spec_dir("etc", &[])], &[]),
        Err(
            "CDI device `a.com/x=1` was not found in /tmp/cdi-test/run, /tmp/cdi-test/etc"
                .to_string()
        )
    );
}

#[test]
fn errors_of_lower_directories_come_first() {
    let unreadable = |name: &str, reason: &str, not_found: bool| SpecDir {
        path: path(name),
        listing: Err(IoFailure { not_found, reason: reason.to_string() }),
    };
    let dirs = vec![
        unreadable("/run/cdi", "no access", false),
        unreadable("/gone", "no such directory", true),
        unreadable("/etc/cdi", "broken", false),
    ];
    assert_eq!(
        resolve(&["a.com/x=1"], dirs, &[]),
        Err(
            "CDI device `a.com/x=1` was not found in /run/cdi, /gone, /etc/cdi; ignored malformed \
             CDI specs: failed to read CDI spec directory /etc/cdi: broken; failed to read CDI \
             spec directory /run/cdi: no access"
                .to_string()
        )
    );
}

#[test]
fn missing_device_messages() {
    assert_eq!(missing_device_message("d", &[], &[]), "CDI device `d` was not found in ");
    assert_eq!(
        missing_device_message("d", &[path("/a"), path("/b")], &["e".to_string()]),
        "CDI device `d` was not found in /a, /b; ignored malformed CDI specs: e"
    );
}

#[test]
fn default_directories() {
    let shown: Vec<String> = default_cdi_spec_dirs().iter().map(|dir| dir.display()).collect();
    assert_eq!(shown, vec!["/var/run/cdi".to_string(), "/etc/cdi".to_string()]);
}

#[test]
fn only_candidates_are_asked_for() {
    let spec = r#"
kind: a.com/x
containerEdits:
  deviceNodes:
    - path: /dev/shared
devices:
  - name: one
    containerEdits:
      deviceNodes:
        - path: /dev/one
          hostPath: relative
        - path: relative
          hostPath: /dev/host
  - name: two
"#;
    let selected = select_cdi_devices(
        &["a.com/x=one".to_string()],
        vec![spec_dir("cdi", &[("a.yaml", spec)])],
    )
    .expect("defined device");
    assert_eq!(selected.len(), 1);
    assert_eq!(selected[0].name, "a.com/x=one");
    assert_eq!(selected[0].device.spec_path, path("/tmp/cdi-test/cdi/a.yaml"));
    assert_eq!(host_node_candidates(&selected), vec![path("/dev/shared"), path("/dev/host")]);
}

#[test]
fn only_candidates_decide_about_the_binds() {
    let spec = device_spec("a.com/x", "1", "/dev/one");
    let selected = || {
        select_cdi_devices(
            &["a.com/x=1".to_string()],
            vec![spec_dir("cdi", &[("a.yaml", &spec)])],
        )
        .expect("defined device")
    };
    let candidates = host_node_candidates(&selected());
    assert_eq!(candidates, vec![path("/dev/one")]);
    let expected = vec![bind("/dev/one", "/dev/test-device")];
    let more = [path("/dev/two"), path("/dev/one"), path("/dev/three")];
    assert_eq!(device_binds(&selected(), &candidates).expect("present node"), expected);
    assert_eq!(device_binds(&selected(), &more).expect("present node"), expected);
    assert_eq!(
        device_binds(&selected(), &more[..1]).expect_err("missing node").message(),
        "CDI device `a.com/x=1` requires missing host device node /dev/one"
    );
}

const TWO_DEVICES: &str = r#"
kind: a.com/x
containerEdits:
  deviceNodes:
    - path: /dev/s1
    - path: /dev/s2
devices:
  - name: one
    containerEdits:
      deviceNodes:
        - path: /dev/n1
        - path: /dev//s2
          hostPath: /dev//s2
  - name: two
    containerEdits:
      deviceNodes:
        - path: /dev/n2
        - path: /dev/n1
"#;

#[test]
fn binds_are_the_first_occurrences_over_all_nodes() {
    let present = ["/dev/s1", "/dev/s2", "/dev//s2", "/dev/n1", "/dev/n2"];
    let dirs = || vec![spec_dir("cdi", &[("a.yaml", TWO_DEVICES)])];
    let same = |node: &str| bind(node, node);
    assert_eq!(
        resolve(&["a.com/x=one", "a.com/x=two", "a.com/x=one"], dirs(), &present),
        Ok(vec![same("/dev/s1"), same("/dev/s2"), same("/dev/n1"), same("/dev/n2")])
    );
    assert_eq!(
        resolve(&["a.com/x=two", "a.com/x=one"], dirs(), &present),
        Ok(vec![same("/dev/s1"), same("/dev/s2"), same("/dev/n2"), same("/dev/n1")])
    );
}

#[test]
fn requests_fail_where_a_device_cannot_be_had() {
    let present = ["/dev/s1", "/dev/s2", "/dev//s2", "/dev/n1", "/dev/n2"];
    let dirs = || vec![spec_dir("cdi", &[("a.yaml", TWO_DEVICES)])];
    let all = ["a.com/x=one", "a.com/x=two"];
    assert!(resolve(&all, dirs(), &present).is_ok());
    for missing in present {
        let rest: Vec<&str> = present.iter().copied().filter(|node| *node != missing).collect();
        assert_eq!(
            resolve(&all, dirs(), &rest).map_err(|err| err.ends_with(missing)),
            Err(true),
            "{missing:?}"
        );
    }
    assert!(resolve(&["a.com/x=one", "one"], dirs(), &present).is_err());
    assert!(resolve(&["a.com/x=one", "a.com/x=three"], dirs(), &present).is_err());
    let twice = vec![
        spec_dir("run", &[("a.yaml", TWO_DEVICES), ("b.yaml", TWO_DEVICES)]),
        spec_dir("etc", &[("a.yaml", TWO_DEVICES)]),
    ];
    assert_eq!(
        resolve(&["a.com/x=two"], twice, &present),
        Err(
            "CDI device `a.com/x=two` is defined more than once in /tmp/cdi-test/run".to_string()
        )
    );
}

#[test]
fn other_devices_do_not_matter() {
    let wanted = device_spec("a.com/x", "1", "/dev/one");
    let other = device_spec("a.com/y", "1", "relative");
    let alone = resolve(
        &["a.com/x=1"],
        vec![spec_dir("cdi", &[("b.yaml", &wanted)])],
        &["/dev/one"],
    );
    let beside = resolve(
        &["a.com/x=1"],
        vec![spec_dir(
            "cdi",
            &[("a.yaml", &other), ("b.yaml", &wanted), ("c.yaml", &other), ("d.yaml", "kind: [")],
        )],
        &["/dev/one"],
    );
    assert_eq!(alone, Ok(vec![bind("/dev/one", "/dev/test-device")]));
    assert_eq!(alone, beside);
}

#[test]
fn files_that_are_no_specs_are_not_read() {
    let spec = device_spec("a.com/x", "1", "/dev/one");
    let err = resolve(&["a.com/x=1"], vec![spec_dir("cdi", &[("a.txt", &spec)])], &["/dev/one"])
        .expect_err("not a specification file");
    assert_eq!(err, "CDI device `a.com/x=1` was not found in /tmp/cdi-test/cdi");
}

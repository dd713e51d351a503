//! Binds of device nodes.

use cdi::binds::{append_device_node_binds, device_binds, DeviceBind, SelectedDevice};
use cdi::path::HostPath;
use cdi::spec_file::CdiDeviceNode;
use cdi::table::ResolvedCdiDevice;

fn path(text: &str) -> HostPath {
    HostPath::from_text(text)
}

fn node(path: &str, host_path: Option<&str>) -> CdiDeviceNode {
    CdiDeviceNode { path: path.to_string(), host_path: host_path.map(|found| found.to_string()) }
}

fn bind(source: &str, destination: &str) -> DeviceBind {
    DeviceBind { source: path(source), destination: path(destination) }
}

fn append(nodes: Vec<CdiDeviceNode>, present: &[&str]) -> (Vec<DeviceBind>, Result<(), String>) {
    let present: Vec<HostPath> = present.iter().map(|node| path(node)).collect();
    let mut binds = Vec::new();
    let r = append_device_node_binds("a/b=c", &path("/etc/cdi/a.yaml"), &nodes, &present, &mut binds)
        .map_err(|err| err.message());
    (binds, r)
}

fn device(spec_path: &str, shared: Vec<CdiDeviceNode>, own: Vec<CdiDeviceNode>) -> SelectedDevice {
    SelectedDevice {
        name: "a/b=c".to_string(),
        device: ResolvedCdiDevice {
            spec_path: path(spec_path),
            global_device_nodes: shared,
            device_nodes: own,
        },
    }
}

#[test]
fn binds_that_join_the_same_paths_are_made_once() {
    let (binds, r) = append(
        vec![
            node("/dev/a", None),
            node("/dev/b", Some("/dev/a")),
            node("/dev//a/", Some("/dev/./a")),
            node("/dev/a", Some("/dev/b")),
        ],
        &["/dev/a", "/dev/b", "/dev/./a"],
    );
    assert_eq!(r, Ok(()));
    assert_eq!(
        binds,
        vec![bind("/dev/a", "/dev/a"), bind("/dev/a", "/dev/b"), bind("/dev/b", "/dev/a")]
    );
}

#[test]
fn host_nodes_are_compared_byte_for_byte() {
    let (binds, r) = append(vec![node("/dev//a", None)], &["/dev/a"]);
    assert_eq!(
        r,
        Err("CDI device `a/b=c` requires missing host device node /dev//a".to_string())
    );
    assert!(binds.is_empty());
    let (_, r) = append(vec![node("/dev//a", None)], &["/dev//a"]);
    assert_eq!(r, Ok(()));
}

#[test]
fn nodes_have_to_be_at_absolute_paths() {
    let (binds, r) = append(vec![node("/dev/a", None), node("dev/b", None)], &["/dev/a"]);
    assert_eq!(
        r,
        Err(
            "CDI device `a/b=c` in /etc/cdi/a.yaml references non-absolute device node path \
             `dev/b`"
                .to_string()
        )
    );
    assert_eq!(binds, vec![bind("/dev/a", "/dev/a")]);
    let (_, r) = append(vec![node("/dev/a", Some("host"))], &["host"]);
    assert_eq!(
        r,
        Err(
            "CDI device `a/b=c` in /etc/cdi/a.yaml references non-absolute host device node path \
             `host`"
                .to_string()
        )
    );
    let (_, r) = append(vec![node("", None)], &[]);
    assert_eq!(
        r,
        Err(
            "CDI device `a/b=c` in /etc/cdi/a.yaml references non-absolute device node path ``"
                .to_string()
        )
    );
}

#[test]
fn nodes_have_to_exist_on_the_host() {
    let (binds, r) = append(
        vec![node("/dev/a", None), node("/dev/b", Some("/host/b")), node("relative", None)],
        &["/dev/a", "/dev/b"],
    );
    assert_eq!(
        r,
        Err("CDI device `a/b=c` requires missing host device node /host/b".to_string())
    );
    assert_eq!(binds, vec![bind("/dev/a", "/dev/a")]);
}

#[test]
fn shared_nodes_come_first_and_once_for_each_file() {
    let selected = vec![
        device("/etc/cdi/a.yaml", vec![node("/dev/s", None)], vec![node("/dev/1", None)]),
        device("/etc//cdi/a.yaml", vec![node("/dev/unseen", None)], vec![node("/dev/2", None)]),
        device("/etc/cdi/b.yaml", vec![node("/dev/t", None)], vec![node("/dev/3", None)]),
    ];
    let present: Vec<HostPath> =
        ["/dev/s", "/dev/t", "/dev/1", "/dev/2", "/dev/3"].iter().map(|node| path(node)).collect();
    assert_eq!(
        device_binds(&selected, &present).expect("nodes that exist"),
        vec![
            bind("/dev/s", "/dev/s"),
            bind("/dev/1", "/dev/1"),
            bind("/dev/2", "/dev/2"),
            bind("/dev/t", "/dev/t"),
            bind("/dev/3", "/dev/3"),
        ]
    );
}

#[test]
fn binds_are_equal_where_they_join_the_same_paths() {
    assert!(bind("/a//b", "/c/") == bind("/a/b", "/c"));
    assert!(bind("/a", "/b") != bind("/a", "/c"));
}
